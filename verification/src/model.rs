//! Mathematical model of the line scanner.
//!
//! A line is a sequence of characters. The scanner walks it left to right,
//! carrying the position of the body of the link currently being formed:
//! the second `[` of an opening `[[` starts a body just after itself, and
//! the second `]` of a closing `]]` ends the body just before the first `]`
//! and emits one record. A closing pair seen while no body is open is
//! ignored, as is every character outside a bracket pair.

use vstd::prelude::*;

verus! {

/// Abstract value of one emitted link record: the target segment (always
/// present, possibly empty) and the optional description segment.
#[verifier::ext_equal]
pub struct LinkV {
    pub link: Option<Seq<char>>,
    pub description: Option<Seq<char>>,
}

/// One emission of the scanner: the record together with the half-open
/// body bounds `[open, close)` it was sliced from.
pub struct Emit {
    pub open: int,
    pub close: int,
    pub rec: LinkV,
}

/// The second bracket of an opening `[[` stands at position `i`.
/// Position 0 has no predecessor, so nothing fires there.
pub open spec fn is_open_at(s: Seq<char>, i: int) -> bool {
    &&& 0 < i < s.len()
    &&& s[i] == '['
    &&& s[i - 1] == '['
}

/// The second bracket of a closing `]]` stands at position `i`.
pub open spec fn is_close_at(s: Seq<char>, i: int) -> bool {
    &&& 0 < i < s.len()
    &&& s[i] == ']'
    &&& s[i - 1] == ']'
}

/// Position of the first `][` separator at or after `k` in `body`,
/// or `None` if there is none.
pub open spec fn find_sep_from(body: Seq<char>, k: int) -> Option<int>
    decreases body.len() - k,
{
    if k < 0 || k + 1 >= body.len() {
        None
    } else if body[k] == ']' && body[k + 1] == '[' {
        Some(k)
    } else {
        find_sep_from(body, k + 1)
    }
}

/// Decompose one body into a record: the segment before the first `][`
/// separator is the target, the segment between the first separator and
/// the next one (or the body's end) the description; anything after a
/// second separator is discarded. A body without a separator is all
/// target, and has no description. Well-formed input has at most one
/// separator, so the discard arm never fires on it.
pub open spec fn link_of_body(body: Seq<char>) -> LinkV {
    match find_sep_from(body, 0) {
        Some(k) => {
            let dend = match find_sep_from(body, k + 2) {
                Some(k2) => k2,
                None => body.len() as int,
            };
            LinkV {
                link: Some(body.subrange(0, k)),
                description: Some(body.subrange(k + 2, dend)),
            }
        },
        None => LinkV { link: Some(body), description: None },
    }
}

proof fn lemma_find_sep_offset_from(body: Seq<char>, j0: int, j: int)
    requires
        0 <= j0 <= j,
        j0 <= body.len(),
    ensures
        find_sep_from(body, j) == (match find_sep_from(
            body.subrange(j0, body.len() as int),
            j - j0,
        ) {
            Some(m) => Some(j0 + m),
            None => None::<int>,
        }),
    decreases body.len() - j,
{
    let tail = body.subrange(j0, body.len() as int);
    if j + 1 >= body.len() {
    } else {
        assert(tail[j - j0] == body[j]);
        assert(tail[j - j0 + 1] == body[j + 1]);
        if body[j] == ']' && body[j + 1] == '[' {
        } else {
            lemma_find_sep_offset_from(body, j0, j + 1);
        }
    }
}

/// Searching for a separator from position `j` of a body finds the first
/// one of the body's tail from `j` on, at its position shifted by `j`.
pub proof fn lemma_find_sep_offset(body: Seq<char>, j: int)
    requires
        0 <= j <= body.len(),
    ensures
        find_sep_from(body, j) == (match find_sep_from(
            body.subrange(j, body.len() as int),
            0,
        ) {
            Some(m) => Some(j + m),
            None => None::<int>,
        }),
{
    lemma_find_sep_offset_from(body, j, j);
}

/// The emissions of the scanner from position `i` to the end of `s`, with
/// `begin` the start of the currently open body, if one is open.
pub open spec fn scan_emits_from(s: Seq<char>, i: int, begin: Option<int>) -> Seq<Emit>
    decreases s.len() - i,
{
    if i < 0 || i >= s.len() {
        Seq::empty()
    } else if is_open_at(s, i) {
        scan_emits_from(s, i + 1, Some(i + 1))
    } else if is_close_at(s, i) && begin is Some {
        match begin {
            Some(p) => seq![
                Emit { open: p, close: i - 1, rec: link_of_body(s.subrange(p, i - 1)) },
            ] + scan_emits_from(s, i + 1, None::<int>),
            None => Seq::empty(),
        }
    } else {
        scan_emits_from(s, i + 1, begin)
    }
}

/// All emissions of a full scan of `s`.
pub open spec fn scan_emits(s: Seq<char>) -> Seq<Emit> {
    scan_emits_from(s, 0, None::<int>)
}

/// The records of a full scan of `s`, in emission order.
pub open spec fn spec_parse_line(s: Seq<char>) -> Seq<LinkV> {
    scan_emits(s).map_values(|e: Emit| e.rec)
}

} // verus!
