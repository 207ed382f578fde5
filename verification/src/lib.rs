//! Extraction of Org-mode hyperlinks from a single line of text.
//!
//! An Org hyperlink is written `[[TARGET]]` or `[[TARGET][DESCRIPTION]]`.
//! [`parse_line`] scans one line and returns every link it contains, in
//! left-to-right order, each decomposed into its target and optional
//! description. Malformed fragments are skipped silently: the function
//! returns for every input and never fails.

pub mod grammar;
pub mod laws;
pub mod model;

use vstd::prelude::*;

use crate::model::{
    find_sep_from, is_close_at, is_open_at, lemma_find_sep_offset, link_of_body, scan_emits_from,
    spec_parse_line, Emit, LinkV,
};

verus! {

/// One hyperlink found in a line: the target (the segment before any `][`
/// separator) and the optional description (the segment after it).
///
/// At least one field is present in every record the scanner emits; in the
/// bracket-only form `[[X]]` the description is absent. Either field may be
/// present but empty.
#[derive(Debug, PartialEq, Eq)]
pub struct Link {
    pub link: Option<String>,
    pub description: Option<String>,
}

impl View for Link {
    type V = LinkV;

    open spec fn view(&self) -> LinkV {
        LinkV { link: self.link.deep_view(), description: self.description.deep_view() }
    }
}

impl DeepView for Link {
    type V = LinkV;

    open spec fn deep_view(&self) -> LinkV {
        self.view()
    }
}

/// The spec-level image of the scanner's running body marker.
spec fn marker_view(begin: Option<usize>) -> Option<int> {
    match begin {
        Some(p) => Some(p as int),
        None => None,
    }
}

/// Position of the first `][` separator inside `line[from..to)`, by
/// character position, or `None` when that range contains none.
fn find_sep_in(line: &str, from: usize, to: usize) -> (r: Option<usize>)
    requires
        from <= to <= line@.len(),
    ensures
        match r {
            Some(k) => {
                &&& from <= k && k + 1 < to
                &&& find_sep_from(line@.subrange(from as int, to as int), 0) == Some(
                    k - from as int,
                )
            },
            None => find_sep_from(line@.subrange(from as int, to as int), 0) is None,
        },
{
    let ghost body = line@.subrange(from as int, to as int);
    let mut k: usize = from;
    while to - k > 1
        invariant
            from <= k <= to <= line@.len(),
            body == line@.subrange(from as int, to as int),
            find_sep_from(body, 0) == find_sep_from(body, k - from as int),
        decreases to - k,
    {
        let c0 = line.get_char(k);
        let c1 = line.get_char(k + 1);
        if c0 == ']' && c1 == '[' {
            assert(body[k - from as int] == ']' && body[k - from as int + 1] == '[');
            return Some(k);
        }
        assert(find_sep_from(body, k - from as int) == find_sep_from(body, k + 1 - from as int));
        k = k + 1;
    }
    assert(find_sep_from(body, k - from as int) is None);
    None
}

/// Scan one line and return every Org link found inside `[[ ... ]]`
/// framing, in left-to-right order of the opening brackets.
///
/// The result is exactly what the scanner model [`spec_parse_line`]
/// prescribes for the line's characters: the second `[` of an opening pair
/// starts a body, the first `]` of a closing pair ends it and emits one
/// record, split at its first `][` separator into target and description
/// (anything after a second separator is discarded).
/// Every input is accepted, including the empty line; text outside links
/// and unmatched fragments are skipped without error.
pub fn parse_line(line: &str) -> (res: Vec<Link>)
    ensures
        res.deep_view() == spec_parse_line(line@),
{
    let n = line.unicode_len();
    let mut res: Vec<Link> = Vec::new();
    let mut begin: Option<usize> = None;
    let mut prev: Option<char> = None;
    let mut i: usize = 0;
    while i < n
        invariant
            n == line@.len(),
            i <= n,
            i == 0 ==> prev is None,
            i > 0 ==> prev == Some(line@[i - 1]),
            match begin {
                Some(p) => 1 <= p <= i && line@[p as int - 1] == '[',
                None => true,
            },
            spec_parse_line(line@) == res.deep_view() + scan_emits_from(
                line@,
                i as int,
                marker_view(begin),
            ).map_values(|e: Emit| e.rec),
        decreases n - i,
    {
        let ghost b0 = marker_view(begin);
        let ghost recs0 = res.deep_view();
        let c = line.get_char(i);
        let prev_open = match prev {
            Some(pc) => pc == '[',
            None => false,
        };
        let prev_close = match prev {
            Some(pc) => pc == ']',
            None => false,
        };
        if c == '[' && prev_open {
            assert(is_open_at(line@, i as int));
            begin = Some(i + 1);
            assert(scan_emits_from(line@, i as int, b0) == scan_emits_from(
                line@,
                i + 1 as int,
                marker_view(begin),
            ));
        } else if c == ']' && prev_close {
            assert(is_close_at(line@, i as int));
            if let Some(p) = begin {
                // The body opened after a `[`, so it cannot start at the
                // `]` just before the current position: `p <= i - 1`.
                assert(line@[p as int - 1] == '[' && line@[i - 1] == ']');
                assert(p < i);
                let close = i - 1;
                let ghost body = line@.subrange(p as int, close as int);
                let rec: Link = match find_sep_in(line, p, close) {
                    Some(k) => {
                        let t = line.substring_char(p, k).to_owned();
                        let dend = match find_sep_in(line, k + 2, close) {
                            Some(k2) => k2,
                            None => close,
                        };
                        let d = line.substring_char(k + 2, dend).to_owned();
                        proof {
                            let ks = k - p as int;
                            lemma_find_sep_offset(body, ks + 2);
                            assert(body.subrange(ks + 2, body.len() as int) =~= line@.subrange(
                                k + 2 as int,
                                close as int,
                            ));
                            assert(body.subrange(0, ks) =~= line@.subrange(p as int, k as int));
                            assert(body.subrange(ks + 2, dend - p as int) =~= line@.subrange(
                                k + 2 as int,
                                dend as int,
                            ));
                        }
                        Link { link: Some(t), description: Some(d) }
                    },
                    None => {
                        let t = line.substring_char(p, close).to_owned();
                        Link { link: Some(t), description: None }
                    },
                };
                assert(rec@ == link_of_body(body));
                res.push(rec);
                begin = None;
                proof {
                    let e = Emit { open: p as int, close: close as int, rec: link_of_body(body) };
                    assert(scan_emits_from(line@, i as int, b0) == seq![e] + scan_emits_from(
                        line@,
                        i + 1 as int,
                        None::<int>,
                    ));
                    assert(res.deep_view() =~= recs0.push(rec@));
                    assert((seq![e] + scan_emits_from(line@, i + 1 as int, None::<int>)).map_values(
                        |e: Emit| e.rec,
                    ) =~= seq![e.rec] + scan_emits_from(line@, i + 1 as int, None::<int>).map_values(
                        |e: Emit| e.rec,
                    ));
                }
            } else {
                assert(scan_emits_from(line@, i as int, b0) == scan_emits_from(
                    line@,
                    i + 1 as int,
                    b0,
                ));
            }
        } else {
            assert(!is_open_at(line@, i as int) && !is_close_at(line@, i as int));
            assert(scan_emits_from(line@, i as int, b0) == scan_emits_from(line@, i + 1 as int, b0));
        }
        prev = Some(c);
        i = i + 1;
    }
    assert(scan_emits_from(line@, i as int, marker_view(begin)) =~= Seq::<Emit>::empty());
    assert(res.deep_view() =~= res.deep_view() + Seq::<Emit>::empty().map_values(
        |e: Emit| e.rec,
    ));
    res
}

} // verus!
