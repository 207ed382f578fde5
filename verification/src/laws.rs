//! Proofs of the scanner's general properties.

use vstd::prelude::*;

use crate::grammar::{
    blank_fillers, blank_seg, link_rec, link_text, no_brackets, seg_ok, seg_text, segs_links,
    segs_ok, segs_recs, segs_text, Seg,
};
use crate::model::{
    find_sep_from, is_close_at, is_open_at, link_of_body, scan_emits, scan_emits_from,
    spec_parse_line, Emit, LinkV,
};

verus! {

proof fn lemma_scan_link_present(s: Seq<char>, i: int, begin: Option<int>)
    ensures
        forall|j: int|
            0 <= j < scan_emits_from(s, i, begin).len() ==> (#[trigger] scan_emits_from(
                s,
                i,
                begin,
            )[j].rec).link is Some,
    decreases s.len() - i,
{
    if i < 0 || i >= s.len() {
    } else if is_open_at(s, i) {
        lemma_scan_link_present(s, i + 1, Some(i + 1));
    } else if is_close_at(s, i) && begin is Some {
        lemma_scan_link_present(s, i + 1, None::<int>);
    } else {
        lemma_scan_link_present(s, i + 1, begin);
    }
}

/// Non-empty record: every emitted record carries at least its target
/// field; a record with both fields absent is never emitted.
pub proof fn lemma_record_not_empty(s: Seq<char>)
    ensures
        forall|j: int|
            0 <= j < spec_parse_line(s).len() ==> (#[trigger] spec_parse_line(s)[j]).link is Some,
{
    lemma_scan_link_present(s, 0, None::<int>);
}

/// An emission is a genuine framing in `s`: its body stands between an
/// opening `[[` and a closing `]]`, and its record is the decomposition of
/// exactly that body.
pub open spec fn emit_framed(s: Seq<char>, e: Emit) -> bool {
    &&& 2 <= e.open <= e.close < s.len()
    &&& is_open_at(s, e.open - 1)
    &&& is_close_at(s, e.close + 1)
    &&& e.rec == link_of_body(s.subrange(e.open, e.close))
}

proof fn lemma_scan_emits_framed(s: Seq<char>, i: int, begin: Option<int>)
    requires
        match begin {
            Some(p) => is_open_at(s, p - 1) && p <= i,
            None => true,
        },
    ensures
        forall|j: int|
            0 <= j < scan_emits_from(s, i, begin).len() ==> emit_framed(
                s,
                #[trigger] scan_emits_from(s, i, begin)[j],
            ),
        forall|j: int|
            0 <= j < scan_emits_from(s, i, begin).len() ==> (#[trigger] scan_emits_from(
                s,
                i,
                begin,
            )[j]).open >= (match begin {
                Some(p) => p,
                None => i + 1,
            }),
    decreases s.len() - i,
{
    if i < 0 || i >= s.len() {
    } else if is_open_at(s, i) {
        lemma_scan_emits_framed(s, i + 1, Some(i + 1));
    } else if is_close_at(s, i) && begin is Some {
        lemma_scan_emits_framed(s, i + 1, None::<int>);
        let p = begin->0;
        // The body opened just after a `[`, the close fires just after a
        // `]`, so the two positions differ and the body bounds are ordered.
        assert(s[p - 1] == '[' && s[i - 1] == ']');
        assert(p <= i - 1);
    } else {
        lemma_scan_emits_framed(s, i + 1, begin);
    }
}

/// Order preservation: the records of a line come in strictly increasing
/// order of their opening position, each one the decomposition of the body
/// framed there. `scan_emits` carries the body bounds that `spec_parse_line`
/// drops; the two agree record for record.
pub proof fn lemma_order_preservation(s: Seq<char>)
    ensures
        spec_parse_line(s).len() == scan_emits(s).len(),
        forall|j: int|
            0 <= j < scan_emits(s).len() ==> spec_parse_line(s)[j] == (#[trigger] scan_emits(
                s,
            )[j]).rec,
        forall|j: int|
            0 <= j < scan_emits(s).len() ==> emit_framed(s, #[trigger] scan_emits(s)[j]),
        forall|j: int, k: int|
            0 <= j < k < scan_emits(s).len() ==> scan_emits(s)[j].open < scan_emits(s)[k].open,
{
    lemma_scan_emits_framed(s, 0, None::<int>);
    lemma_scan_opens_increase(s, 0, None::<int>);
}

proof fn lemma_scan_opens_increase(s: Seq<char>, i: int, begin: Option<int>)
    requires
        match begin {
            Some(p) => p <= i,
            None => true,
        },
    ensures
        forall|j: int|
            0 <= j < scan_emits_from(s, i, begin).len() ==> (#[trigger] scan_emits_from(
                s,
                i,
                begin,
            )[j]).open >= (match begin {
                Some(p) => p,
                None => i + 1,
            }),
        forall|j: int, k: int|
            0 <= j < k < scan_emits_from(s, i, begin).len() ==> scan_emits_from(
                s,
                i,
                begin,
            )[j].open < scan_emits_from(s, i, begin)[k].open,
    decreases s.len() - i,
{
    if i < 0 || i >= s.len() {
    } else if is_open_at(s, i) {
        lemma_scan_opens_increase(s, i + 1, Some(i + 1));
    } else if is_close_at(s, i) && begin is Some {
        lemma_scan_opens_increase(s, i + 1, None::<int>);
    } else {
        lemma_scan_opens_increase(s, i + 1, begin);
    }
}

proof fn lemma_no_brackets_no_sep(t: Seq<char>, k: int)
    requires
        no_brackets(t),
    ensures
        find_sep_from(t, k) is None,
    decreases t.len() - k,
{
    if k < 0 || k + 1 >= t.len() {
    } else {
        lemma_no_brackets_no_sep(t, k + 1);
    }
}

proof fn lemma_first_sep_after_target(t: Seq<char>, d: Seq<char>, k: int)
    requires
        no_brackets(t),
        0 <= k <= t.len(),
    ensures
        find_sep_from(t + seq![']', '['] + d, k) == Some(t.len() as int),
    decreases t.len() - k,
{
    let body = t + seq![']', '['] + d;
    assert(body[t.len() as int] == ']' && body[t.len() as int + 1] == '[');
    if k == t.len() {
    } else {
        assert(body[k] == t[k]);
        lemma_first_sep_after_target(t, d, k + 1);
    }
}

/// A bracket-free body is all target.
proof fn lemma_link_of_plain_body(t: Seq<char>)
    requires
        no_brackets(t),
    ensures
        link_of_body(t) == link_rec(t, None::<Seq<char>>),
{
    lemma_no_brackets_no_sep(t, 0);
}

proof fn lemma_no_close_no_sep(body: Seq<char>, j: int)
    requires
        forall|k: int| j <= k < body.len() ==> body[k] != ']',
    ensures
        find_sep_from(body, j) is None,
    decreases body.len() - j,
{
    if j < 0 || j + 1 >= body.len() {
    } else {
        lemma_no_close_no_sep(body, j + 1);
    }
}

/// A body made of a bracket-free target, the separator, and a bracket-free
/// description splits at exactly that separator, and the search for a
/// second separator finds none.
proof fn lemma_link_of_sep_body(t: Seq<char>, d: Seq<char>)
    requires
        no_brackets(t),
        no_brackets(d),
    ensures
        link_of_body(t + seq![']', '['] + d) == link_rec(t, Some(d)),
{
    let body = t + seq![']', '['] + d;
    let tl = t.len() as int;
    lemma_first_sep_after_target(t, d, 0);
    assert forall|k: int| tl + 2 <= k < body.len() implies body[k] != ']' by {
        assert(body[k] == d[k - tl - 2]);
    }
    lemma_no_close_no_sep(body, tl + 2);
    assert(body.subrange(0, tl) =~= t);
    assert(body.subrange(tl + 2, body.len() as int) =~= d);
}

/// The scanner neither fires nor changes state on a bracket-free run.
proof fn lemma_scan_skips_plain_run(s: Seq<char>, i: int, j: int, begin: Option<int>)
    requires
        0 <= i <= j <= s.len(),
        forall|k: int| i <= k < j ==> s[k] != '[' && s[k] != ']',
    ensures
        scan_emits_from(s, i, begin) == scan_emits_from(s, j, begin),
    decreases j - i,
{
    if i < j {
        assert(!is_open_at(s, i) && !is_close_at(s, i));
        lemma_scan_skips_plain_run(s, i + 1, j, begin);
    }
}

/// Scanning from the start of one complete link with no open body emits
/// exactly that link's record and continues just past it, body closed.
proof fn lemma_scan_one_link(s: Seq<char>, i: int, t: Seq<char>, d: Option<Seq<char>>)
    requires
        0 <= i,
        i + link_text(t, d).len() <= s.len(),
        s.subrange(i, i + link_text(t, d).len() as int) == link_text(t, d),
        no_brackets(t),
        match d {
            Some(dd) => no_brackets(dd),
            None => true,
        },
        i == 0 || s[i - 1] != '[',
    ensures
        scan_emits_from(s, i, None::<int>) == seq![
            Emit {
                open: i + 2,
                close: i + link_text(t, d).len() - 2,
                rec: link_rec(t, d),
            },
        ] + scan_emits_from(s, i + link_text(t, d).len() as int, None::<int>),
{
    let lt = link_text(t, d);
    let ll = lt.len() as int;
    let tl = t.len() as int;
    match d {
        None => {
            assert(lt == seq!['[', '['] + t + seq![']', ']']);
            assert(ll == tl + 4);
            let a = i + 2 + tl;
            assert(s[i] == '[' && s[i + 1] == '[') by {
                lemma_char_of_subrange(s, i, ll, lt, i);
                lemma_char_of_subrange(s, i, ll, lt, i + 1);
            }
            assert(s[a] == ']' && s[a + 1] == ']') by {
                lemma_char_of_subrange(s, i, ll, lt, a);
                lemma_char_of_subrange(s, i, ll, lt, a + 1);
            }
            assert forall|k: int| i + 2 <= k < a implies s[k] != '[' && s[k] != ']' by {
                lemma_char_of_subrange(s, i, ll, lt, k);
                assert(lt[k - i] == t[k - i - 2]);
            }
            // `[`: nothing fires at the first bracket of the opening pair.
            assert(!is_open_at(s, i) && !is_close_at(s, i));
            assert(scan_emits_from(s, i, None::<int>) == scan_emits_from(s, i + 1, None::<int>));
            // `[`: the second bracket opens a body just after itself.
            assert(is_open_at(s, i + 1));
            assert(scan_emits_from(s, i + 1, None::<int>) == scan_emits_from(
                s,
                i + 2,
                Some(i + 2),
            ));
            // the target: bracket-free, nothing fires.
            lemma_scan_skips_plain_run(s, i + 2, a, Some(i + 2));
            // `]`: its predecessor is no `]`, nothing fires.
            assert(s[a - 1] != ']');
            assert(!is_open_at(s, a) && !is_close_at(s, a));
            assert(scan_emits_from(s, a, Some(i + 2)) == scan_emits_from(s, a + 1, Some(i + 2)));
            // `]`: the second bracket closes the body and emits.
            assert(is_close_at(s, a + 1));
            assert(s.subrange(i + 2, a) =~= t) by {
                assert forall|m: int| 0 <= m < tl implies s.subrange(i + 2, a)[m] == t[m] by {
                    lemma_char_of_subrange(s, i, ll, lt, i + 2 + m);
                }
            }
            lemma_link_of_plain_body(t);
            assert(scan_emits_from(s, a + 1, Some(i + 2)) == seq![
                Emit { open: i + 2, close: a, rec: link_rec(t, d) },
            ] + scan_emits_from(s, a + 2, None::<int>));
        },
        Some(dd) => {
            assert(lt == seq!['[', '['] + t + seq![']', '['] + dd + seq![']', ']']);
            let dl = dd.len() as int;
            assert(ll == tl + dl + 6);
            let a = i + 2 + tl;
            let b = a + 2 + dl;
            assert(s[i] == '[' && s[i + 1] == '[') by {
                lemma_char_of_subrange(s, i, ll, lt, i);
                lemma_char_of_subrange(s, i, ll, lt, i + 1);
            }
            assert(s[a] == ']' && s[a + 1] == '[') by {
                lemma_char_of_subrange(s, i, ll, lt, a);
                lemma_char_of_subrange(s, i, ll, lt, a + 1);
            }
            assert(s[b] == ']' && s[b + 1] == ']') by {
                lemma_char_of_subrange(s, i, ll, lt, b);
                lemma_char_of_subrange(s, i, ll, lt, b + 1);
            }
            assert forall|k: int| i + 2 <= k < a implies s[k] != '[' && s[k] != ']' by {
                lemma_char_of_subrange(s, i, ll, lt, k);
                assert(lt[k - i] == t[k - i - 2]);
            }
            assert forall|k: int| a + 2 <= k < b implies s[k] != '[' && s[k] != ']' by {
                lemma_char_of_subrange(s, i, ll, lt, k);
                assert(lt[k - i] == dd[k - i - tl - 4]);
            }
            // `[`: nothing fires at the first bracket of the opening pair.
            assert(!is_open_at(s, i) && !is_close_at(s, i));
            assert(scan_emits_from(s, i, None::<int>) == scan_emits_from(s, i + 1, None::<int>));
            // `[`: the second bracket opens a body just after itself.
            assert(is_open_at(s, i + 1));
            assert(scan_emits_from(s, i + 1, None::<int>) == scan_emits_from(
                s,
                i + 2,
                Some(i + 2),
            ));
            // the target: bracket-free, nothing fires.
            lemma_scan_skips_plain_run(s, i + 2, a, Some(i + 2));
            // `]` of the separator: its predecessor is no `]`.
            assert(s[a - 1] != ']');
            assert(!is_open_at(s, a) && !is_close_at(s, a));
            assert(scan_emits_from(s, a, Some(i + 2)) == scan_emits_from(s, a + 1, Some(i + 2)));
            // `[` of the separator: its predecessor is no `[`.
            assert(!is_open_at(s, a + 1) && !is_close_at(s, a + 1));
            assert(scan_emits_from(s, a + 1, Some(i + 2)) == scan_emits_from(
                s,
                a + 2,
                Some(i + 2),
            ));
            // the description: bracket-free, nothing fires.
            lemma_scan_skips_plain_run(s, a + 2, b, Some(i + 2));
            // `]`: its predecessor is no `]`, nothing fires.
            assert(s[b - 1] != ']');
            assert(!is_open_at(s, b) && !is_close_at(s, b));
            assert(scan_emits_from(s, b, Some(i + 2)) == scan_emits_from(s, b + 1, Some(i + 2)));
            // `]`: the second bracket closes the body and emits.
            assert(is_close_at(s, b + 1));
            assert(s.subrange(i + 2, b) =~= t + seq![']', '['] + dd) by {
                assert forall|m: int| 0 <= m < tl + 2 + dl implies s.subrange(i + 2, b)[m] == (t
                    + seq![']', '['] + dd)[m] by {
                    lemma_char_of_subrange(s, i, ll, lt, i + 2 + m);
                    assert(lt[2 + m] == (t + seq![']', '['] + dd)[m]);
                }
            }
            lemma_link_of_sep_body(t, dd);
            assert(scan_emits_from(s, b + 1, Some(i + 2)) == seq![
                Emit { open: i + 2, close: b, rec: link_rec(t, d) },
            ] + scan_emits_from(s, b + 2, None::<int>));
        },
    }
}

proof fn lemma_scan_segs(s: Seq<char>, i: int, gs: Seq<Seg>)
    requires
        0 <= i <= s.len(),
        s.subrange(i, s.len() as int) == segs_text(gs),
        segs_ok(gs),
        i == 0 || s[i - 1] != '[',
    ensures
        scan_emits_from(s, i, None::<int>).map_values(|e: Emit| e.rec) == segs_recs(gs),
    decreases gs.len(),
{
    let sl = s.len() as int;
    if gs.len() == 0 {
        assert(sl - i == segs_text(gs).len());
        assert(scan_emits_from(s, i, None::<int>).map_values(|e: Emit| e.rec) =~= segs_recs(gs));
    } else {
        let g = gs[0];
        let rest = gs.drop_first();
        let gt = seg_text(g);
        let gl = gt.len() as int;
        assert(seg_ok(g)) by {
            assert(seg_ok(gs[0]));
        }
        assert(segs_ok(rest)) by {
            assert forall|j: int| 0 <= j < rest.len() implies seg_ok(#[trigger] rest[j]) by {
                assert(rest[j] == gs[j + 1]);
                assert(seg_ok(gs[j + 1]));
            }
        }
        assert(segs_text(gs) == gt + segs_text(rest));
        assert(sl - i == gl + segs_text(rest).len());
        assert(s.subrange(i, i + gl) =~= gt) by {
            assert forall|m: int| 0 <= m < gl implies s.subrange(i, i + gl)[m] == gt[m] by {
                assert(s.subrange(i, sl)[m] == s[i + m]);
                assert((gt + segs_text(rest))[m] == gt[m]);
            }
        }
        assert(s.subrange(i + gl, sl) =~= segs_text(rest)) by {
            assert forall|m: int| 0 <= m < sl - i - gl implies s.subrange(i + gl, sl)[m]
                == segs_text(rest)[m] by {
                assert(s.subrange(i, sl)[gl + m] == s[i + gl + m]);
                assert((gt + segs_text(rest))[gl + m] == segs_text(rest)[m]);
            }
        }
        match g {
            Seg::Filler(_) => {
                assert forall|k: int| i <= k < i + gl implies s[k] != '[' && s[k] != ']' by {
                    lemma_char_of_subrange(s, i, gl, gt, k);
                }
                lemma_scan_skips_plain_run(s, i, i + gl, None::<int>);
                if gl > 0 {
                    lemma_char_of_subrange(s, i, gl, gt, i + gl - 1);
                }
                lemma_scan_segs(s, i + gl, rest);
                assert(segs_recs(gs) == Seq::<LinkV>::empty() + segs_recs(rest));
                assert(Seq::<LinkV>::empty() + segs_recs(rest) =~= segs_recs(rest));
            },
            Seg::Link(t, dopt) => {
                assert(gt == link_text(t, dopt));
                lemma_scan_one_link(s, i, t, dopt);
                // The link ends in `]`, so the next segment does not see a
                // `[` as its predecessor.
                assert(gt[gl - 1] == ']');
                lemma_char_of_subrange(s, i, gl, gt, i + gl - 1);
                lemma_scan_segs(s, i + gl, rest);
                let e = Emit { open: i + 2, close: i + gl - 2, rec: link_rec(t, dopt) };
                let tail = scan_emits_from(s, i + gl, None::<int>);
                assert((seq![e] + tail).map_values(|e: Emit| e.rec) =~= seq![link_rec(t, dopt)]
                    + tail.map_values(|e: Emit| e.rec));
                assert(segs_recs(gs) == seq![link_rec(t, dopt)] + segs_recs(rest));
            },
        }
    }
}

/// A line made only of complete links and bracket-free filler parses to
/// exactly its link segments' records, in the order the segments stand in
/// the line. This is the scanner's soundness and completeness on lines the
/// link grammar describes.
pub proof fn lemma_segments_parse_exactly(gs: Seq<Seg>)
    requires
        segs_ok(gs),
    ensures
        spec_parse_line(segs_text(gs)) == segs_recs(gs),
{
    let s = segs_text(gs);
    assert(s.subrange(0, s.len() as int) =~= s);
    lemma_scan_segs(s, 0, gs);
}

proof fn lemma_segs_recs_fields_plain(gs: Seq<Seg>)
    requires
        segs_ok(gs),
    ensures
        forall|j: int|
            0 <= j < segs_recs(gs).len() ==> {
                let r = #[trigger] segs_recs(gs)[j];
                &&& (r.link matches Some(tt) ==> no_brackets(tt))
                &&& (r.description matches Some(dd) ==> no_brackets(dd))
            },
    decreases gs.len(),
{
    if gs.len() > 0 {
        let rest = gs.drop_first();
        assert(seg_ok(gs[0]));
        assert forall|j: int| 0 <= j < rest.len() implies seg_ok(#[trigger] rest[j]) by {
            assert(rest[j] == gs[j + 1]);
            assert(seg_ok(gs[j + 1]));
        }
        lemma_segs_recs_fields_plain(rest);
    }
}

/// Opacity of fields: on a line made only of complete links and
/// bracket-free filler, no field of any emitted record contains a bracket
/// character. (On other lines a stray single bracket can survive inside a
/// body and then inside a field.)
pub proof fn lemma_field_opacity(gs: Seq<Seg>)
    requires
        segs_ok(gs),
    ensures
        forall|j: int|
            0 <= j < spec_parse_line(segs_text(gs)).len() ==> {
                let r = #[trigger] spec_parse_line(segs_text(gs))[j];
                &&& (r.link matches Some(tt) ==> no_brackets(tt))
                &&& (r.description matches Some(dd) ==> no_brackets(dd))
            },
{
    lemma_segments_parse_exactly(gs);
    lemma_segs_recs_fields_plain(gs);
}

proof fn lemma_segs_recs_of_links(gs: Seq<Seg>)
    ensures
        segs_recs(segs_links(gs)) == segs_recs(gs),
        segs_ok(gs) ==> segs_ok(segs_links(gs)),
    decreases gs.len(),
{
    if gs.len() == 0 {
    } else {
        let rest = gs.drop_first();
        if segs_ok(gs) {
            assert forall|j: int| 0 <= j < rest.len() implies seg_ok(#[trigger] rest[j]) by {
                assert(rest[j] == gs[j + 1]);
                assert(seg_ok(gs[j + 1]));
            }
        }
        lemma_segs_recs_of_links(rest);
        match gs[0] {
            Seg::Filler(_) => {
                assert(segs_links(gs) =~= segs_links(rest));
                assert(segs_recs(gs) =~= segs_recs(rest));
            },
            Seg::Link(t, d) => {
                assert(segs_links(gs) == seq![gs[0]] + segs_links(rest));
                assert(segs_links(gs).drop_first() =~= segs_links(rest));
                assert(segs_recs(segs_links(gs)) == seq![link_rec(t, d)] + segs_recs(
                    segs_links(gs).drop_first(),
                ));
                if segs_ok(gs) {
                    assert(seg_ok(gs[0]));
                    assert forall|j: int|
                        0 <= j < segs_links(gs).len() implies seg_ok(
                        #[trigger] segs_links(gs)[j],
                    ) by {
                        if j == 0 {
                        } else {
                            assert(segs_links(gs)[j] == segs_links(rest)[j - 1]);
                        }
                    }
                }
            },
        }
    }
}

/// Locality: the records of a line depend only on its link segments. Two
/// lines made of the same complete links with any bracket-free filler
/// around them parse to the same records.
pub proof fn lemma_locality(gs1: Seq<Seg>, gs2: Seq<Seg>)
    requires
        segs_ok(gs1),
        segs_ok(gs2),
        segs_links(gs1) == segs_links(gs2),
    ensures
        spec_parse_line(segs_text(gs1)) == spec_parse_line(segs_text(gs2)),
{
    lemma_segments_parse_exactly(gs1);
    lemma_segments_parse_exactly(gs2);
    lemma_segs_recs_of_links(gs1);
    lemma_segs_recs_of_links(gs2);
}

proof fn lemma_blank_keeps_links(gs: Seq<Seg>)
    requires
        segs_ok(gs),
    ensures
        segs_ok(blank_fillers(gs)),
        segs_links(blank_fillers(gs)) == segs_links(gs),
    decreases gs.len(),
{
    let bs = blank_fillers(gs);
    assert forall|j: int| 0 <= j < bs.len() implies seg_ok(#[trigger] bs[j]) by {
        assert(seg_ok(gs[j]));
        assert(bs[j] == blank_seg(gs[j]));
    }
    if gs.len() > 0 {
        let rest = gs.drop_first();
        assert forall|j: int| 0 <= j < rest.len() implies seg_ok(#[trigger] rest[j]) by {
            assert(rest[j] == gs[j + 1]);
            assert(seg_ok(gs[j + 1]));
        }
        lemma_blank_keeps_links(rest);
        assert(bs.drop_first() =~= blank_fillers(rest));
        assert(bs[0] == blank_seg(gs[0]));
        match gs[0] {
            Seg::Filler(_) => {
                assert(segs_links(bs) =~= segs_links(blank_fillers(rest)));
                assert(segs_links(gs) =~= segs_links(rest));
            },
            Seg::Link(t, d) => {
                assert(segs_links(bs) == seq![bs[0]] + segs_links(blank_fillers(rest)));
                assert(segs_links(gs) == seq![gs[0]] + segs_links(rest));
            },
        }
    }
}

/// Idempotence of extraction: blanking every filler character of a line to
/// a space leaves the extracted records unchanged.
pub proof fn lemma_extraction_idempotent(gs: Seq<Seg>)
    requires
        segs_ok(gs),
    ensures
        spec_parse_line(segs_text(blank_fillers(gs))) == spec_parse_line(segs_text(gs)),
{
    lemma_blank_keeps_links(gs);
    lemma_locality(blank_fillers(gs), gs);
}

proof fn lemma_segs_concat(gs1: Seq<Seg>, gs2: Seq<Seg>)
    ensures
        segs_text(gs1 + gs2) == segs_text(gs1) + segs_text(gs2),
        segs_recs(gs1 + gs2) == segs_recs(gs1) + segs_recs(gs2),
    decreases gs1.len(),
{
    if gs1.len() == 0 {
        assert(gs1 + gs2 =~= gs2);
        assert(segs_text(gs1) + segs_text(gs2) =~= segs_text(gs2));
        assert(segs_recs(gs1) + segs_recs(gs2) =~= segs_recs(gs2));
    } else {
        lemma_segs_concat(gs1.drop_first(), gs2);
        assert((gs1 + gs2).drop_first() =~= gs1.drop_first() + gs2);
        assert((gs1 + gs2)[0] == gs1[0]);
        assert(segs_text(gs1 + gs2) == seg_text(gs1[0]) + segs_text(gs1.drop_first() + gs2));
        assert(seg_text(gs1[0]) + (segs_text(gs1.drop_first()) + segs_text(gs2)) =~= (seg_text(
            gs1[0],
        ) + segs_text(gs1.drop_first())) + segs_text(gs2));
        match gs1[0] {
            Seg::Filler(_) => {
                assert(segs_recs(gs1 + gs2) =~= segs_recs(gs1.drop_first() + gs2));
                assert(segs_recs(gs1) =~= segs_recs(gs1.drop_first()));
            },
            Seg::Link(t, d) => {
                assert(seq![link_rec(t, d)] + (segs_recs(gs1.drop_first()) + segs_recs(gs2))
                    =~= (seq![link_rec(t, d)] + segs_recs(gs1.drop_first())) + segs_recs(gs2));
            },
        }
    }
}

/// Concatenation: two lines made only of complete links and bracket-free
/// filler parse, glued together, to the first line's records followed by
/// the second's.
pub proof fn lemma_concatenation(gs1: Seq<Seg>, gs2: Seq<Seg>)
    requires
        segs_ok(gs1),
        segs_ok(gs2),
    ensures
        spec_parse_line(segs_text(gs1) + segs_text(gs2)) == spec_parse_line(segs_text(gs1))
            + spec_parse_line(segs_text(gs2)),
{
    lemma_segs_concat(gs1, gs2);
    assert forall|j: int| 0 <= j < (gs1 + gs2).len() implies seg_ok(#[trigger] (gs1 + gs2)[j]) by {
        if j < gs1.len() {
            assert(seg_ok(gs1[j]));
        } else {
            assert((gs1 + gs2)[j] == gs2[j - gs1.len()]);
            assert(seg_ok(gs2[j - gs1.len()]));
        }
    }
    lemma_segments_parse_exactly(gs1 + gs2);
    lemma_segments_parse_exactly(gs1);
    lemma_segments_parse_exactly(gs2);
}

/// Position `k` of `s` holds character `k - i` of the slice `lt` of `s`
/// that starts at `i`.
proof fn lemma_char_of_subrange(s: Seq<char>, i: int, ll: int, lt: Seq<char>, k: int)
    requires
        0 <= i,
        i + ll <= s.len(),
        lt.len() == ll,
        s.subrange(i, i + ll) == lt,
        i <= k < i + ll,
    ensures
        s[k] == lt[k - i],
{
    assert(s.subrange(i, i + ll)[k - i] == s[k]);
}

} // verus!
