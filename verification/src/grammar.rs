//! Declarative shape of a line made only of well-formed links and
//! bracket-free filler text.
//!
//! Such a line is a concatenation of segments, each either filler without
//! any bracket character or a complete link `[[t]]` / `[[t][d]]` whose
//! fields are bracket-free. The laws module proves that on such a line the
//! scanner returns exactly the link segments' records, in order.

use vstd::prelude::*;

use crate::model::LinkV;

verus! {

/// No character of `s` is a bracket.
pub open spec fn no_brackets(s: Seq<char>) -> bool {
    forall|k: int| 0 <= k < s.len() ==> s[k] != '[' && s[k] != ']'
}

/// The text of one complete link with target `t` and optional description `d`.
pub open spec fn link_text(t: Seq<char>, d: Option<Seq<char>>) -> Seq<char> {
    match d {
        Some(dd) => seq!['[', '['] + t + seq![']', '['] + dd + seq![']', ']'],
        None => seq!['[', '['] + t + seq![']', ']'],
    }
}

/// The record a complete link with target `t` and description `d` denotes.
pub open spec fn link_rec(t: Seq<char>, d: Option<Seq<char>>) -> LinkV {
    LinkV { link: Some(t), description: d }
}

/// One segment of a line: filler text or one complete link.
pub enum Seg {
    Filler(Seq<char>),
    Link(Seq<char>, Option<Seq<char>>),
}

/// A filler segment has no brackets; a link segment has bracket-free fields.
pub open spec fn seg_ok(g: Seg) -> bool {
    match g {
        Seg::Filler(f) => no_brackets(f),
        Seg::Link(t, d) => no_brackets(t) && match d {
            Some(dd) => no_brackets(dd),
            None => true,
        },
    }
}

/// The text of one segment.
pub open spec fn seg_text(g: Seg) -> Seq<char> {
    match g {
        Seg::Filler(f) => f,
        Seg::Link(t, d) => link_text(t, d),
    }
}

/// Every segment of `gs` is well formed.
pub open spec fn segs_ok(gs: Seq<Seg>) -> bool {
    forall|j: int| 0 <= j < gs.len() ==> seg_ok(#[trigger] gs[j])
}

/// The line the segments spell, left to right.
pub open spec fn segs_text(gs: Seq<Seg>) -> Seq<char>
    decreases gs.len(),
{
    if gs.len() == 0 {
        Seq::empty()
    } else {
        seg_text(gs[0]) + segs_text(gs.drop_first())
    }
}

/// The records the link segments denote, in order; filler contributes none.
pub open spec fn segs_recs(gs: Seq<Seg>) -> Seq<LinkV>
    decreases gs.len(),
{
    if gs.len() == 0 {
        Seq::empty()
    } else {
        (match gs[0] {
            Seg::Filler(_) => Seq::<LinkV>::empty(),
            Seg::Link(t, d) => seq![link_rec(t, d)],
        }) + segs_recs(gs.drop_first())
    }
}

/// The segment with every filler character blanked to a space; a link
/// segment is kept as it is.
pub open spec fn blank_seg(g: Seg) -> Seg {
    match g {
        Seg::Filler(f) => Seg::Filler(f.map_values(|c: char| ' ')),
        Seg::Link(t, d) => Seg::Link(t, d),
    }
}

/// The line's segments with every filler character blanked to a space.
pub open spec fn blank_fillers(gs: Seq<Seg>) -> Seq<Seg> {
    gs.map_values(|g: Seg| blank_seg(g))
}

/// The subsequence of link segments of `gs`, fillers removed.
pub open spec fn segs_links(gs: Seq<Seg>) -> Seq<Seg>
    decreases gs.len(),
{
    if gs.len() == 0 {
        Seq::empty()
    } else {
        (match gs[0] {
            Seg::Filler(_) => Seq::<Seg>::empty(),
            Seg::Link(t, d) => seq![gs[0]],
        }) + segs_links(gs.drop_first())
    }
}

} // verus!
