//! What becomes of the parts of a board: which go, which stay, and what a new one looks
//! like.

use crate::listing::{ends, lemma_picked_next, picked_next, picks, stands};
use crate::parts::{
    doomed, footprint_file, footprint_head, footprint_tail, known_refs, layers_for, least_reach,
    most_reach, pad_text, pads_text, shape_for, CreateFootprintParams, PadSpec,
};
use crate::units::plain;
use vstd::prelude::*;

verus! {

/// The footprints that have one of some references.
pub open spec fn is_named(
    list: Seq<(Seq<char>, (int, int))>,
    refs: Seq<Seq<char>>,
) -> spec_fn(int) -> bool {
    |i: int| exists|k: int| 0 <= k < refs.len() && #[trigger] refs[k] == list[i].0
}

/// The footprints that go are all those that have one of the references, and no other.
pub proof fn lemma_named_parts_go(
    list: Seq<(Seq<char>, (int, int))>,
    refs: Seq<Seq<char>>,
) -> (at: Seq<int>)
    ensures
        picks(at, list.len() as int, is_named(list, refs)),
        doomed(list, refs) == at.map_values(|i: int| list[i].1),
    decreases list.len(),
{
    if list.len() == 0 {
        let at = Seq::<int>::empty();
        assert(doomed(list, refs) =~= at.map_values(|i: int| list[i].1));
        at
    } else {
        let front = list.drop_last();
        let at = lemma_named_parts_go(front, refs);
        let n = list.len() - 1;
        let p = is_named(list, refs);
        assert forall|i: int| 0 <= i < n implies #[trigger] p(i) == is_named(front, refs)(i) by {
            assert(front[i] == list[i]);
        }
        lemma_picked_next(at, n, is_named(front, refs), p);
        let more = picked_next(at, n, p);
        assert(p(n) == refs.contains(list.last().0)) by {
            if refs.contains(list.last().0) {
                let k = choose|k: int| 0 <= k < refs.len() && refs[k] == list.last().0;
                assert(refs[k] == list[n].0);
            }
        }
        assert forall|k: int| 0 <= k < at.len() implies front[at[k]] == list[at[k]] by {}
        assert(doomed(list, refs) =~= more.map_values(|i: int| list[i].1));
        more
    }
}

/// The references that a board has, or has not.
pub open spec fn is_known(text: Seq<char>, refs: Seq<Seq<char>>, known: bool) -> spec_fn(int) -> bool {
    |i: int| (crate::spots::located(text, refs[i]) is Some) == known
}

/// References are told apart into those that the board has and those that it has not, each
/// in their order.
pub proof fn lemma_references_are_parted(
    text: Seq<char>,
    refs: Seq<Seq<char>>,
    known: bool,
) -> (at: Seq<int>)
    ensures
        picks(at, refs.len() as int, is_known(text, refs, known)),
        known_refs(text, refs, known) == at.map_values(|i: int| refs[i]),
    decreases refs.len(),
{
    if refs.len() == 0 {
        let at = Seq::<int>::empty();
        assert(known_refs(text, refs, known) =~= at.map_values(|i: int| refs[i]));
        at
    } else {
        let front = refs.drop_last();
        let at = lemma_references_are_parted(text, front, known);
        let n = refs.len() - 1;
        let p = is_known(text, refs, known);
        lemma_picked_next(at, n, is_known(text, front, known), p);
        let more = picked_next(at, n, p);
        assert forall|k: int| 0 <= k < at.len() implies front[at[k]] == refs[at[k]] by {}
        assert(known_refs(text, refs, known) =~= more.map_values(|i: int| refs[i]));
        more
    }
}

/// Where the sides of what pads reach come from.
proof fn lemma_reach_is_a_pad(pads: Seq<PadSpec>) -> (at: (int, int, int, int))
    requires
        pads.len() > 0,
    ensures
        0 <= at.0 < pads.len() && least_reach(pads, true) == pads[at.0].x - crate::parts::half(
            pads[at.0].size_x as int,
        ),
        0 <= at.1 < pads.len() && least_reach(pads, false) == pads[at.1].y - crate::parts::half(
            pads[at.1].size_y as int,
        ),
        0 <= at.2 < pads.len() && most_reach(pads, true) == pads[at.2].x + crate::parts::half(
            pads[at.2].size_x as int,
        ),
        0 <= at.3 < pads.len() && most_reach(pads, false) == pads[at.3].y + crate::parts::half(
            pads[at.3].size_y as int,
        ),
    decreases pads.len(),
{
    let n = pads.len() - 1;
    if n == 0 {
        (0, 0, 0, 0)
    } else {
        let front = pads.drop_last();
        let at = lemma_reach_is_a_pad(front);
        assert(front[at.0] == pads[at.0] && front[at.1] == pads[at.1]);
        assert(front[at.2] == pads[at.2] && front[at.3] == pads[at.3]);
        let p = pads.last();
        (
            if least_reach(front, true) <= p.x - crate::parts::half(p.size_x as int) {
                at.0
            } else {
                n
            },
            if least_reach(front, false) <= p.y - crate::parts::half(p.size_y as int) {
                at.1
            } else {
                n
            },
            if most_reach(front, true) >= p.x + crate::parts::half(p.size_x as int) {
                at.2
            } else {
                n
            },
            if most_reach(front, false) >= p.y + crate::parts::half(p.size_y as int) {
                at.3
            } else {
                n
            },
        )
    }
}

/// The room that is left round the pads of a new footprint.
pub open spec fn room(f: CreateFootprintParams) -> int {
    if f.courtyard_margin is Some {
        f.courtyard_margin->0 as int
    } else {
        250_000
    }
}

/// The rectangle that ends the file of a footprint.
pub open spec fn outline_text(left: int, top: int, right: int, bottom: int) -> Seq<char> {
    "(fp_rect (start "@ + plain(left) + " "@ + plain(top) + ") (end "@ + plain(right) + " "@ + plain(
        bottom,
    ) + ") (layer \"F.CrtYd\") (width 0.05) (fill none))\n)"@
}

/// The outline of a new footprint goes round its pads with the room asked for on each side,
/// and as close as that to some pad; sizes count in whole nanometres to each side.
#[verifier::rlimit(40)]
pub proof fn lemma_outline_goes_round_the_pads(f: CreateFootprintParams) -> (r: (int, int, int, int))
    requires
        footprint_file(f) is Some,
        forall|i: int| 0 <= i < f.pads@.len() ==> (#[trigger] f.pads@[i]).size_x >= 0,
        forall|i: int| 0 <= i < f.pads@.len() ==> (#[trigger] f.pads@[i]).size_y >= 0,
    ensures
        ends(footprint_file(f)->0, outline_text(r.0, r.1, r.2, r.3)),
        forall|i: int|
            0 <= i < f.pads@.len() ==> {
                let p = #[trigger] f.pads@[i];
                &&& r.0 <= p.x - p.size_x as int / 2 - room(f)
                &&& r.1 <= p.y - p.size_y as int / 2 - room(f)
                &&& r.2 >= p.x + p.size_x as int / 2 + room(f)
                &&& r.3 >= p.y + p.size_y as int / 2 + room(f)
            },
        exists|i: int|
            0 <= i < f.pads@.len() && r.0 == (#[trigger] f.pads@[i]).x - f.pads@[i].size_x as int / 2
                - room(f),
        exists|i: int|
            0 <= i < f.pads@.len() && r.1 == (#[trigger] f.pads@[i]).y - f.pads@[i].size_y as int / 2
                - room(f),
        exists|i: int|
            0 <= i < f.pads@.len() && r.2 == (#[trigger] f.pads@[i]).x + f.pads@[i].size_x as int / 2
                + room(f),
        exists|i: int|
            0 <= i < f.pads@.len() && r.3 == (#[trigger] f.pads@[i]).y + f.pads@[i].size_y as int / 2
                + room(f),
{
    let pads = f.pads@;
    let m = room(f);
    let at = lemma_reach_is_a_pad(pads);
    let r = (
        least_reach(pads, true) - m,
        least_reach(pads, false) - m,
        most_reach(pads, true) + m,
        most_reach(pads, false) + m,
    );
    let tail = footprint_tail(r.0, r.1, r.2, r.3);
    assert(tail =~= outline_text(r.0, r.1, r.2, r.3));
    let file = footprint_file(f)->0;
    assert(file.subrange(file.len() - tail.len(), file.len() as int) =~= tail);
    assert forall|i: int| 0 <= i < pads.len() implies {
        let p = #[trigger] pads[i];
        &&& r.0 <= p.x - p.size_x as int / 2 - m
        &&& r.1 <= p.y - p.size_y as int / 2 - m
        &&& r.2 >= p.x + p.size_x as int / 2 + m
        &&& r.3 >= p.y + p.size_y as int / 2 + m
    } by {
        crate::parts::lemma_pads_within_reach(pads, i);
    }
    assert(r.0 == pads[at.0].x - pads[at.0].size_x as int / 2 - m);
    assert(r.1 == pads[at.1].y - pads[at.1].size_y as int / 2 - m);
    assert(r.2 == pads[at.2].x + pads[at.2].size_x as int / 2 + m);
    assert(r.3 == pads[at.3].y + pads[at.3].size_y as int / 2 + m);
    r
}

pub open spec fn written_pad() -> spec_fn(PadSpec) -> Seq<char> {
    |p: PadSpec| pad_text(p)
}

/// A new footprint lists all of its pads, in their order.
pub proof fn lemma_footprint_lists_its_pads(pads: Seq<PadSpec>)
    ensures
        pads_text(pads) == pads.map_values(written_pad()).flatten_alt(),
    decreases pads.len(),
{
    let shown = pads.map_values(written_pad());
    if pads.len() == 0 {
        assert(shown.flatten_alt() =~= Seq::<char>::empty());
    } else {
        lemma_footprint_lists_its_pads(pads.drop_last());
        assert(shown.drop_last() =~= pads.drop_last().map_values(written_pad()));
    }
}

/// What a pad of a new footprint says: its number and kind, where it is and how large, the
/// hole if it has one, and its layers: those of the front if it lies on the surface, else
/// all copper layers.
#[verifier::rlimit(40)]
pub proof fn lemma_new_pad_is_what_is_asked_for(p: PadSpec)
    ensures
        stands(pad_text(p), 0, "  (pad \""@ + p.number@ + "\" "@ + p.pad_type@ + " "@),
        ({
            let place = " (at "@ + plain(p.x as int) + " "@ + plain(p.y as int) + ") (size "@ + plain(
                p.size_x as int,
            ) + " "@ + plain(p.size_y as int) + ")"@;
            let layers = if p.pad_type@ == "smd"@ {
                " (layers \"F.Cu\" \"F.Paste\" \"F.Mask\"))\n"@
            } else {
                " (layers \"*.Cu\" \"*.Mask\"))\n"@
            };
            let hole = match p.drill {
                Some(d) => " (drill "@ + plain(d as int) + ")"@,
                None => Seq::empty(),
            };
            ends(pad_text(p), place + hole + layers)
        }),
        p.number@ == "1"@ ==> shape_for(p.number@, p.shape@) == "rect"@,
        p.number@ != "1"@ && (p.shape@ == "rect"@ || p.shape@ == "oval"@ || p.shape@ == "circle"@)
            ==> shape_for(p.number@, p.shape@) == p.shape@,
{
    reveal_strlit(" (layers \"F.Cu\" \"F.Paste\" \"F.Mask\"))\n");
    reveal_strlit(" (layers \"*.Cu\" \"*.Mask\"))\n");
    reveal_strlit("(layers \"F.Cu\" \"F.Paste\" \"F.Mask\")");
    reveal_strlit("(layers \"*.Cu\" \"*.Mask\")");
    reveal_strlit(" ");
    reveal_strlit(")\n");
    reveal_strlit("rect");
    reveal_strlit("oval");
    reveal_strlit("circle");
    let shape = shape_for(p.number@, p.shape@);
    let head = "  (pad \""@ + p.number@ + "\" "@ + p.pad_type@ + " "@;
    let place = " (at "@ + plain(p.x as int) + " "@ + plain(p.y as int) + ") (size "@ + plain(
        p.size_x as int,
    ) + " "@ + plain(p.size_y as int) + ")"@;
    let layers = if p.pad_type@ == "smd"@ {
        " (layers \"F.Cu\" \"F.Paste\" \"F.Mask\"))\n"@
    } else {
        " (layers \"*.Cu\" \"*.Mask\"))\n"@
    };
    let hole = crate::parts::drill_text(p.drill);
    assert(layers =~= " "@ + layers_for(p.pad_type@) + ")\n"@);
    let tail = place + hole + layers;
    let text = pad_text(p);
    lemma_pad_text_parts(p);
    assert(text == head + shape + tail);
    assert(text.subrange(0, head.len() as int) =~= head);
    assert(text.subrange(text.len() - tail.len(), text.len() as int) =~= tail);
    assert("rect"@.len() == 4 && "circle"@.len() == 6);
    assert("rect"@[0] == 'r' && "oval"@[0] == 'o');
}

#[verifier::rlimit(40)]
proof fn lemma_pad_text_parts(p: PadSpec)
    ensures
        pad_text(p) == "  (pad \""@ + p.number@ + "\" "@ + p.pad_type@ + " "@ + shape_for(
            p.number@,
            p.shape@,
        ) + (" (at "@ + plain(p.x as int) + " "@ + plain(p.y as int) + ") (size "@ + plain(
            p.size_x as int,
        ) + " "@ + plain(p.size_y as int) + ")"@ + crate::parts::drill_text(p.drill) + (" "@
            + layers_for(p.pad_type@) + ")\n"@)),
{
    let a = "  (pad \""@ + p.number@ + "\" "@ + p.pad_type@ + " "@ + shape_for(p.number@, p.shape@);
    let b = " (at "@ + plain(p.x as int);
    let c = " "@ + plain(p.y as int);
    let d = ") (size "@ + plain(p.size_x as int);
    let e = " "@ + plain(p.size_y as int) + ")"@;
    let g = crate::parts::drill_text(p.drill);
    let h = " "@ + layers_for(p.pad_type@) + ")\n"@;
    assert(pad_text(p) =~= a + b + c + d + e + g + h);
    assert(" (at "@ + plain(p.x as int) + " "@ + plain(p.y as int) + ") (size "@ + plain(
        p.size_x as int,
    ) + " "@ + plain(p.size_y as int) + ")"@ =~= b + c + d + e);
    assert(a + b + c + d + e + g + h =~= a + (b + c + d + e + g + h));
}

/// A new footprint is for the surface if any of its pads is, and says so.
#[verifier::rlimit(40)]
pub proof fn lemma_footprint_tells_its_kind(f: CreateFootprintParams)
    requires
        footprint_file(f) is Some,
    ensures
        ({
            let descr = match f.description {
                Some(d) => d@,
                None => ""@,
            };
            let tags = match f.tags {
                Some(t) => t@,
                None => ""@,
            };
            let kind = if exists|i: int|
                0 <= i < f.pads@.len() && (#[trigger] f.pads@[i]).pad_type@ == "smd"@ {
                "smd"@
            } else {
                "through_hole"@
            };
            stands(
                footprint_file(f)->0,
                0,
                "(footprint \""@ + f.name@
                    + "\" (version 20211014) (generator pcbnew)\n(layer \"F.Cu\")\n(descr \""@ + descr
                    + "\")\n(tags \""@ + tags + "\")\n(attr "@ + kind + ")\n"@,
            )
        }),
{
    let descr = crate::parts::string_or_empty(f.description);
    let tags = crate::parts::string_or_empty(f.tags);
    let kind = if crate::parts::any_surface(f.pads@) {
        "smd"@
    } else {
        "through_hole"@
    };
    reveal_strlit(")\n");
    reveal_strlit(")\n(fp_text reference \"REF**\" (at 0 ");
    let m = room(f);
    let start = "(footprint \""@ + f.name@
        + "\" (version 20211014) (generator pcbnew)\n(layer \"F.Cu\")\n(descr \""@ + descr
        + "\")\n(tags \""@ + tags + "\")\n(attr "@ + kind;
    let head = start + ")\n"@;
    let above = least_reach(f.pads@, false) - m - m - 1_500_000;
    let below = most_reach(f.pads@, false) + m + m + 1_500_000;
    let whole = footprint_head(f.name@, descr, tags, kind, above, below);
    lemma_head_start(f.name@, descr, tags, kind, above, below, head);
    let file = footprint_file(f)->0;
    assert(file.subrange(0, head.len() as int) =~= whole.subrange(0, head.len() as int));
}

#[verifier::rlimit(40)]
proof fn lemma_head_start(
    name: Seq<char>,
    descr: Seq<char>,
    tags: Seq<char>,
    kind: Seq<char>,
    above: int,
    below: int,
    head: Seq<char>,
)
    requires
        head == "(footprint \""@ + name
            + "\" (version 20211014) (generator pcbnew)\n(layer \"F.Cu\")\n(descr \""@ + descr
            + "\")\n(tags \""@ + tags + "\")\n(attr "@ + kind + ")\n"@,
    ensures
        stands(footprint_head(name, descr, tags, kind, above, below), 0, head),
{
    reveal_strlit(")\n");
    reveal_strlit(")\n(fp_text reference \"REF**\" (at 0 ");
    let start = "(footprint \""@ + name
        + "\" (version 20211014) (generator pcbnew)\n(layer \"F.Cu\")\n(descr \""@ + descr
        + "\")\n(tags \""@ + tags + "\")\n(attr "@ + kind;
    let a = start + ")\n(fp_text reference \"REF**\" (at 0 "@;
    assert(a.subrange(0, head.len() as int) =~= head);
    let rest = plain(above)
        + ") (layer \"F.SilkS\")\n(effects (font (size 1 1) (thickness 0.15)))\n)\n(fp_text value \""@
        + name + "\" (at 0 "@ + plain(below)
        + ") (layer \"F.Fab\")\n(effects (font (size 1 1) (thickness 0.15)))\n)\n"@;
    let whole = footprint_head(name, descr, tags, kind, above, below);
    assert(whole =~= a + rest);
    assert((a + rest).subrange(0, head.len() as int) =~= a.subrange(0, head.len() as int));
}

} // verus!
