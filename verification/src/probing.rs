//! What the continuity test is for: every pad that a net connects is probed, where it is
//! on the board, and every net is walked through once.

use crate::pcb::{BoundingBox, Footprint, Pad};
use crate::probe::{
    board_entries, entry_nets, net_uses, part_entries, EntryModel,
};
use crate::text::matches_at;
use vstd::prelude::*;

verus! {

/// Whether a pad is to be probed: it has a net with a name, and is not the only one on a
/// net that is called unconnected.
pub open spec fn is_connected(p: Pad, parts: Seq<Footprint>) -> bool {
    &&& p.net_name is Some
    &&& p.net_name->0@.len() > 0
    &&& !matches_at(p.net_name->0@, "unconnected"@, 0) || net_uses(parts, p.net_name->0@) > 1
}

/// Whether an entry is that of a pad: of its part, with its number and its net, and as far
/// from the left and from the top of the board as the pad is.
pub open spec fn is_entry(e: EntryModel, p: Pad, part: Footprint, b: BoundingBox) -> bool {
    &&& e.reference == part.reference@
    &&& e.number == p.number@
    &&& p.net_name is Some
    &&& e.net == p.net_name->0@
    &&& b.min_x + e.x == p.center.x
    &&& b.max_y - e.y == p.center.y
    &&& e.radius == if p.drill > 1_600_000 {
        p.drill as int / 2
    } else {
        800_000
    }
}

proof fn lemma_part(part: Footprint, pads: Seq<Pad>, all: Seq<Footprint>, b: BoundingBox, e: EntryModel)
    ensures
        part_entries(pads, part.reference@, all, b).contains(e) == exists|k: int|
            0 <= k < pads.len() && is_connected(#[trigger] pads[k], all) && is_entry(
                e,
                pads[k],
                part,
                b,
            ),
    decreases pads.len(),
{
    if pads.len() > 0 {
        let front = pads.drop_last();
        let last = pads[pads.len() - 1];
        lemma_part(part, front, all, b, e);
        let before = part_entries(front, part.reference@, all, b);
        let now = part_entries(pads, part.reference@, all, b);
        if now.contains(e) {
            let j = choose|j: int| 0 <= j < now.len() && now[j] == e;
            if j < before.len() {
                assert(before[j] == e);
                let k = choose|k: int|
                    0 <= k < front.len() && is_connected(#[trigger] front[k], all) && is_entry(
                        e,
                        front[k],
                        part,
                        b,
                    );
                assert(pads[k] == front[k]);
            } else {
                assert(is_connected(pads[pads.len() - 1], all));
            }
        }
        if exists|k: int|
            0 <= k < pads.len() && is_connected(#[trigger] pads[k], all) && is_entry(
                e,
                pads[k],
                part,
                b,
            ) {
            let k = choose|k: int|
                0 <= k < pads.len() && is_connected(#[trigger] pads[k], all) && is_entry(
                    e,
                    pads[k],
                    part,
                    b,
                );
            if k < front.len() {
                assert(front[k] == pads[k]);
                assert(before.contains(e));
                let j = choose|j: int| 0 <= j < before.len() && before[j] == e;
                assert(now[j] == e);
            } else {
                assert(now[now.len() - 1] =~= e);
            }
        }
    }
}

/// The pads that are probed are those of the parts that a net connects, all of them and
/// no others.
pub proof fn lemma_connected_pads_are_probed(
    parts: Seq<Footprint>,
    all: Seq<Footprint>,
    b: BoundingBox,
    e: EntryModel,
)
    ensures
        board_entries(parts, all, b).contains(e) == exists|i: int, k: int|
            0 <= i < parts.len() && 0 <= k < (#[trigger] parts[i]).pads@.len() && is_connected(
                parts[i].pads@[k],
                all,
            ) && #[trigger] is_entry(e, parts[i].pads@[k], parts[i], b),
    decreases parts.len(),
{
    if parts.len() > 0 {
        let front = parts.drop_last();
        let last = parts[parts.len() - 1];
        lemma_connected_pads_are_probed(front, all, b, e);
        lemma_part(last, last.pads@, all, b, e);
        let before = board_entries(front, all, b);
        let here = part_entries(last.pads@, last.reference@, all, b);
        let now = board_entries(parts, all, b);
        if now.contains(e) {
            let j = choose|j: int| 0 <= j < now.len() && now[j] == e;
            if j < before.len() {
                assert(before[j] == e);
                let (i, k) = choose|i: int, k: int|
                    0 <= i < front.len() && 0 <= k < (#[trigger] front[i]).pads@.len()
                        && is_connected(front[i].pads@[k], all) && #[trigger] is_entry(
                        e,
                        front[i].pads@[k],
                        front[i],
                        b,
                    );
                assert(parts[i] == front[i]);
                assert(is_entry(e, parts[i].pads@[k], parts[i], b));
            } else {
                assert(here[j - before.len()] == e);
                assert(here.contains(e));
                let k = choose|k: int|
                    0 <= k < last.pads@.len() && is_connected(#[trigger] last.pads@[k], all)
                        && is_entry(e, last.pads@[k], last, b);
                assert(is_entry(e, parts[parts.len() - 1].pads@[k], parts[parts.len() - 1], b));
            }
        }
        if exists|i: int, k: int|
            0 <= i < parts.len() && 0 <= k < (#[trigger] parts[i]).pads@.len() && is_connected(
                parts[i].pads@[k],
                all,
            ) && #[trigger] is_entry(e, parts[i].pads@[k], parts[i], b) {
            let (i, k) = choose|i: int, k: int|
                0 <= i < parts.len() && 0 <= k < (#[trigger] parts[i]).pads@.len() && is_connected(
                    parts[i].pads@[k],
                    all,
                ) && #[trigger] is_entry(e, parts[i].pads@[k], parts[i], b);
            if i < front.len() {
                assert(front[i] == parts[i]);
                assert(is_entry(e, front[i].pads@[k], front[i], b));
                assert(before.contains(e));
                let j = choose|j: int| 0 <= j < before.len() && before[j] == e;
                assert(now[j] == e);
            } else {
                assert(is_connected(last.pads@[k], all));
                assert(here.contains(e));
                let j = choose|j: int| 0 <= j < here.len() && here[j] == e;
                assert(now[before.len() + j] == e);
            }
        }
    }
}

/// The nets that are walked through are those of the pads, each of them once.
pub proof fn lemma_every_net_is_walked_once(list: Seq<EntryModel>, net: Seq<char>)
    ensures
        entry_nets(list).contains(net) == exists|i: int|
            0 <= i < list.len() && (#[trigger] list[i]).net == net,
        forall|i: int, j: int|
            0 <= i < j < entry_nets(list).len() ==> #[trigger] entry_nets(list)[i]
                != #[trigger] entry_nets(list)[j],
    decreases list.len(),
{
    if list.len() > 0 {
        let front = list.drop_last();
        lemma_every_net_is_walked_once(front, net);
        lemma_every_net_is_walked_once(front, list.last().net);
        let before = entry_nets(front);
        let now = entry_nets(list);
        if now.contains(net) {
            let j = choose|j: int| 0 <= j < now.len() && now[j] == net;
            if j < before.len() {
                assert(before[j] == net);
                let i = choose|i: int| 0 <= i < front.len() && (#[trigger] front[i]).net == net;
                assert(list[i] == front[i]);
            } else {
                assert(list[list.len() - 1].net == net);
            }
        }
        if exists|i: int| 0 <= i < list.len() && (#[trigger] list[i]).net == net {
            let i = choose|i: int| 0 <= i < list.len() && (#[trigger] list[i]).net == net;
            if i < front.len() {
                assert(front[i].net == net);
                let j = choose|j: int| 0 <= j < before.len() && before[j] == net;
                assert(now[j] == net);
            } else if !before.contains(net) {
                assert(now[now.len() - 1] == net);
            }
        }
        assert forall|i: int, j: int| 0 <= i < j < now.len() implies #[trigger] now[i]
            != #[trigger] now[j] by {
            if j < before.len() {
                assert(before[i] != before[j]);
            } else {
                assert(before[i] == now[i]);
                assert(before.contains(before[i]));
            }
        }
    }
}

} // verus!
