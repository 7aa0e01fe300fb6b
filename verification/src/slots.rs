//! Which areas a stencil is made of.
//!
//! Slots are cut over what gets copper. With a plating bus, stubs lead from each piece
//! of copper to the rail, and ties hold what the rail would cut off; the pieces are
//! known only once the areas before are drawn, so the plan goes on in turns.

use crate::areas::{merged, Figure, Plan, Purpose};
use crate::choices::StencilMount;
use crate::config::Config;
use crate::layout::{drilled, draw_lands, draw_strokes, lands, lay_drilled, strokes, traces_of, Cover};
use crate::pcb::{BoundingBox, CopperLayer, PcbData, Point2};
use crate::stencil::{Bus, Stencil};
use vstd::prelude::*;

verus! {

/// What gets copper on a layer: slots over the traces, and over the pads if recesses
/// for them are asked for.
pub open spec fn grooves(pcb: PcbData, c: Config, layer: CopperLayer, s: Stencil, of: Cover) -> Set<
    (int, int),
> {
    let along = merged(strokes(traces_of(pcb, layer), s.slot_width as int), of);
    if c.generate_pad_lands {
        along.union(merged(lands(pcb.pads@, s.land_margin as int, layer), of))
    } else {
        along
    }
}

/// Rectangles as figures.
pub open spec fn frames(list: Seq<BoundingBox>) -> Seq<Figure> {
    list.map_values(|b: BoundingBox| Figure::Frame(b))
}

fn draw_frames(list: &Vec<BoundingBox>) -> (out: Vec<Figure>)
    ensures
        out@ == frames(list@),
{
    let mut out: Vec<Figure> = Vec::new();
    let mut i: usize = 0;
    while i < list.len()
        invariant
            i <= list@.len(),
            out@ == frames(list@.take(i as int)),
        decreases list@.len() - i,
    {
        out.push(Figure::Frame(list[i]));
        i += 1;
        proof {
            assert(out@ =~= frames(list@.take(i as int)));
        }
    }
    proof {
        assert(list@.take(list@.len() as int) =~= list@);
    }
    out
}

/// The stubs of a bus as figures.
pub open spec fn stub_strokes(stubs: Seq<((i64, i64), (i64, i64))>, width: int) -> Seq<Figure> {
    stubs.map_values(
        |s: ((i64, i64), (i64, i64))|
            Figure::Stroke {
                start: Point2 { x: s.0.0, y: s.0.1 },
                end: Point2 { x: s.1.0, y: s.1.1 },
                width: width as i128,
            },
    )
}

fn draw_stubs(stubs: &Vec<((i64, i64), (i64, i64))>, width: i64) -> (out: Vec<Figure>)
    ensures
        out@ == stub_strokes(stubs@, width as int),
{
    let mut out: Vec<Figure> = Vec::new();
    let mut i: usize = 0;
    while i < stubs.len()
        invariant
            i <= stubs@.len(),
            out@ == stub_strokes(stubs@.take(i as int), width as int),
        decreases stubs@.len() - i,
    {
        let (p, q) = stubs[i];
        let figure = Figure::Stroke {
            start: Point2 { x: p.0, y: p.1 },
            end: Point2 { x: q.0, y: q.1 },
            width: width as i128,
        };
        out.push(figure);
        i += 1;
        proof {
            assert(out@ =~= stub_strokes(stubs@.take(i as int), width as int));
        }
    }
    proof {
        assert(stubs@.take(stubs@.len() as int) =~= stubs@);
    }
    out
}

/// The rail of a bus: a ring, or a bar if there is no room for one; as far as it lies
/// on the board.
pub open spec fn rail(bus: Bus, of: Cover) -> Set<(int, int)> {
    let whole = match bus.inner {
        Some(b) => of(Figure::Frame(bus.outer)).difference(of(Figure::Frame(b))),
        None => of(Figure::Frame(bus.outer)),
    };
    whole.intersect(of(Figure::Board))
}

/// The slots of a stencil before its loose pieces are tied: what gets copper, what is
/// drilled, and the bus with its stubs; within the opening, and not where the first
/// ties are.
pub open spec fn first_slots(
    open: Set<(int, int)>,
    s: Stencil,
    stubs: Seq<((i64, i64), (i64, i64))>,
    width: int,
    of: Cover,
) -> Set<(int, int)> {
    match s.bus {
        None => open.intersect(of(Figure::Frame(s.opening))),
        Some(bus) => open.union(rail(bus, of).union(merged(stub_strokes(stubs, width), of))).intersect(
            of(Figure::Frame(s.opening)),
        ).difference(merged(frames(bus.ties@), of)),
    }
}

/// A stencil in the making, by the places of its areas in a plan.
#[derive(Debug)]
pub struct StencilPlan {
    pub plan: Plan,
    pub board: usize,
    pub plate: usize,
    pub opening: usize,
    /// What gets copper.
    pub grooves: usize,
    /// What is to be open so far.
    pub slots: usize,
}

impl StencilPlan {
    /// Whether the areas are there, and the board, the plate and the opening are what
    /// the layout of the stencil says.
    pub open spec fn well_formed(self, s: Stencil) -> bool {
        &&& self.plan.well_formed()
        &&& self.board < self.plan.steps@.len()
        &&& self.plate < self.plan.steps@.len()
        &&& self.opening < self.plan.steps@.len()
        &&& self.grooves < self.plan.steps@.len()
        &&& self.slots < self.plan.steps@.len()
        &&& forall|of: Cover| #[trigger] self.plan.area(self.board, of) == of(Figure::Board)
        &&& forall|of: Cover|
            #[trigger] self.plan.area(self.plate, of) == of(Figure::Frame(s.plate))
        &&& forall|of: Cover|
            #[trigger] self.plan.area(self.opening, of) == of(Figure::Frame(s.opening))
    }
}

/// Begins the plan of a stencil: what gets copper, and with it what is drilled.
pub fn begin_stencil(pcb: &PcbData, c: &Config, layer: CopperLayer, s: &Stencil) -> (out: StencilPlan)
    ensures
        out.well_formed(*s),
        forall|of: Cover|
            #[trigger] out.plan.area(out.grooves, of) == grooves(*pcb, *c, layer, *s, of),
        forall|of: Cover|
            #[trigger] out.plan.area(out.slots, of) == grooves(*pcb, *c, layer, *s, of).union(
                drilled(*pcb, *c, of),
            ),
{
    let mut plan = Plan::new();
    let board = plan.single(Figure::Board);
    let ghost p0 = plan;
    let plate = plan.single(Figure::Frame(s.plate));
    let ghost p1 = plan;
    let opening = plan.single(Figure::Frame(s.opening));
    let ghost p2 = plan;
    let along = match layer {
        CopperLayer::FCu => draw_strokes(&pcb.traces_fcu, s.slot_width),
        CopperLayer::BCu => draw_strokes(&pcb.traces_bcu, s.slot_width),
    };
    let mut cut = plan.merge(along);
    let ghost p3 = plan;
    if c.generate_pad_lands {
        let pads = plan.merge(draw_lands(&pcb.pads, s.land_margin, layer));
        cut = plan.union(cut, pads, Purpose::TracesAndLands);
    }
    let ghost p4 = plan;
    let drills = lay_drilled(&mut plan, pcb, c, Purpose::StencilHoles);
    let ghost p5 = plan;
    let slots = plan.union(cut, drills, Purpose::SlotsAndHoles);
    let out = StencilPlan { plan, board, plate, opening, grooves: cut, slots };
    proof {
        assert(p4.goes_on(p2));
        assert forall|of: Cover| #[trigger] out.plan.area(out.board, of) == of(Figure::Board) by {
            assert(p5.area(board, of) == p4.area(board, of));
            assert(p4.area(board, of) == p2.area(board, of));
            assert(p2.area(board, of) == p1.area(board, of));
            assert(p1.area(board, of) == p0.area(board, of));
        }
        assert forall|of: Cover|
            #[trigger] out.plan.area(out.plate, of) == of(Figure::Frame(s.plate)) by {
            assert(p5.area(plate, of) == p4.area(plate, of));
            assert(p4.area(plate, of) == p2.area(plate, of));
            assert(p2.area(plate, of) == p1.area(plate, of));
        }
        assert forall|of: Cover|
            #[trigger] out.plan.area(out.opening, of) == of(Figure::Frame(s.opening)) by {
            assert(p5.area(opening, of) == p4.area(opening, of));
            assert(p4.area(opening, of) == p2.area(opening, of));
        }
        assert forall|of: Cover|
            #[trigger] out.plan.area(out.grooves, of) == grooves(*pcb, *c, layer, *s, of) by {
            assert(p5.area(cut, of) == p4.area(cut, of));
        }
        assert forall|of: Cover|
            #[trigger] out.plan.area(out.slots, of) == grooves(*pcb, *c, layer, *s, of).union(
                drilled(*pcb, *c, of),
            ) by {
            assert(p5.area(cut, of) == p4.area(cut, of));
        }
    }
    out
}

fn lay_rail(p: &mut StencilPlan, s: &Stencil, bus: &Bus) -> (at: usize)
    requires
        old(p).well_formed(*s),
    ensures
        final(p).well_formed(*s),
        final(p).plan.goes_on(old(p).plan),
        final(p).board == old(p).board,
        final(p).plate == old(p).plate,
        final(p).opening == old(p).opening,
        final(p).grooves == old(p).grooves,
        final(p).slots == old(p).slots,
        at < final(p).plan.steps@.len(),
        forall|of: Cover| #[trigger] final(p).plan.area(at, of) == rail(*bus, of),
{
    let ghost p0 = p.plan;
    let outer = p.plan.single(Figure::Frame(bus.outer));
    let ghost p1 = p.plan;
    let at = match bus.inner {
        Some(b) => {
            let inner = p.plan.single(Figure::Frame(b));
            let ghost p2 = p.plan;
            let ring = p.plan.difference(outer, inner, Purpose::RailRing);
            let ghost p3 = p.plan;
            proof {
                assert forall|of: Cover| #[trigger] p3.area(p.board, of) == of(Figure::Board) by {
                    assert(p2.area(p.board, of) == p1.area(p.board, of));
                    assert(p1.area(p.board, of) == p0.area(p.board, of));
                }
                assert forall|of: Cover| #[trigger] p3.area(ring, of) == of(
                    Figure::Frame(bus.outer),
                ).difference(of(Figure::Frame(b))) by {
                    assert(p2.area(outer, of) == p1.area(outer, of));
                }
            }
            p.plan.intersection(ring, p.board, Purpose::RingOnBoard)
        },
        None => {
            proof {
                assert forall|of: Cover| #[trigger] p1.area(p.board, of) == of(Figure::Board) by {
                    assert(p1.area(p.board, of) == p0.area(p.board, of));
                }
            }
            p.plan.intersection(outer, p.board, Purpose::BarOnBoard)
        },
    };
    proof {
        assert(p.plan.goes_on(p0));
        lemma_still_formed(*old(p), *p, *s);
    }
    at
}

proof fn lemma_still_formed(before: StencilPlan, after: StencilPlan, s: Stencil)
    requires
        before.well_formed(s),
        after.plan.goes_on(before.plan),
        after.plan.well_formed(),
        after.board == before.board,
        after.plate == before.plate,
        after.opening == before.opening,
        after.grooves < after.plan.steps@.len(),
        after.slots < after.plan.steps@.len(),
    ensures
        after.well_formed(s),
{
    assert forall|of: Cover| #[trigger] after.plan.area(after.board, of) == of(Figure::Board) by {
        assert(after.plan.area(before.board, of) == before.plan.area(before.board, of));
    }
    assert forall|of: Cover|
        #[trigger] after.plan.area(after.plate, of) == of(Figure::Frame(s.plate)) by {
        assert(after.plan.area(before.plate, of) == before.plan.area(before.plate, of));
    }
    assert forall|of: Cover|
        #[trigger] after.plan.area(after.opening, of) == of(Figure::Frame(s.opening)) by {
        assert(after.plan.area(before.opening, of) == before.plan.area(before.opening, of));
    }
}

/// Goes on with the plan of a stencil: adds the bus with its stubs, keeps what lies in
/// the opening, and leaves the first ties. With a bus it also gives what is left of the
/// plate, which may have loose pieces.
pub fn lay_slots(p: &mut StencilPlan, s: &Stencil, stubs: &Vec<((i64, i64), (i64, i64))>, width: i64) -> (
left: Option<usize>)
    requires
        old(p).well_formed(*s),
    ensures
        final(p).well_formed(*s),
        final(p).plan.goes_on(old(p).plan),
        final(p).grooves == old(p).grooves,
        forall|of: Cover|
            #[trigger] final(p).plan.area(final(p).slots, of) == first_slots(
                old(p).plan.area(old(p).slots, of),
                *s,
                stubs@,
                width as int,
                of,
            ),
        left is Some == s.bus is Some,
        left matches Some(at) ==> at < final(p).plan.steps@.len() && forall|of: Cover|
            #[trigger] final(p).plan.area(at, of) == of(Figure::Frame(s.plate)).difference(
                final(p).plan.area(final(p).slots, of),
            ),
{
    let ghost start = *p;
    match &s.bus {
        None => {
            let at = p.plan.intersection(p.slots, p.opening, Purpose::SlotsClip);
            p.slots = at;
            proof {
                lemma_still_formed(start, *p, *s);
            }
            None
        },
        Some(bus) => {
            let line = lay_rail(p, s, bus);
            let ghost p1 = *p;
            let ends = p.plan.merge(draw_stubs(stubs, width));
            let ghost p2 = p.plan;
            let whole = p.plan.union(line, ends, Purpose::RailAndStubs);
            let ghost p3 = p.plan;
            let with_bus = p.plan.union(p.slots, whole, Purpose::SlotsAndBus);
            let ghost p4 = p.plan;
            let clipped = p.plan.intersection(with_bus, p.opening, Purpose::SlotsClip);
            let ghost p5 = p.plan;
            let ties = p.plan.merge(draw_frames(&bus.ties));
            let ghost p6 = p.plan;
            let slots = p.plan.difference(clipped, ties, Purpose::SlotsLessTies);
            let ghost p7 = p.plan;
            p.slots = slots;
            let at = p.plan.difference(p.plate, slots, Purpose::LooseBodies);
            let ghost p8 = p.plan;
            proof {
                assert(p8.goes_on(p1.plan));
                assert(p8.goes_on(start.plan));
                lemma_still_formed(start, *p, *s);
                assert forall|of: Cover|
                    #[trigger] p.plan.area(p.slots, of) == first_slots(
                        start.plan.area(start.slots, of),
                        *s,
                        stubs@,
                        width as int,
                        of,
                    ) by {
                    assert(p8.area(slots, of) == p7.area(slots, of));
                    assert(p6.area(clipped, of) == p5.area(clipped, of));
                    assert(p4.area(p.opening, of) == p3.area(p.opening, of));
                    assert(p3.area(p.opening, of) == p2.area(p.opening, of));
                    assert(p2.area(p.opening, of) == p1.plan.area(p.opening, of));
                    assert(p3.area(start.slots, of) == p2.area(start.slots, of));
                    assert(p2.area(start.slots, of) == p1.plan.area(start.slots, of));
                    assert(p1.plan.area(start.slots, of) == start.plan.area(start.slots, of));
                    assert(p2.area(line, of) == p1.plan.area(line, of));
                }
                assert forall|of: Cover|
                    #[trigger] p.plan.area(at, of) == of(Figure::Frame(s.plate)).difference(
                        p.plan.area(p.slots, of),
                    ) by {
                    assert(p8.area(slots, of) == p7.area(slots, of));
                    assert(p8.area(p.plate, of) == p7.area(p.plate, of));
                    assert(p.plan.area(p.plate, of) == of(Figure::Frame(s.plate)));
                }
            }
            Some(at)
        },
    }
}

/// The areas that a stencil is made of, by their places in its plan.
#[derive(Clone, Copy, Debug)]
pub struct StencilAreas {
    /// What is open.
    pub slots: usize,
    /// What is left of the plate.
    pub face: usize,
    /// With a lip: what is left of the plate inside it, and its rim.
    pub lip: Option<(usize, usize)>,
}

/// Ends the plan of a stencil: leaves more ties, and gives the areas that it is made of
/// for the way in which it is held.
pub fn finish_stencil(
    p: &mut StencilPlan,
    s: &Stencil,
    ties: &Vec<BoundingBox>,
    mount: StencilMount,
) -> (out: StencilAreas)
    requires
        old(p).well_formed(*s),
    ensures
        final(p).well_formed(*s),
        final(p).plan.goes_on(old(p).plan),
        out.slots < final(p).plan.steps@.len(),
        out.face < final(p).plan.steps@.len(),
        forall|of: Cover|
            #[trigger] final(p).plan.area(out.slots, of) == old(p).plan.area(
                old(p).slots,
                of,
            ).difference(merged(frames(ties@), of)),
        forall|of: Cover|
            #[trigger] final(p).plan.area(out.face, of) == of(Figure::Frame(s.plate)).difference(
                final(p).plan.area(out.slots, of),
            ),
        out.lip is Some == (mount == StencilMount::Lip),
        out.lip matches Some((under, rim)) ==> {
            &&& under < final(p).plan.steps@.len()
            &&& rim < final(p).plan.steps@.len()
            &&& forall|of: Cover|
                #[trigger] final(p).plan.area(under, of) == of(
                    Figure::Frame(s.opening),
                ).difference(final(p).plan.area(out.slots, of))
            &&& forall|of: Cover|
                #[trigger] final(p).plan.area(rim, of) == of(Figure::Frame(s.plate)).difference(
                    of(Figure::Frame(s.opening)),
                )
        },
{
    let ghost start = *p;
    let slots = if ties.len() > 0 {
        let more = p.plan.merge(draw_frames(ties));
        let ghost p1 = p.plan;
        let at = p.plan.difference(p.slots, more, Purpose::SlotsLessMoreTies);
        proof {
            assert(p.plan.goes_on(start.plan));
            assert forall|of: Cover|
                #[trigger] p.plan.area(at, of) == start.plan.area(start.slots, of).difference(
                    merged(frames(ties@), of),
                ) by {
                assert(p1.area(start.slots, of) == start.plan.area(start.slots, of));
            }
        }
        at
    } else {
        proof {
            assert forall|of: Cover|
                #[trigger] p.plan.area(p.slots, of) == start.plan.area(start.slots, of).difference(
                    merged(frames(ties@), of),
                ) by {
                assert(merged(frames(ties@), of) =~= Set::<(int, int)>::empty());
                assert(start.plan.area(start.slots, of).difference(merged(frames(ties@), of))
                    =~= start.plan.area(start.slots, of));
            }
        }
        p.slots
    };
    proof {
        lemma_still_formed(start, *p, *s);
    }
    let ghost q0 = *p;
    let face = p.plan.difference(p.plate, slots, Purpose::PlateFace(mount));
    let ghost q1 = p.plan;
    let lip = match mount {
        StencilMount::Lip => {
            let under = p.plan.difference(p.opening, slots, Purpose::LipUnderside);
            let ghost q2 = p.plan;
            let rim = p.plan.difference(p.plate, p.opening, Purpose::LipRim);
            let ghost q3 = p.plan;
            proof {
                assert forall|of: Cover|
                    #[trigger] q3.area(under, of) == of(Figure::Frame(s.opening)).difference(
                        q3.area(slots, of),
                    ) by {
                    assert(q3.area(under, of) == q2.area(under, of));
                    assert(q3.area(slots, of) == q2.area(slots, of));
                    assert(q2.area(slots, of) == q1.area(slots, of));
                    assert(q1.area(p.opening, of) == q0.plan.area(p.opening, of));
                }
                assert forall|of: Cover|
                    #[trigger] q3.area(rim, of) == of(Figure::Frame(s.plate)).difference(
                        of(Figure::Frame(s.opening)),
                    ) by {
                    assert(q2.area(p.opening, of) == q1.area(p.opening, of));
                    assert(q1.area(p.opening, of) == q0.plan.area(p.opening, of));
                    assert(q2.area(p.plate, of) == q1.area(p.plate, of));
                    assert(q1.area(p.plate, of) == q0.plan.area(p.plate, of));
                }
                assert(q3.goes_on(q1));
            }
            Some((under, rim))
        },
        StencilMount::Ring => None,
    };
    proof {
        assert(p.plan.goes_on(q1));
        assert(p.plan.goes_on(q0.plan));
        assert(p.plan.goes_on(start.plan));
        lemma_still_formed(start, *p, *s);
        assert forall|of: Cover|
            #[trigger] p.plan.area(slots, of) == start.plan.area(start.slots, of).difference(
                merged(frames(ties@), of),
            ) by {
            assert(p.plan.area(slots, of) == q0.plan.area(slots, of));
        }
        assert forall|of: Cover|
            #[trigger] p.plan.area(face, of) == of(Figure::Frame(s.plate)).difference(
                p.plan.area(slots, of),
            ) by {
            assert(p.plan.area(face, of) == q1.area(face, of));
            assert(p.plan.area(slots, of) == q0.plan.area(slots, of));
        }
    }
    StencilAreas { slots, face, lip }
}

/// Slots lie within the opening, and leave every first tie whole.
pub proof fn lemma_ties_stay(
    open: Set<(int, int)>,
    s: Stencil,
    stubs: Seq<((i64, i64), (i64, i64))>,
    width: int,
    of: Cover,
)
    ensures
        first_slots(open, s, stubs, width, of).subset_of(of(Figure::Frame(s.opening))),
        s.bus matches Some(bus) ==> first_slots(open, s, stubs, width, of).disjoint(
            merged(frames(bus.ties@), of),
        ),
{
}

/// Without a bus, all that gets copper within the opening is open.
pub proof fn lemma_copper_is_open(
    pcb: PcbData,
    c: Config,
    layer: CopperLayer,
    s: Stencil,
    stubs: Seq<((i64, i64), (i64, i64))>,
    width: int,
    of: Cover,
)
    requires
        s.bus is None,
    ensures
        ({
            let open = grooves(pcb, c, layer, s, of).union(drilled(pcb, c, of));
            grooves(pcb, c, layer, s, of).intersect(of(Figure::Frame(s.opening))).subset_of(
                first_slots(open, s, stubs, width, of),
            )
        }),
{
}

} // verus!
