//! Areas of a board as figures that are put together step by step.
//!
//! A plan says which figures are merged, and which areas are joined, clipped and cut.
//! What a figure covers is left to whoever draws it; what the areas cover follows from
//! that.

use crate::choices::StencilMount;
use crate::pcb::{BoundingBox, CopperLayer, Point2};
use vstd::prelude::*;

verus! {

/// A plain figure. Lengths are in nanometres, angles in millionths of a degree.
#[derive(Clone, Copy, Debug, PartialEq, Eq, Structural)]
pub enum Figure {
    /// All that the outline of the board holds.
    Board,
    /// A rectangle along the axes.
    Frame(BoundingBox),
    /// A regular polygon as good as a circle.
    Disc { center: Point2, diameter: i128, sides: usize },
    /// A line with round ends.
    Stroke { start: Point2, end: Point2, width: i128 },
    /// A rectangle turned about its middle.
    Slab { center: Point2, width: i128, height: i128, rotation: i64 },
    /// A rectangle with round ends, each with so many sides, turned about its middle.
    Oval { center: Point2, width: i128, height: i128, rotation: i64, sides: usize },
    /// What a countersink covers at a depth, in a band.
    Mouth { bore: usize, depth: i64, band: usize },
}

/// What a step is for, which is told if it fails.
#[derive(Clone, Copy, Debug, PartialEq, Eq, Structural)]
pub enum Purpose {
    PadAndViaHoles,
    HolesAndCutouts,
    Network(CopperLayer),
    NetworkClip(CopperLayer),
    BoardLessHoles,
    Face(CopperLayer),
    TaperLedge,
    TracesAndLands,
    StencilHoles,
    SlotsAndHoles,
    RailRing,
    RingOnBoard,
    BarOnBoard,
    RailAndStubs,
    SlotsAndBus,
    SlotsClip,
    SlotsLessTies,
    LooseBodies,
    SlotsLessMoreTies,
    PlateFace(StencilMount),
    LipUnderside,
    LipRim,
}

impl Purpose {
    /// What a purpose is called.
    pub open spec fn said(self) -> Seq<char> {
        match self {
            Purpose::PadAndViaHoles => "pad holes + via holes"@,
            Purpose::HolesAndCutouts => "holes + cutouts"@,
            Purpose::Network(CopperLayer::FCu) => "F.Cu network"@,
            Purpose::Network(CopperLayer::BCu) => "B.Cu network"@,
            Purpose::NetworkClip(CopperLayer::FCu) => "F.Cu network clip"@,
            Purpose::NetworkClip(CopperLayer::BCu) => "B.Cu network clip"@,
            Purpose::BoardLessHoles => "board outline - all holes"@,
            Purpose::Face(CopperLayer::FCu) => "top face - F.Cu network"@,
            Purpose::Face(CopperLayer::BCu) => "bottom face - B.Cu network"@,
            Purpose::TaperLedge => "channel taper ledge"@,
            Purpose::TracesAndLands => "stencil trace slots + pad lands"@,
            Purpose::StencilHoles => "stencil pad holes + via holes"@,
            Purpose::SlotsAndHoles => "stencil slots + hole slots"@,
            Purpose::RailRing => "stencil bus rail ring"@,
            Purpose::RingOnBoard => "stencil bus rail ring ∩ board outline"@,
            Purpose::BarOnBoard => "stencil bus bar ∩ board outline"@,
            Purpose::RailAndStubs => "stencil bus rail + stubs"@,
            Purpose::SlotsAndBus => "stencil slots + bus slots"@,
            Purpose::SlotsClip => "stencil slots ∩ clip region"@,
            Purpose::SlotsLessTies => "stencil slots - tie bars"@,
            Purpose::LooseBodies => "stencil top face - slots (loose-body check)"@,
            Purpose::SlotsLessMoreTies => "stencil slots - extra ties"@,
            Purpose::PlateFace(StencilMount::Lip) => "stencil lip top face - slots"@,
            Purpose::PlateFace(StencilMount::Ring) => "stencil ring plate face - slots"@,
            Purpose::LipUnderside => "stencil lip cavity underside - slots"@,
            Purpose::LipRim => "stencil lip bottom rim - clip region"@,
        }
    }

    /// What a purpose is called.
    pub fn name(self) -> (text: &'static str)
        ensures
            text@ == self.said(),
    {
        match self {
            Purpose::PadAndViaHoles => "pad holes + via holes",
            Purpose::HolesAndCutouts => "holes + cutouts",
            Purpose::Network(CopperLayer::FCu) => "F.Cu network",
            Purpose::Network(CopperLayer::BCu) => "B.Cu network",
            Purpose::NetworkClip(CopperLayer::FCu) => "F.Cu network clip",
            Purpose::NetworkClip(CopperLayer::BCu) => "B.Cu network clip",
            Purpose::BoardLessHoles => "board outline - all holes",
            Purpose::Face(CopperLayer::FCu) => "top face - F.Cu network",
            Purpose::Face(CopperLayer::BCu) => "bottom face - B.Cu network",
            Purpose::TaperLedge => "channel taper ledge",
            Purpose::TracesAndLands => "stencil trace slots + pad lands",
            Purpose::StencilHoles => "stencil pad holes + via holes",
            Purpose::SlotsAndHoles => "stencil slots + hole slots",
            Purpose::RailRing => "stencil bus rail ring",
            Purpose::RingOnBoard => "stencil bus rail ring ∩ board outline",
            Purpose::BarOnBoard => "stencil bus bar ∩ board outline",
            Purpose::RailAndStubs => "stencil bus rail + stubs",
            Purpose::SlotsAndBus => "stencil slots + bus slots",
            Purpose::SlotsClip => "stencil slots ∩ clip region",
            Purpose::SlotsLessTies => "stencil slots - tie bars",
            Purpose::LooseBodies => "stencil top face - slots (loose-body check)",
            Purpose::SlotsLessMoreTies => "stencil slots - extra ties",
            Purpose::PlateFace(StencilMount::Lip) => "stencil lip top face - slots",
            Purpose::PlateFace(StencilMount::Ring) => "stencil ring plate face - slots",
            Purpose::LipUnderside => "stencil lip cavity underside - slots",
            Purpose::LipRim => "stencil lip bottom rim - clip region",
        }
    }
}

/// A step of a plan. It makes one area, of figures or of areas that earlier steps made.
#[derive(Debug)]
pub enum Step {
    Merge(Vec<Figure>),
    Union(usize, usize, Purpose),
    Intersection(usize, usize, Purpose),
    Difference(usize, usize, Purpose),
}

/// What figures cover together, where `of` says what each of them covers.
pub open spec fn merged(list: Seq<Figure>, of: spec_fn(Figure) -> Set<(int, int)>) -> Set<(int, int)> {
    Set::new(|p: (int, int)| exists|k: int| 0 <= k < list.len() && of(#[trigger] list[k]).contains(p))
}

/// What the area of a step covers, where `of` says what each figure covers.
pub open spec fn area_of(
    steps: Seq<Step>,
    i: int,
    of: spec_fn(Figure) -> Set<(int, int)>,
) -> Set<(int, int)>
    decreases i,
{
    if i < 0 || i >= steps.len() {
        Set::empty()
    } else {
        match steps[i] {
            Step::Merge(list) => merged(list@, of),
            Step::Union(a, b, _) => if a < i && b < i {
                area_of(steps, a as int, of).union(area_of(steps, b as int, of))
            } else {
                Set::empty()
            },
            Step::Intersection(a, b, _) => if a < i && b < i {
                area_of(steps, a as int, of).intersect(area_of(steps, b as int, of))
            } else {
                Set::empty()
            },
            Step::Difference(a, b, _) => if a < i && b < i {
                area_of(steps, a as int, of).difference(area_of(steps, b as int, of))
            } else {
                Set::empty()
            },
        }
    }
}

/// Whether a step works on earlier ones only.
pub open spec fn looks_back(step: Step, i: int) -> bool {
    match step {
        Step::Merge(_) => true,
        Step::Union(a, b, _) => a < i && b < i,
        Step::Intersection(a, b, _) => a < i && b < i,
        Step::Difference(a, b, _) => a < i && b < i,
    }
}

/// Steps that make areas.
#[derive(Debug)]
pub struct Plan {
    pub steps: Vec<Step>,
}

proof fn lemma_area_kept(
    steps: Seq<Step>,
    more: Seq<Step>,
    i: int,
    of: spec_fn(Figure) -> Set<(int, int)>,
)
    requires
        i < steps.len() <= more.len(),
        forall|k: int| 0 <= k < steps.len() ==> #[trigger] more[k] == steps[k],
    ensures
        area_of(more, i, of) == area_of(steps, i, of),
    decreases i,
{
    if i >= 0 {
        assert(more[i] == steps[i]);
        match steps[i] {
            Step::Merge(_) => {},
            Step::Union(a, b, _) => {
                if a < i && b < i {
                    lemma_area_kept(steps, more, a as int, of);
                    lemma_area_kept(steps, more, b as int, of);
                }
            },
            Step::Intersection(a, b, _) => {
                if a < i && b < i {
                    lemma_area_kept(steps, more, a as int, of);
                    lemma_area_kept(steps, more, b as int, of);
                }
            },
            Step::Difference(a, b, _) => {
                if a < i && b < i {
                    lemma_area_kept(steps, more, a as int, of);
                    lemma_area_kept(steps, more, b as int, of);
                }
            },
        }
    }
}

impl Plan {
    /// What an area of the plan covers.
    pub open spec fn area(self, i: usize, of: spec_fn(Figure) -> Set<(int, int)>) -> Set<(int, int)> {
        area_of(self.steps@, i as int, of)
    }

    /// Whether every step works on earlier ones only.
    pub open spec fn well_formed(self) -> bool {
        forall|i: int| 0 <= i < self.steps@.len() ==> looks_back(#[trigger] self.steps@[i], i)
    }

    /// Whether a plan goes on from another: its areas stay what they were.
    pub open spec fn goes_on(self, from: Plan) -> bool {
        &&& from.steps@.len() <= self.steps@.len()
        &&& forall|i: usize, of: spec_fn(Figure) -> Set<(int, int)>|
            i < from.steps@.len() ==> #[trigger] self.area(i, of) == from.area(i, of)
    }

    /// The plan without steps.
    pub fn new() -> (plan: Plan)
        ensures
            plan.well_formed(),
            plan.steps@.len() == 0,
    {
        Plan { steps: Vec::new() }
    }

    fn add_step(&mut self, step: Step) -> (at: usize)
        requires
            old(self).well_formed(),
            looks_back(step, old(self).steps@.len() as int),
        ensures
            final(self).well_formed(),
            final(self).goes_on(*old(self)),
            at == old(self).steps@.len(),
            final(self).steps@ == old(self).steps@.push(step),
    {
        let at: usize = self.steps.len();
        let ghost before = self.steps@;
        self.steps.push(step);
        proof {
            assert forall|i: usize, of: spec_fn(Figure) -> Set<(int, int)>|
                i < before.len() implies #[trigger] self.area(i, of) == area_of(
                before,
                i as int,
                of,
            ) by {
                lemma_area_kept(before, self.steps@, i as int, of);
            }
        }
        at
    }

    /// Adds the area that figures cover together.
    pub fn merge(&mut self, figures: Vec<Figure>) -> (at: usize)
        requires
            old(self).well_formed(),
        ensures
            final(self).well_formed(),
            final(self).goes_on(*old(self)),
            at == old(self).steps@.len() < final(self).steps@.len(),
            forall|of: spec_fn(Figure) -> Set<(int, int)>|
                #[trigger] final(self).area(at, of) == merged(figures@, of),
    {
        self.add_step(Step::Merge(figures))
    }

    /// Adds the area of one figure.
    pub fn single(&mut self, figure: Figure) -> (at: usize)
        requires
            old(self).well_formed(),
        ensures
            final(self).well_formed(),
            final(self).goes_on(*old(self)),
            at == old(self).steps@.len() < final(self).steps@.len(),
            forall|of: spec_fn(Figure) -> Set<(int, int)>|
                #[trigger] final(self).area(at, of) == of(figure),
    {
        let mut list: Vec<Figure> = Vec::new();
        list.push(figure);
        let ghost one = list@;
        let at = self.merge(list);
        proof {
            assert forall|of: spec_fn(Figure) -> Set<(int, int)>|
                #[trigger] self.area(at, of) == of(figure) by {
                assert forall|p: (int, int)| merged(one, of).contains(p) == of(figure).contains(
                    p,
                ) by {
                    assert(one[0] == figure);
                    if of(figure).contains(p) {
                        assert(of(one[0]).contains(p));
                    }
                }
                assert(merged(one, of) =~= of(figure));
            }
        }
        at
    }

    /// Adds what two areas cover together.
    pub fn union(&mut self, a: usize, b: usize, purpose: Purpose) -> (at: usize)
        requires
            old(self).well_formed(),
            a < old(self).steps@.len(),
            b < old(self).steps@.len(),
        ensures
            final(self).well_formed(),
            final(self).goes_on(*old(self)),
            at == old(self).steps@.len() < final(self).steps@.len(),
            forall|of: spec_fn(Figure) -> Set<(int, int)>|
                #[trigger] final(self).area(at, of) == old(self).area(a, of).union(
                    old(self).area(b, of),
                ),
    {
        let ghost before = *self;
        let at = self.add_step(Step::Union(a, b, purpose));
        proof {
            assert forall|of: spec_fn(Figure) -> Set<(int, int)>|
                #[trigger] self.area(at, of) == before.area(a, of).union(before.area(b, of)) by {
                assert(self.area(a, of) == before.area(a, of));
                assert(self.area(b, of) == before.area(b, of));
            }
        }
        at
    }

    /// Adds what two areas have in common.
    pub fn intersection(&mut self, a: usize, b: usize, purpose: Purpose) -> (at: usize)
        requires
            old(self).well_formed(),
            a < old(self).steps@.len(),
            b < old(self).steps@.len(),
        ensures
            final(self).well_formed(),
            final(self).goes_on(*old(self)),
            at == old(self).steps@.len() < final(self).steps@.len(),
            forall|of: spec_fn(Figure) -> Set<(int, int)>|
                #[trigger] final(self).area(at, of) == old(self).area(a, of).intersect(
                    old(self).area(b, of),
                ),
    {
        let ghost before = *self;
        let at = self.add_step(Step::Intersection(a, b, purpose));
        proof {
            assert forall|of: spec_fn(Figure) -> Set<(int, int)>|
                #[trigger] self.area(at, of) == before.area(a, of).intersect(
                before.area(b, of),
            ) by {
                assert(self.area(a, of) == before.area(a, of));
                assert(self.area(b, of) == before.area(b, of));
            }
        }
        at
    }

    /// Adds what one area covers and another does not.
    pub fn difference(&mut self, a: usize, b: usize, purpose: Purpose) -> (at: usize)
        requires
            old(self).well_formed(),
            a < old(self).steps@.len(),
            b < old(self).steps@.len(),
        ensures
            final(self).well_formed(),
            final(self).goes_on(*old(self)),
            at == old(self).steps@.len() < final(self).steps@.len(),
            forall|of: spec_fn(Figure) -> Set<(int, int)>|
                #[trigger] final(self).area(at, of) == old(self).area(a, of).difference(
                    old(self).area(b, of),
                ),
    {
        let ghost before = *self;
        let at = self.add_step(Step::Difference(a, b, purpose));
        proof {
            assert forall|of: spec_fn(Figure) -> Set<(int, int)>|
                #[trigger] self.area(at, of) == before.area(a, of).difference(
                before.area(b, of),
            ) by {
                assert(self.area(a, of) == before.area(a, of));
                assert(self.area(b, of) == before.area(b, of));
            }
        }
        at
    }
}

} // verus!
