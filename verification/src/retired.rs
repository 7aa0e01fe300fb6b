//! Settings that are still read but shape nothing: the style of eyelets, the depth of
//! indents, and whether vias get indents.

use crate::config::Config;
use crate::layout::{
    are_networks, drilled, face, holes, makes_model, network, Cover, ModelPlan,
};
use crate::mesh::Mesh;
use crate::mouths::{board_holes, fits_task, is_task, mouth_rules, MouthTask};
use crate::pcb::{BoundingBox, CopperLayer, PcbData, Point2};
use crate::profile::{bands_of, Bands};
use crate::slots::grooves;
use crate::solid::{
    is_repaired, lemma_repaired_alike, plate_surface, same_mesh, steps, surface, Shape, Solid,
};
use crate::stencil::{fits_ring, fits_stencil, is_bus, is_stencil, Stencil};
use vstd::prelude::*;

verus! {

/// Whether settings differ at most in the style of eyelets, the depth of indents and
/// whether vias get indents.
pub open spec fn differ_in_retired(c: Config, d: Config) -> bool {
    d == (Config {
        eyelet_style: d.eyelet_style,
        indent_depth: d.indent_depth,
        generate_via_indents: d.generate_via_indents,
        ..c
    })
}

proof fn lemma_areas_alike(
    c: Config,
    d: Config,
    pcb: PcbData,
    b: Bands,
    sinks: int,
    layer: CopperLayer,
    i: int,
    of: Cover,
)
    requires
        differ_in_retired(c, d),
    ensures
        drilled(pcb, c, of) == drilled(pcb, d, of),
        holes(pcb, c, of) == holes(pcb, d, of),
        network(pcb, c, b, sinks, layer, i, of) == network(pcb, d, b, sinks, layer, i, of),
        face(pcb, c, b, sinks, layer, of) == face(pcb, d, b, sinks, layer, of),
{
}

proof fn lemma_networks_alike(
    c: Config,
    d: Config,
    m: ModelPlan,
    list: Seq<usize>,
    pcb: PcbData,
    b: Bands,
    sinks: int,
    layer: CopperLayer,
)
    requires
        differ_in_retired(c, d),
        are_networks(m.plan, list, pcb, c, b, sinks, layer),
    ensures
        are_networks(m.plan, list, pcb, d, b, sinks, layer),
{
    assert forall|i: int, of: Cover|
        0 <= i < list.len() implies #[trigger] m.plan.area(list[i], of) == network(
        pcb,
        d,
        b,
        sinks,
        layer,
        i,
        of,
    ) by {
        assert(m.plan.area(list[i], of) == network(pcb, c, b, sinks, layer, i, of));
        lemma_areas_alike(c, d, pcb, b, sinks, layer, i, of);
    }
}

proof fn lemma_model_alike(
    c: Config,
    d: Config,
    m: ModelPlan,
    pcb: PcbData,
    b: Bands,
    sinks: int,
    recessed: bool,
)
    requires
        differ_in_retired(c, d),
        makes_model(m, pcb, c, b, sinks, recessed),
    ensures
        makes_model(m, pcb, d, b, sinks, recessed),
{
    lemma_networks_alike(c, d, m, m.upper@, pcb, b, sinks, CopperLayer::FCu);
    lemma_networks_alike(c, d, m, m.lower@, pcb, b, sinks, CopperLayer::BCu);
    assert forall|of: Cover| #[trigger] m.plan.area(m.holes, of) == holes(pcb, d, of) by {
        lemma_areas_alike(c, d, pcb, b, sinks, CopperLayer::FCu, 0, of);
    }
    assert forall|of: Cover| #[trigger]
        m.plan.area(m.top, of) == face(pcb, d, b, sinks, CopperLayer::FCu, of) by {
        lemma_areas_alike(c, d, pcb, b, sinks, CopperLayer::FCu, 0, of);
    }
    assert forall|of: Cover| #[trigger]
        m.plan.area(m.bottom, of) == (if recessed {
            face(pcb, d, b, sinks, CopperLayer::BCu, of)
        } else {
            of(crate::areas::Figure::Board).difference(holes(pcb, d, of))
        }) by {
        lemma_areas_alike(c, d, pcb, b, sinks, CopperLayer::BCu, 0, of);
    }
}

/// The retired settings never change a board: its bands, its countersinks, and the
/// areas that are cut into it and left of it.
pub proof fn lemma_board_ignores_retired(
    c: Config,
    d: Config,
    pcb: PcbData,
    outline: Seq<Point2>,
    slope: int,
    task: MouthTask,
    m: ModelPlan,
    b: Bands,
    sinks: int,
    recessed: bool,
)
    requires
        differ_in_retired(c, d),
    ensures
        bands_of(c) == bands_of(d),
        c.channel_width == d.channel_width,
        c.channel_depth == d.channel_depth,
        c.substrate_thickness == d.substrate_thickness,
        c.via_style == d.via_style,
        fits_task(pcb, c, outline, slope) == fits_task(pcb, d, outline, slope),
        is_task(task, pcb, c, outline, slope) == is_task(task, pcb, d, outline, slope),
        makes_model(m, pcb, c, b, sinks, recessed) == makes_model(m, pcb, d, b, sinks, recessed),
{
    assert(differ_in_retired(d, c));
    assert(board_holes(pcb, c) == board_holes(pcb, d));
    assert(mouth_rules(c, slope) == mouth_rules(d, slope));
    if makes_model(m, pcb, c, b, sinks, recessed) {
        lemma_model_alike(c, d, m, pcb, b, sinks, recessed);
    }
    if makes_model(m, pcb, d, b, sinks, recessed) {
        lemma_model_alike(d, c, m, pcb, b, sinks, recessed);
    }
}

/// The retired settings never change a stencil or the ring that clamps it.
pub proof fn lemma_stencil_ignores_retired(
    c: Config,
    d: Config,
    pcb: PcbData,
    layer: CopperLayer,
    s: Stencil,
    b: BoundingBox,
    of: Cover,
)
    requires
        differ_in_retired(c, d),
    ensures
        fits_stencil(b, c) == fits_stencil(b, d),
        is_stencil(s, b, c) == is_stencil(s, b, d),
        grooves(pcb, c, layer, s, of) == grooves(pcb, d, layer, s, of),
        drilled(pcb, c, of) == drilled(pcb, d, of),
        fits_ring(b, c) == fits_ring(b, d),
{
    if let Some(bus) = s.bus {
        assert(is_bus(bus, b, c) == is_bus(bus, b, d));
    }
}

/// Whatever the retired settings are, two plans of a board make the same areas.
pub proof fn lemma_areas_ignore_retired(
    c: Config,
    d: Config,
    pcb: PcbData,
    b: Bands,
    sinks: int,
    recessed: bool,
    m: ModelPlan,
    k: ModelPlan,
    of: Cover,
)
    requires
        differ_in_retired(c, d),
        makes_model(m, pcb, c, b, sinks, recessed),
        makes_model(k, pcb, d, b, sinks, recessed),
    ensures
        m.plan.area(m.holes, of) == k.plan.area(k.holes, of),
        m.plan.area(m.top, of) == k.plan.area(k.top, of),
        m.plan.area(m.bottom, of) == k.plan.area(k.bottom, of),
        m.upper@.len() == k.upper@.len(),
        m.lower@.len() == k.lower@.len(),
        forall|i: int|
            0 <= i < m.upper@.len() ==> #[trigger] m.plan.area(m.upper@[i], of) == k.plan.area(
                k.upper@[i],
                of,
            ),
        forall|i: int|
            0 <= i < m.lower@.len() ==> #[trigger] m.plan.area(m.lower@[i], of) == k.plan.area(
                k.lower@[i],
                of,
            ),
{
    lemma_model_alike(c, d, m, pcb, b, sinks, recessed);
    assert(k.plan.area(k.holes, of) == holes(pcb, d, of));
    assert(k.plan.area(k.top, of) == face(pcb, d, b, sinks, CopperLayer::FCu, of));
    assert forall|i: int| 0 <= i < m.upper@.len() implies #[trigger] m.plan.area(m.upper@[i], of)
        == k.plan.area(k.upper@[i], of) by {
        assert(k.plan.area(k.upper@[i], of) == network(
            pcb,
            d,
            b,
            sinks,
            CopperLayer::FCu,
            i,
            of,
        ));
    }
    assert forall|i: int| 0 <= i < m.lower@.len() implies #[trigger] m.plan.area(m.lower@[i], of)
        == k.plan.area(k.lower@[i], of) by {
        assert(k.plan.area(k.lower@[i], of) == network(
            pcb,
            d,
            b,
            sinks,
            CopperLayer::BCu,
            i,
            of,
        ));
    }
}

/// Whatever the retired settings are, the same areas of a board give the same triangles,
/// or no model both times.
pub proof fn lemma_mesh_ignores_retired(
    c: Config,
    d: Config,
    s: Solid,
    recessed: bool,
    a: Option<Mesh>,
    b: Option<Mesh>,
)
    requires
        differ_in_retired(c, d),
        is_repaired(
            surface(
                s,
                steps(c.substrate_thickness as int) as i64,
                steps(c.channel_depth as int) as i64,
                recessed,
            ),
            a,
        ),
        is_repaired(
            surface(
                s,
                steps(d.substrate_thickness as int) as i64,
                steps(d.channel_depth as int) as i64,
                recessed,
            ),
            b,
        ),
    ensures
        same_mesh(a, b),
{
    lemma_repaired_alike(
        surface(
            s,
            steps(c.substrate_thickness as int) as i64,
            steps(c.channel_depth as int) as i64,
            recessed,
        ),
        a,
        b,
    );
}

/// Whatever the retired settings are, the same areas of a stencil give the same
/// triangles, or no stencil both times.
pub proof fn lemma_plate_ignores_retired(
    c: Config,
    d: Config,
    face: Seq<Shape>,
    outer: Seq<(i64, i64)>,
    slots: Seq<Shape>,
    a: Option<Mesh>,
    b: Option<Mesh>,
)
    requires
        differ_in_retired(c, d),
        is_repaired(
            plate_surface(face, outer, slots, steps(c.stencil_thickness as int) as i64),
            a,
        ),
        is_repaired(
            plate_surface(face, outer, slots, steps(d.stencil_thickness as int) as i64),
            b,
        ),
    ensures
        same_mesh(a, b),
{
    lemma_repaired_alike(
        plate_surface(face, outer, slots, steps(c.stencil_thickness as int) as i64),
        a,
        b,
    );
}

} // verus!
