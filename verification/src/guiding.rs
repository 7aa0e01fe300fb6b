//! What the steps of a guide are for: the parts, each layer that has traces, and the vias
//! are told if there are any; and what plating takes.

use crate::choices::Mode;
use crate::config::{Config, StepModel};
use crate::pcb::PcbData;
use crate::steps::{
    area, fill_time, guide_steps, layer_step, parts_step, plain_step, plating_steps, plating_text,
    figures, references, seed_text, step_if, wetted_width, wire_steps,
};
use vstd::prelude::*;

verus! {

/// Whether a step shows the traces of a layer.
pub open spec fn shows_layer(list: Seq<StepModel>, layer: Seq<char>) -> bool {
    exists|i: int| 0 <= i < list.len() && (#[trigger] list[i]).wire_layer == Some(layer)
}

/// Whether a step shows all parts of a board, in order.
pub open spec fn shows_parts(list: Seq<StepModel>, pcb: PcbData) -> bool {
    exists|i: int|
        0 <= i < list.len() && (#[trigger] list[i]).components.len() == pcb.footprints@.len()
            && forall|k: int|
            0 <= k < pcb.footprints@.len() ==> list[i].components[k]
                == (#[trigger] pcb.footprints@[k]).reference@
}

/// Whether a step is called so.
pub open spec fn has_step(list: Seq<StepModel>, name: Seq<char>) -> bool {
    exists|i: int| 0 <= i < list.len() && (#[trigger] list[i]).name == name
}

proof fn lemma_sum(a: Seq<StepModel>, b: Seq<StepModel>, text: Seq<char>, pcb: PcbData)
    ensures
        shows_layer(a + b, text) == (shows_layer(a, text) || shows_layer(b, text)),
        has_step(a + b, text) == (has_step(a, text) || has_step(b, text)),
        shows_parts(a, pcb) ==> shows_parts(a + b, pcb),
{
    let c = a + b;
    assert forall|i: int| 0 <= i < a.len() implies #[trigger] a[i] == c[i] by {}
    assert forall|i: int| 0 <= i < b.len() implies #[trigger] b[i] == c[a.len() + i] by {}
    if shows_layer(c, text) {
        let i = choose|i: int| 0 <= i < c.len() && (#[trigger] c[i]).wire_layer == Some(text);
        if i < a.len() {
            assert(a[i].wire_layer == Some(text));
        } else {
            assert(b[i - a.len()].wire_layer == Some(text));
        }
    }
    if shows_layer(a, text) {
        let i = choose|i: int| 0 <= i < a.len() && (#[trigger] a[i]).wire_layer == Some(text);
        assert(c[i].wire_layer == Some(text));
    }
    if shows_layer(b, text) {
        let i = choose|i: int| 0 <= i < b.len() && (#[trigger] b[i]).wire_layer == Some(text);
        assert(c[a.len() + i].wire_layer == Some(text));
    }
    if has_step(c, text) {
        let i = choose|i: int| 0 <= i < c.len() && (#[trigger] c[i]).name == text;
        if i < a.len() {
            assert(a[i].name == text);
        } else {
            assert(b[i - a.len()].name == text);
        }
    }
    if has_step(a, text) {
        let i = choose|i: int| 0 <= i < a.len() && (#[trigger] a[i]).name == text;
        assert(c[i].name == text);
    }
    if has_step(b, text) {
        let i = choose|i: int| 0 <= i < b.len() && (#[trigger] b[i]).name == text;
        assert(c[a.len() + i].name == text);
    }
    if shows_parts(a, pcb) {
        let i = choose|i: int|
            0 <= i < a.len() && (#[trigger] a[i]).components.len() == pcb.footprints@.len()
                && forall|k: int|
                0 <= k < pcb.footprints@.len() ==> a[i].components[k]
                    == (#[trigger] pcb.footprints@[k]).reference@;
        assert(c[i].components.len() == pcb.footprints@.len());
    }
}

proof fn lemma_one(wanted: bool, s: StepModel, text: Seq<char>)
    ensures
        shows_layer(step_if(wanted, s), text) == (wanted && s.wire_layer == Some(text)),
        has_step(step_if(wanted, s), text) == (wanted && s.name == text),
{
    if wanted {
        assert(step_if(wanted, s)[0] == s);
    }
}

proof fn lemma_parts(pcb: PcbData, name: Seq<char>, text: Seq<char>)
    ensures
        pcb.footprints@.len() > 0 ==> shows_parts(
            step_if(pcb.footprints@.len() > 0, parts_step(name, references(pcb.footprints@), text)),
            pcb,
        ),
{
    if pcb.footprints@.len() > 0 {
        let s = parts_step(name, references(pcb.footprints@), text);
        let list = step_if(true, s);
        assert(list[0] == s);
        assert forall|k: int| 0 <= k < pcb.footprints@.len() implies list[0].components[k]
            == (#[trigger] pcb.footprints@[k]).reference@ by {}
    }
}

proof fn lemma_names()
    ensures
        "F.Cu"@ != "B.Cu"@,
{
    reveal_strlit("F.Cu");
    reveal_strlit("B.Cu");
    assert("F.Cu"@[0] == 'F' && "B.Cu"@[0] == 'B');
}

/// Where wires are laid, there is a step for the traces of each layer that has any, one
/// for all parts if there are any, and one for vias if there are any.
pub proof fn lemma_wire_steps_tell_what_is_there(pcb: PcbData)
    ensures
        shows_layer(wire_steps(pcb), "F.Cu"@) == (pcb.traces_fcu@.len() > 0),
        shows_layer(wire_steps(pcb), "B.Cu"@) == (pcb.traces_bcu@.len() > 0),
        pcb.footprints@.len() > 0 ==> shows_parts(wire_steps(pcb), pcb),
        pcb.vias@.len() > 0 ==> has_step(wire_steps(pcb), "Connect vias"@),
{
    lemma_names();
    let place = parts_step(
        "Place components"@,
        references(pcb.footprints@),
        "Insert through-hole components. Bend leads flush to the substrate surface."@,
    );
    let front = layer_step(
        "Lay front-copper wires (F.Cu)"@,
        "F.Cu"@,
        "Lay 30 AWG wire into each highlighted groove on the TOP surface. Solder at each pad hole."@,
    );
    let back = layer_step(
        "Lay back-copper wires (B.Cu)"@,
        "B.Cu"@,
        "Lay 30 AWG wire into each highlighted groove on the BOTTOM surface. Solder at each pad hole."@,
    );
    let join = plain_step(
        "Connect vias"@,
        "Insert copper eyelets into each via hole and solder top and bottom to bridge layers."@,
    );
    let a = step_if(pcb.footprints@.len() > 0, place);
    let b = step_if(pcb.traces_fcu@.len() > 0, front);
    let c = step_if(pcb.traces_bcu@.len() > 0, back);
    let d = step_if(pcb.vias@.len() > 0, join);
    lemma_parts(
        pcb,
        "Place components"@,
        "Insert through-hole components. Bend leads flush to the substrate surface."@,
    );
    lemma_told(pcb.footprints@.len() > 0, place, pcb.traces_fcu@.len() > 0, front, pcb, "F.Cu"@);
    lemma_told(pcb.footprints@.len() > 0, place, pcb.traces_fcu@.len() > 0, front, pcb, "B.Cu"@);
    lemma_sum(a + b, c, "F.Cu"@, pcb);
    lemma_sum(a + b, c, "B.Cu"@, pcb);
    lemma_one(pcb.traces_bcu@.len() > 0, back, "F.Cu"@);
    lemma_one(pcb.traces_bcu@.len() > 0, back, "B.Cu"@);
    lemma_sum(a + b + c, d, "F.Cu"@, pcb);
    lemma_sum(a + b + c, d, "B.Cu"@, pcb);
    lemma_sum(a + b + c, d, "Connect vias"@, pcb);
    lemma_one(pcb.vias@.len() > 0, join, "F.Cu"@);
    lemma_one(pcb.vias@.len() > 0, join, "B.Cu"@);
    lemma_one(pcb.vias@.len() > 0, join, "Connect vias"@);
}

proof fn lemma_told(
    p: bool,
    s: StepModel,
    q: bool,
    t: StepModel,
    pcb: PcbData,
    text: Seq<char>,
)
    ensures
        shows_layer(step_if(p, s) + step_if(q, t), text) == ((p && s.wire_layer == Some(text)) || (q
            && t.wire_layer == Some(text))),
        shows_parts(step_if(p, s), pcb) ==> shows_parts(step_if(p, s) + step_if(q, t), pcb),
{
    lemma_sum(step_if(p, s), step_if(q, t), text, pcb);
    lemma_one(p, s, text);
    lemma_one(q, t, text);
}

/// Where copper is plated, there is a step for the grooves of each layer that has traces,
/// one for all parts, and one for plating exactly if there is a trace. The bus is ground
/// off exactly if a stencil with a bus was used.
pub proof fn lemma_plating_steps_tell_what_is_there(
    pcb: PcbData,
    stencil: bool,
    bus: bool,
    plating: Seq<char>,
)
    ensures
        ({
            let list = plating_steps(pcb, stencil, bus, plating);
            let copper = pcb.traces_fcu@.len() > 0 || pcb.traces_bcu@.len() > 0;
            &&& shows_layer(list, "F.Cu"@) == (pcb.traces_fcu@.len() > 0)
            &&& shows_layer(list, "B.Cu"@) == (pcb.traces_bcu@.len() > 0)
            &&& pcb.footprints@.len() > 0 ==> shows_parts(list, pcb)
            &&& has_step(list, "Electroplate copper"@) == copper
            &&& has_step(list, "Grind off the plating bus"@) == (copper && stencil && bus)
            &&& has_step(list, "Connect vias"@) == (pcb.vias@.len() > 0)
            &&& list.last().name == "Test traces"@
            &&& copper ==> exists|i: int|
                0 <= i < list.len() && (#[trigger] list[i]).instruction == plating
        }),
{
    lemma_names();
    lemma_step_names();
    let copper = pcb.traces_fcu@.len() > 0 || pcb.traces_bcu@.len() > 0;
    let place = parts_step(
        "Place components"@,
        references(pcb.footprints@),
        "Insert through-hole components into the substrate. Do not solder yet."@,
    );
    let front = layer_step(
        "Prime front-copper grooves (F.Cu)"@,
        "F.Cu"@,
        seed_text(true, stencil),
    );
    let back = layer_step("Prime back-copper grooves (B.Cu)"@, "B.Cu"@, seed_text(false, stencil));
    let plate = plain_step("Electroplate copper"@, plating);
    let grind = plain_step(
        "Grind off the plating bus"@,
        "Sand or grind the raised bus rail and stubs flush with the surface to isolate the traces. The traces sit recessed in their grooves, so they stay untouched. Re-check continuity afterward — adjacent nets should now read open."@,
    );
    let join = plain_step(
        "Connect vias"@,
        "Insert copper eyelets into each via hole and solder top and bottom to bridge layers."@,
    );
    let test = plain_step(
        "Test traces"@,
        "Use a multimeter in continuity mode to verify each copper trace before soldering. See the Continuity Test tab."@,
    );
    let a = step_if(pcb.footprints@.len() > 0, place);
    let b = step_if(pcb.traces_fcu@.len() > 0, front);
    let c = step_if(pcb.traces_bcu@.len() > 0, back);
    let d = step_if(copper, plate);
    let e = step_if(copper && stencil && bus, grind);
    let f = step_if(pcb.vias@.len() > 0, join);
    let g = step_if(true, test);
    let list = plating_steps(pcb, stencil, bus, plating);
    assert(g =~= seq![test]);
    assert(list == a + b + c + d + e + f + g);
    lemma_parts(
        pcb,
        "Place components"@,
        "Insert through-hole components into the substrate. Do not solder yet."@,
    );
    let tell = |text: Seq<char>|
        {
            &&& shows_layer(list, text) == ((pcb.traces_fcu@.len() > 0 && text == "F.Cu"@) || (
            pcb.traces_bcu@.len() > 0 && text == "B.Cu"@))
            &&& has_step(list, text) == ((pcb.footprints@.len() > 0 && text == "Place components"@)
                || (pcb.traces_fcu@.len() > 0 && text == "Prime front-copper grooves (F.Cu)"@) || (
            pcb.traces_bcu@.len() > 0 && text == "Prime back-copper grooves (B.Cu)"@) || (copper
                && text == "Electroplate copper"@) || (copper && stencil && bus && text
                == "Grind off the plating bus"@) || (pcb.vias@.len() > 0 && text == "Connect vias"@)
                || text == "Test traces"@)
        };
    assert forall|text: Seq<char>| #[trigger] tell(text) by {
        lemma_sum(a, b, text, pcb);
        lemma_sum(a + b, c, text, pcb);
        lemma_sum(a + b + c, d, text, pcb);
        lemma_sum(a + b + c + d, e, text, pcb);
        lemma_sum(a + b + c + d + e, f, text, pcb);
        lemma_sum(a + b + c + d + e + f, g, text, pcb);
        lemma_one(pcb.footprints@.len() > 0, place, text);
        lemma_one(pcb.traces_fcu@.len() > 0, front, text);
        lemma_one(pcb.traces_bcu@.len() > 0, back, text);
        lemma_one(copper, plate, text);
        lemma_one(copper && stencil && bus, grind, text);
        lemma_one(pcb.vias@.len() > 0, join, text);
        lemma_one(true, test, text);
    }
    assert(tell("F.Cu"@));
    assert(tell("B.Cu"@));
    assert(tell("Electroplate copper"@));
    assert(tell("Grind off the plating bus"@));
    assert(tell("Connect vias"@));
    lemma_sum(a, b, "F.Cu"@, pcb);
    lemma_sum(a + b, c, "F.Cu"@, pcb);
    lemma_sum(a + b + c, d, "F.Cu"@, pcb);
    lemma_sum(a + b + c + d, e, "F.Cu"@, pcb);
    lemma_sum(a + b + c + d + e, f, "F.Cu"@, pcb);
    lemma_sum(a + b + c + d + e + f, g, "F.Cu"@, pcb);
    assert(list.last() == test);
    if copper {
        let k = (a + b + c).len() as int;
        assert(list[k] == plate);
    }
}

proof fn lemma_step_names()
    ensures
        "Electroplate copper"@ != "Place components"@,
        "Electroplate copper"@ != "Prime front-copper grooves (F.Cu)"@,
        "Electroplate copper"@ != "Prime back-copper grooves (B.Cu)"@,
        "Electroplate copper"@ != "Grind off the plating bus"@,
        "Electroplate copper"@ != "Connect vias"@,
        "Electroplate copper"@ != "Test traces"@,
        "Grind off the plating bus"@ != "Place components"@,
        "Grind off the plating bus"@ != "Prime front-copper grooves (F.Cu)"@,
        "Grind off the plating bus"@ != "Prime back-copper grooves (B.Cu)"@,
        "Grind off the plating bus"@ != "Connect vias"@,
        "Grind off the plating bus"@ != "Test traces"@,
        "Connect vias"@ != "Place components"@,
        "Connect vias"@ != "Prime front-copper grooves (F.Cu)"@,
        "Connect vias"@ != "Prime back-copper grooves (B.Cu)"@,
        "Connect vias"@ != "Test traces"@,
{
    reveal_strlit("Electroplate copper");
    reveal_strlit("Place components");
    reveal_strlit("Prime front-copper grooves (F.Cu)");
    reveal_strlit("Prime back-copper grooves (B.Cu)");
    reveal_strlit("Grind off the plating bus");
    reveal_strlit("Connect vias");
    reveal_strlit("Test traces");
    assert("Electroplate copper"@[0] == 'E' && "Place components"@[0] == 'P');
    assert("Prime front-copper grooves (F.Cu)"@[0] == 'P');
    assert("Prime back-copper grooves (B.Cu)"@[0] == 'P');
    assert("Grind off the plating bus"@[0] == 'G' && "Connect vias"@[0] == 'C');
    assert("Test traces"@[0] == 'T');
}

/// A guide has the steps that the settings give, in order and as they are given, else
/// those of its mode, with what plating takes for the length of the traces.
pub proof fn lemma_guide_has_its_steps(pcb: PcbData, c: Config, length: i64)
    ensures
        ({
            let list = guide_steps(pcb, c, length);
            let own = c.assembly_steps@;
            &&& own.len() > 0 ==> list.len() == own.len() && forall|i: int|
                0 <= i < own.len() ==> (#[trigger] list[i]).name == own[i].name@ && list[i].instruction
                    == own[i].instruction@ && list[i].components == crate::strings::strings(
                    own[i].components@,
                )
            &&& own.len() == 0 && c.mode == Mode::CopperWire ==> list == wire_steps(pcb)
            &&& own.len() == 0 && c.mode == Mode::Electrolysis ==> list == plating_steps(
                pcb,
                c.generate_stencil,
                c.stencil_plating_bus,
                plating_text(figures(length, c), c.channel_depth as int),
            )
        }),
{
}

/// What plating takes: the wetted area is that of the floor and both walls of the grooves,
/// to the last millionth of a square centimetre; the current is twenty milliamperes for
/// each wetted square centimetre. The time is that in which this current fills the groove
/// with copper, whatever the length: of twice the depth in the same wetted width it takes
/// twice as long.
pub proof fn lemma_plating_adds_up(length: int, width: int, depth: int)
    requires
        0 < length,
        0 <= width,
        0 <= depth,
        0 < width + depth,
    ensures
        ({
            let wet = area(length, wetted_width(width, depth));
            let t = fill_time(length, width, depth);
            &&& wet * 100_000_000 <= length * (width + 2 * depth) < (wet + 1) * 100_000_000
            &&& t * ((width + 2 * depth) * 72_447) <= width * depth * 172_901_120
            &&& width * depth * 172_901_120 < (t + 1) * ((width + 2 * depth) * 72_447)
        }),
{
    let w = width + 2 * depth;
    assert(length * w > 0) by (nonlinear_arith)
        requires
            length > 0,
            w > 0,
    ;
    let n = width * depth * 172_901_120;
    let m = w * 72_447;
    let t = n / m;
    assert(t * m <= n < (t + 1) * m) by (nonlinear_arith)
        requires
            t == n / m,
            m > 0,
    ;
}

} // verus!
