//! The steps of building a board by hand, and what plating it takes.

use crate::choices::Mode;
use crate::config::{step_model, step_models, AssemblyStep, Config, StepModel};
use crate::pcb::{Footprint, PcbData};
use crate::strings::strings;
use crate::text::{extend_str, to_chars, to_text};
use crate::units::{extend_fixed, fixed};
use vstd::prelude::*;

verus! {

/// The references of parts.
pub open spec fn references(parts: Seq<Footprint>) -> Seq<Seq<char>> {
    parts.map_values(|f: Footprint| f.reference@)
}

/// A step that shows parts.
pub open spec fn parts_step(
    name: Seq<char>,
    parts: Seq<Seq<char>>,
    instruction: Seq<char>,
) -> StepModel {
    StepModel { name, components: parts, wire_layer: None, instruction }
}

/// A step that shows the traces of a layer.
pub open spec fn layer_step(name: Seq<char>, layer: Seq<char>, instruction: Seq<char>) -> StepModel {
    StepModel { name, components: Seq::empty(), wire_layer: Some(layer), instruction }
}

/// A step that shows nothing in particular.
pub open spec fn plain_step(name: Seq<char>, instruction: Seq<char>) -> StepModel {
    StepModel { name, components: Seq::empty(), wire_layer: None, instruction }
}

/// A step, if it is called for.
pub open spec fn step_if(wanted: bool, step: StepModel) -> Seq<StepModel> {
    if wanted {
        seq![step]
    } else {
        Seq::empty()
    }
}

fn read_references(parts: &Vec<Footprint>) -> (out: Vec<String>)
    ensures
        strings(out@) == references(parts@),
{
    let mut out: Vec<String> = Vec::new();
    while out.len() < parts.len()
        invariant
            out@.len() <= parts@.len(),
            forall|i: int| 0 <= i < out@.len() ==> (#[trigger] out@[i])@ == parts@[i].reference@,
        decreases parts@.len() - out@.len(),
    {
        let i: usize = out.len();
        out.push(parts[i].reference.clone());
    }
    proof {
        assert(strings(out@) =~= references(parts@));
    }
    out
}

fn add_parts(out: &mut Vec<AssemblyStep>, name: &str, parts: Vec<String>, instruction: &str)
    ensures
        step_models(final(out)@) == step_models(old(out)@).push(
            parts_step(name@, strings(parts@), instruction@),
        ),
{
    let ghost start = out@;
    let step = AssemblyStep {
        name: name.to_string(),
        components: parts,
        wire_layer: None,
        instruction: instruction.to_string(),
    };
    out.push(step);
    proof {
        assert(step_models(out@) =~= step_models(start).push(step_model(step)));
    }
}

fn add_layer(out: &mut Vec<AssemblyStep>, name: &str, layer: &str, instruction: &str)
    ensures
        step_models(final(out)@) == step_models(old(out)@).push(
            layer_step(name@, layer@, instruction@),
        ),
{
    let ghost start = out@;
    let step = AssemblyStep {
        name: name.to_string(),
        components: Vec::new(),
        wire_layer: Some(layer.to_string()),
        instruction: instruction.to_string(),
    };
    out.push(step);
    proof {
        assert(strings(step.components@) =~= Seq::empty());
        assert(step_models(out@) =~= step_models(start).push(step_model(step)));
    }
}

fn add_plain(out: &mut Vec<AssemblyStep>, name: &str, instruction: &str)
    ensures
        step_models(final(out)@) == step_models(old(out)@).push(plain_step(name@, instruction@)),
{
    let ghost start = out@;
    let step = AssemblyStep {
        name: name.to_string(),
        components: Vec::new(),
        wire_layer: None,
        instruction: instruction.to_string(),
    };
    out.push(step);
    proof {
        assert(strings(step.components@) =~= Seq::empty());
        assert(step_models(out@) =~= step_models(start).push(step_model(step)));
    }
}

/// The steps of laying wires.
pub open spec fn wire_steps(pcb: PcbData) -> Seq<StepModel> {
    step_if(
        pcb.footprints@.len() > 0,
        parts_step(
            "Place components"@,
            references(pcb.footprints@),
            "Insert through-hole components. Bend leads flush to the substrate surface."@,
        ),
    ) + step_if(
        pcb.traces_fcu@.len() > 0,
        layer_step(
            "Lay front-copper wires (F.Cu)"@,
            "F.Cu"@,
            "Lay 30 AWG wire into each highlighted groove on the TOP surface. Solder at each pad hole."@,
        ),
    ) + step_if(
        pcb.traces_bcu@.len() > 0,
        layer_step(
            "Lay back-copper wires (B.Cu)"@,
            "B.Cu"@,
            "Lay 30 AWG wire into each highlighted groove on the BOTTOM surface. Solder at each pad hole."@,
        ),
    ) + step_if(
        pcb.vias@.len() > 0,
        plain_step(
            "Connect vias"@,
            "Insert copper eyelets into each via hole and solder top and bottom to bridge layers."@,
        ),
    )
}

/// The steps of laying wires.
pub fn default_steps_copper_wire(pcb: &PcbData) -> (out: Vec<AssemblyStep>)
    ensures
        step_models(out@) == wire_steps(*pcb),
{
    let mut out: Vec<AssemblyStep> = Vec::new();
    proof {
        assert(step_models(out@) =~= Seq::empty());
    }
    if pcb.footprints.len() > 0 {
        let parts = read_references(&pcb.footprints);
        add_parts(
            &mut out,
            "Place components",
            parts,
            "Insert through-hole components. Bend leads flush to the substrate surface.",
        );
    }
    if pcb.traces_fcu.len() > 0 {
        add_layer(
            &mut out,
            "Lay front-copper wires (F.Cu)",
            "F.Cu",
            "Lay 30 AWG wire into each highlighted groove on the TOP surface. Solder at each pad hole.",
        );
    }
    if pcb.traces_bcu.len() > 0 {
        add_layer(
            &mut out,
            "Lay back-copper wires (B.Cu)",
            "B.Cu",
            "Lay 30 AWG wire into each highlighted groove on the BOTTOM surface. Solder at each pad hole.",
        );
    }
    if pcb.vias.len() > 0 {
        add_plain(
            &mut out,
            "Connect vias",
            "Insert copper eyelets into each via hole and solder top and bottom to bridge layers.",
        );
    }
    proof {
        assert(step_models(out@) =~= wire_steps(*pcb));
    }
    out
}

/// The longest length that plating is worked out for, a kilometre.
pub const LONGEST: i64 = 1_000_000_000_000;

/// What plating a board takes.
#[derive(Clone, Copy, Debug, PartialEq, Eq, Structural)]
pub struct PlatingStats {
    /// The length of all traces, in nanometres.
    pub length: i64,
    /// The area of copper seen from above, in millionths of a square centimetre.
    pub projected: i128,
    /// The area of the walls and floors of the grooves, in millionths of a square
    /// centimetre.
    pub wetted: i128,
    /// The current, in millionths of a milliampere.
    pub current: i128,
    /// The time to fill the grooves, in millionths of a minute.
    pub minutes: i128,
}

/// An area of a length and a width in nanometres, in millionths of a square
/// centimetre.
pub open spec fn area(length: int, width: int) -> int {
    length * width / 100_000_000
}

/// The width of what is wetted in a groove: its floor and both walls.
pub open spec fn wetted_width(width: int, depth: int) -> int {
    width + 2 * depth
}

/// The time to fill grooves, in millionths of a minute. A groove is filled by copper
/// of 8.96 g/cm³, of 63.55 g/mol and two charges, at 95 % efficiency and 20 mA for
/// each wetted square centimetre, so the time does not depend on the length.
pub open spec fn fill_time(length: int, width: int, depth: int) -> int {
    if length * wetted_width(width, depth) > 0 {
        width * depth * 172_901_120 / (wetted_width(width, depth) * 72_447)
    } else {
        0
    }
}

/// What plating traces of a length takes, in grooves of a width and a depth.
pub fn plating_stats(length: i64, channel_width: i64, channel_depth: i64) -> (s: PlatingStats)
    requires
        0 <= length <= LONGEST,
        0 <= channel_width <= LONGEST,
        0 <= channel_depth <= LONGEST,
    ensures
        s.length == length,
        s.projected == area(length as int, channel_width as int),
        s.wetted == area(length as int, wetted_width(channel_width as int, channel_depth as int)),
        s.current == 20 * s.wetted,
        s.minutes == fill_time(length as int, channel_width as int, channel_depth as int),
        0 <= s.projected <= 0x1_0000_0000_0000_0000,
        0 <= s.wetted <= 0x1_0000_0000_0000_0000,
        0 <= s.minutes <= 0x1_0000_0000_0000_0000,
{
    let l: i128 = length as i128;
    let w: i128 = channel_width as i128;
    let d: i128 = channel_depth as i128;
    let wet: i128 = w + 2 * d;
    proof {
        assert(0 <= l * w <= 1_000_000_000_000 * 1_000_000_000_000) by (nonlinear_arith)
            requires
                0 <= l <= 1_000_000_000_000,
                0 <= w <= 1_000_000_000_000,
        ;
        assert(0 <= l * wet <= 1_000_000_000_000 * 3_000_000_000_000) by (nonlinear_arith)
            requires
                0 <= l <= 1_000_000_000_000,
                0 <= wet <= 3_000_000_000_000,
        ;
        assert(0 <= w * d <= 1_000_000_000_000 * 1_000_000_000_000) by (nonlinear_arith)
            requires
                0 <= w <= 1_000_000_000_000,
                0 <= d <= 1_000_000_000_000,
        ;
    }
    let projected: i128 = l * w / 100_000_000;
    let wetted: i128 = l * wet / 100_000_000;
    let minutes: i128 = if l * wet > 0 {
        let wd: i128 = w * d;
        proof {
            assert(wet > 0) by (nonlinear_arith)
                requires
                    l * wet > 0,
                    0 <= l,
                    0 <= wet,
            ;
            assert(wd * 172_901_120 <= 1_000_000_000_000 * 172_901_120 * wet) by (nonlinear_arith)
                requires
                    wd == w * d,
                    0 <= w <= wet,
                    0 <= d <= 1_000_000_000_000,
            ;
            assert(0 <= wd * 172_901_120 / (wet * 72_447) <= 2_387_000_000_000_000)
                by (nonlinear_arith)
                requires
                    0 <= wd,
                    wd * 172_901_120 <= 1_000_000_000_000 * 172_901_120 * wet,
                    wet > 0,
            ;
        }
        wd * 172_901_120 / (wet * 72_447)
    } else {
        0
    };
    PlatingStats { length, projected, wetted, current: 20 * wetted, minutes }
}

/// What is to be done to plate the grooves.
pub open spec fn plating_text(s: PlatingStats, depth: int) -> Seq<char> {
    "Connect the board as cathode in a copper sulfate (CuSO₄) bath. Copper to plate: ≈ "@ + fixed(
        s.wetted as int,
        10,
    ) + " cm² wetted groove surface ("@ + fixed(s.projected as int, 10) + " cm² projected, "@
        + fixed(s.length as int, 1) + " mm total trace). Recommended current: ≈ "@ + fixed(
        s.current as int,
        1,
    ) + " mA (at 20 mA/cm²), 1–2 V. Rough time to fill the "@ + fixed(depth, 10)
        + " mm grooves: ≈ "@ + fixed(s.minutes as int, 1)
        + " min — scales inversely with current and is only an estimate (the wetted area shrinks as grooves fill), so finish by visual fill + continuity check rather than the clock. Rinse and dry when done."@
}

/// What is to be done to plate the grooves.
pub fn electroplate_instruction(s: &PlatingStats, channel_depth: i64) -> (out: String)
    requires
        0 <= s.projected <= 0x1_0000_0000_0000_0000,
        0 <= s.wetted <= 0x1_0000_0000_0000_0000,
        0 <= s.current <= 0x20_0000_0000_0000_0000,
        0 <= s.minutes <= 0x1_0000_0000_0000_0000,
    ensures
        out@ == plating_text(*s, channel_depth as int),
{
    let mut out = to_chars(
        "Connect the board as cathode in a copper sulfate (CuSO₄) bath. Copper to plate: ≈ ",
    );
    extend_fixed(&mut out, s.wetted, 10);
    extend_str(&mut out, " cm² wetted groove surface (");
    extend_fixed(&mut out, s.projected, 10);
    extend_str(&mut out, " cm² projected, ");
    extend_fixed(&mut out, s.length as i128, 1);
    extend_str(&mut out, " mm total trace). Recommended current: ≈ ");
    extend_fixed(&mut out, s.current, 1);
    extend_str(&mut out, " mA (at 20 mA/cm²), 1–2 V. Rough time to fill the ");
    extend_fixed(&mut out, channel_depth as i128, 10);
    extend_str(&mut out, " mm grooves: ≈ ");
    extend_fixed(&mut out, s.minutes, 1);
    extend_str(
        &mut out,
        " min — scales inversely with current and is only an estimate (the wetted area shrinks as grooves fill), so finish by visual fill + continuity check rather than the clock. Rinse and dry when done.",
    );
    to_text(out.as_slice())
}

/// What is to be done to seed the grooves of one side.
pub open spec fn seed_text(top: bool, stencil: bool) -> Seq<char> {
    if stencil {
        if top {
            "Snap the TOP stencil (boardname_stencil_top.stl) onto the substrate, squeegee conductive seed paint across it so it fills the highlighted grooves and the bus rail/stubs, then lift it off. Let dry completely."@
        } else {
            "Snap the BOTTOM stencil (boardname_stencil_bottom.stl) onto the substrate, squeegee conductive seed paint across it so it fills the highlighted grooves and the bus rail/stubs, then lift it off. Let dry completely."@
        }
    } else if top {
        "Apply conductive primer to all highlighted grooves on the TOP surface. Let dry completely."@
    } else {
        "Apply conductive primer to all highlighted grooves on the BOTTOM surface. Let dry completely."@
    }
}

fn seed_instruction(top: bool, stencil: bool) -> (out: &'static str)
    ensures
        out@ == seed_text(top, stencil),
{
    if stencil {
        if top {
            "Snap the TOP stencil (boardname_stencil_top.stl) onto the substrate, squeegee conductive seed paint across it so it fills the highlighted grooves and the bus rail/stubs, then lift it off. Let dry completely."
        } else {
            "Snap the BOTTOM stencil (boardname_stencil_bottom.stl) onto the substrate, squeegee conductive seed paint across it so it fills the highlighted grooves and the bus rail/stubs, then lift it off. Let dry completely."
        }
    } else if top {
        "Apply conductive primer to all highlighted grooves on the TOP surface. Let dry completely."
    } else {
        "Apply conductive primer to all highlighted grooves on the BOTTOM surface. Let dry completely."
    }
}

/// The steps of plating. A bus is printed, and ground off, only with a stencil.
/// `plating` is what is to be done in the bath.
pub open spec fn plating_steps(
    pcb: PcbData,
    stencil: bool,
    bus: bool,
    plating: Seq<char>,
) -> Seq<StepModel> {
    let copper = pcb.traces_fcu@.len() > 0 || pcb.traces_bcu@.len() > 0;
    step_if(
        pcb.footprints@.len() > 0,
        parts_step(
            "Place components"@,
            references(pcb.footprints@),
            "Insert through-hole components into the substrate. Do not solder yet."@,
        ),
    ) + step_if(
        pcb.traces_fcu@.len() > 0,
        layer_step("Prime front-copper grooves (F.Cu)"@, "F.Cu"@, seed_text(true, stencil)),
    ) + step_if(
        pcb.traces_bcu@.len() > 0,
        layer_step("Prime back-copper grooves (B.Cu)"@, "B.Cu"@, seed_text(false, stencil)),
    ) + step_if(copper, plain_step("Electroplate copper"@, plating)) + step_if(
        copper && stencil && bus,
        plain_step(
            "Grind off the plating bus"@,
            "Sand or grind the raised bus rail and stubs flush with the surface to isolate the traces. The traces sit recessed in their grooves, so they stay untouched. Re-check continuity afterward — adjacent nets should now read open."@,
        ),
    ) + step_if(
        pcb.vias@.len() > 0,
        plain_step(
            "Connect vias"@,
            "Insert copper eyelets into each via hole and solder top and bottom to bridge layers."@,
        ),
    ) + seq![
        plain_step(
            "Test traces"@,
            "Use a multimeter in continuity mode to verify each copper trace before soldering. See the Continuity Test tab."@,
        ),
    ]
}

/// The steps of plating.
pub fn default_steps_electrolysis(pcb: &PcbData, stencil: bool, bus: bool, plating: &str) -> (out: Vec<
    AssemblyStep,
>)
    ensures
        step_models(out@) == plating_steps(*pcb, stencil, bus, plating@),
{
    let mut out: Vec<AssemblyStep> = Vec::new();
    proof {
        assert(step_models(out@) =~= Seq::empty());
    }
    if pcb.footprints.len() > 0 {
        let parts = read_references(&pcb.footprints);
        add_parts(
            &mut out,
            "Place components",
            parts,
            "Insert through-hole components into the substrate. Do not solder yet.",
        );
    }
    if pcb.traces_fcu.len() > 0 {
        add_layer(
            &mut out,
            "Prime front-copper grooves (F.Cu)",
            "F.Cu",
            seed_instruction(true, stencil),
        );
    }
    if pcb.traces_bcu.len() > 0 {
        add_layer(
            &mut out,
            "Prime back-copper grooves (B.Cu)",
            "B.Cu",
            seed_instruction(false, stencil),
        );
    }
    if pcb.traces_fcu.len() > 0 || pcb.traces_bcu.len() > 0 {
        add_plain(&mut out, "Electroplate copper", plating);
        if stencil && bus {
            add_plain(
                &mut out,
                "Grind off the plating bus",
                "Sand or grind the raised bus rail and stubs flush with the surface to isolate the traces. The traces sit recessed in their grooves, so they stay untouched. Re-check continuity afterward — adjacent nets should now read open.",
            );
        }
    }
    if pcb.vias.len() > 0 {
        add_plain(
            &mut out,
            "Connect vias",
            "Insert copper eyelets into each via hole and solder top and bottom to bridge layers.",
        );
    }
    add_plain(
        &mut out,
        "Test traces",
        "Use a multimeter in continuity mode to verify each copper trace before soldering. See the Continuity Test tab.",
    );
    proof {
        assert(step_models(out@) =~= plating_steps(*pcb, stencil, bus, plating@));
    }
    out
}

/// Whether plating can be worked out in whole numbers.
pub open spec fn fits_plating(length: i64, c: Config) -> bool {
    &&& 0 <= length <= LONGEST
    &&& 0 <= c.channel_width <= LONGEST
    &&& 0 <= c.channel_depth <= LONGEST
}

/// Whether the guide says how to plate: no steps of its own are set, and plating is the
/// mode.
pub open spec fn says_plating(c: Config) -> bool {
    c.assembly_steps@.len() == 0 && c.mode == Mode::Electrolysis
}

/// The figures that plating comes to.
pub open spec fn figures(length: i64, c: Config) -> PlatingStats {
    let wet = area(length as int, wetted_width(c.channel_width as int, c.channel_depth as int));
    PlatingStats {
        length,
        projected: area(length as int, c.channel_width as int) as i128,
        wetted: wet as i128,
        current: (20 * wet) as i128,
        minutes: fill_time(length as int, c.channel_width as int, c.channel_depth as int) as i128,
    }
}

/// The steps of the guide: those of the settings, else those that are usual for the
/// mode. `length` is the length of all traces.
pub open spec fn guide_steps(pcb: PcbData, c: Config, length: i64) -> Seq<StepModel> {
    if c.assembly_steps@.len() > 0 {
        step_models(c.assembly_steps@)
    } else {
        match c.mode {
            Mode::CopperWire => wire_steps(pcb),
            Mode::Electrolysis => plating_steps(
                pcb,
                c.generate_stencil,
                c.stencil_plating_bus,
                plating_text(figures(length, c), c.channel_depth as int),
            ),
        }
    }
}

fn copy_text(text: &Option<String>) -> (out: Option<String>)
    ensures
        (match out {
            Some(t) => Some(t@),
            None => None,
        }) == (match *text {
            Some(t) => Some(t@),
            None => None,
        }),
{
    match text {
        Some(t) => Some(t.clone()),
        None => None,
    }
}

fn copy_texts(list: &Vec<String>) -> (out: Vec<String>)
    ensures
        strings(out@) == strings(list@),
{
    let mut out: Vec<String> = Vec::new();
    while out.len() < list.len()
        invariant
            out@.len() <= list@.len(),
            forall|i: int| 0 <= i < out@.len() ==> (#[trigger] out@[i])@ == list@[i]@,
        decreases list@.len() - out@.len(),
    {
        let i: usize = out.len();
        out.push(list[i].clone());
    }
    proof {
        assert(strings(out@) =~= strings(list@));
    }
    out
}

/// The steps of the guide.
pub fn choose_steps(pcb: &PcbData, config: &Config, length: i64) -> (out: Vec<AssemblyStep>)
    requires
        says_plating(*config) ==> fits_plating(length, *config),
    ensures
        step_models(out@) == guide_steps(*pcb, *config, length),
{
    if config.assembly_steps.len() > 0 {
        let mut out: Vec<AssemblyStep> = Vec::new();
        while out.len() < config.assembly_steps.len()
            invariant
                out@.len() <= config.assembly_steps@.len(),
                forall|i: int|
                    0 <= i < out@.len() ==> step_model(#[trigger] out@[i]) == step_model(
                        config.assembly_steps@[i],
                    ),
            decreases config.assembly_steps@.len() - out@.len(),
        {
            let s = &config.assembly_steps[out.len()];
            out.push(
                AssemblyStep {
                    name: s.name.clone(),
                    components: copy_texts(&s.components),
                    wire_layer: copy_text(&s.wire_layer),
                    instruction: s.instruction.clone(),
                },
            );
        }
        proof {
            assert(step_models(out@) =~= step_models(config.assembly_steps@));
        }
        return out;
    }
    match config.mode {
        Mode::CopperWire => default_steps_copper_wire(pcb),
        Mode::Electrolysis => {
            let stats = plating_stats(length, config.channel_width, config.channel_depth);
            let text = electroplate_instruction(&stats, config.channel_depth);
            proof {
                assert(stats == figures(length, *config));
            }
            default_steps_electrolysis(
                pcb,
                config.generate_stencil,
                config.stencil_plating_bus,
                text.as_str(),
            )
        },
    }
}

} // verus!
