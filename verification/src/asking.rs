//! What settings and arguments come to: each key and each argument sets its own setting,
//! and what is asked for on the command line wins.

use crate::choices::{
    lowercase, ChannelProfile, Mode, OutputFormat, StencilMount, ViaStyle,
};
use crate::config::{holds_settings, is_merged, says, Arguments, CliOverrides, Config};
use crate::pcb::Trace;
use crate::reading::PadModel;
use crate::scaling::{scaled, scaled_pad, scaled_trace};
use crate::toml_text::{value_at, ValueModel};
use vstd::prelude::*;

verus! {

/// A number that an argument gives is the setting of its name; without the argument the
/// setting stays what it was. What is switched off is off, and what is asked for is on.
pub proof fn lemma_command_line_wins(now: Config, was: Config, over: CliOverrides, args: Arguments)
    requires
        says(over, args),
        is_merged(now, was, over),
    ensures
        args.channel_width matches Some(v) ==> now.channel_width == v,
        args.channel_width is None ==> now.channel_width == was.channel_width,
        args.channel_depth matches Some(v) ==> now.channel_depth == v,
        args.channel_depth is None ==> now.channel_depth == was.channel_depth,
        args.channel_floor_width matches Some(v) ==> now.channel_floor_width == v,
        args.channel_floor_width is None ==> now.channel_floor_width == was.channel_floor_width,
        args.taper_slice_height matches Some(v) ==> now.taper_slice_height == v,
        args.taper_slice_height is None ==> now.taper_slice_height == was.taper_slice_height,
        args.cone_angle matches Some(v) ==> now.cone_angle == v,
        args.cone_angle is None ==> now.cone_angle == was.cone_angle,
        args.throat_height matches Some(v) ==> now.throat_height == v,
        args.throat_height is None ==> now.throat_height == was.throat_height,
        args.min_rim matches Some(v) ==> now.min_rim == v,
        args.min_rim is None ==> now.min_rim == was.min_rim,
        args.eyelet_diameter matches Some(v) ==> now.eyelet_diameter == v,
        args.eyelet_diameter is None ==> now.eyelet_diameter == was.eyelet_diameter,
        args.indent_depth matches Some(v) ==> now.indent_depth == v,
        args.indent_depth is None ==> now.indent_depth == was.indent_depth,
        args.pad_hole_diameter matches Some(v) ==> now.pad_hole_diameter == v,
        args.pad_hole_diameter is None ==> now.pad_hole_diameter == was.pad_hole_diameter,
        args.substrate_thickness matches Some(v) ==> now.substrate_thickness == v,
        args.substrate_thickness is None ==> now.substrate_thickness == was.substrate_thickness,
        args.scale matches Some(v) ==> now.scale_factor == v,
        args.scale is None ==> now.scale_factor == was.scale_factor,
        args.no_pad_holes ==> !now.generate_pad_holes,
        !args.no_pad_holes ==> now.generate_pad_holes == was.generate_pad_holes,
        args.no_pad_lands ==> !now.generate_pad_lands,
        !args.no_pad_lands ==> now.generate_pad_lands == was.generate_pad_lands,
        args.no_via_indents ==> !now.generate_via_indents,
        !args.no_via_indents ==> now.generate_via_indents == was.generate_via_indents,
        args.stencil ==> now.generate_stencil,
        !args.stencil ==> now.generate_stencil == was.generate_stencil,
        args.plating_bus ==> now.stencil_plating_bus,
        !args.plating_bus ==> now.stencil_plating_bus == was.stencil_plating_bus,
        args.output_dir matches Some(t) ==> now.output_dir@ == t@,
        args.output_dir is None ==> now.output_dir@ == was.output_dir@,
        args.via_style is None ==> now.via_style == was.via_style,
        args.channel_profile is None ==> now.channel_profile == was.channel_profile,
        args.eyelet_style is None ==> now.eyelet_style == was.eyelet_style,
        args.format is None ==> now.output_format == was.output_format,
        args.stencil_mount is None ==> now.stencil_mount == was.stencil_mount,
        now.mode == was.mode,
        now.assembly_steps == was.assembly_steps,
        now.stencil_thickness == was.stencil_thickness,
        now.stencil_slot_clearance == was.stencil_slot_clearance,
        now.stencil_wall_height == was.stencil_wall_height,
        now.stencil_wall_thickness == was.stencil_wall_thickness,
        now.stencil_fit_clearance == was.stencil_fit_clearance,
        now.bus_width == was.bus_width,
        now.bus_inset == was.bus_inset,
        now.bus_tie_width == was.bus_tie_width,
        now.ring_lip_overlap == was.ring_lip_overlap,
        now.ring_lip_height == was.ring_lip_height,
        now.bus_tie_count == was.bus_tie_count,
{
}

/// A name on the command line, in capitals or not, chooses what it names.
pub proof fn lemma_names_choose(over: CliOverrides, args: Arguments)
    requires
        says(over, args),
    ensures
        args.mode matches Some(t) ==> {
            &&& lowercase(t@) == "copper-wire"@ ==> over.mode == Some(Mode::CopperWire)
            &&& lowercase(t@) == "electrolysis"@ ==> over.mode == Some(Mode::Electrolysis)
        },
        args.via_style matches Some(t) ==> {
            &&& lowercase(t@) == "straight"@ ==> over.via_style == Some(ViaStyle::Straight)
            &&& lowercase(t@) == "cone"@ ==> over.via_style == Some(ViaStyle::Cone)
        },
        args.stencil_mount matches Some(t) ==> {
            &&& lowercase(t@) == "lip"@ ==> over.stencil_mount == Some(StencilMount::Lip)
            &&& lowercase(t@) == "ring"@ ==> over.stencil_mount == Some(StencilMount::Ring)
        },
        args.channel_profile matches Some(t) ==> {
            &&& lowercase(t@) == "rect"@ ==> over.channel_profile == Some(ChannelProfile::Rect)
            &&& lowercase(t@) == "vee"@ ==> over.channel_profile == Some(ChannelProfile::Vee)
        },
        args.format matches Some(t) ==> {
            &&& lowercase(t@) == "stl"@ ==> over.output_format == Some(OutputFormat::Stl)
            &&& lowercase(t@) == "3mf"@ ==> over.output_format == Some(OutputFormat::ThreeM)
            &&& lowercase(t@) == "both"@ ==> over.output_format == Some(OutputFormat::Both)
        },
{
    reveal_strlit("copper-wire");
    reveal_strlit("wire");
    reveal_strlit("electrolysis");
    reveal_strlit("straight");
    reveal_strlit("bore");
    reveal_strlit("hole");
    reveal_strlit("cone");
    reveal_strlit("lip");
    reveal_strlit("integral");
    reveal_strlit("ring");
    reveal_strlit("clamp");
    reveal_strlit("rect");
    reveal_strlit("rectangular");
    reveal_strlit("square");
    reveal_strlit("u");
    reveal_strlit("trapezoid");
    reveal_strlit("trap");
    reveal_strlit("vee");
    reveal_strlit("stl");
    reveal_strlit("3mf");
    reveal_strlit("both");
    assert("copper-wire"@.len() == 11 && "wire"@.len() == 4 && "electrolysis"@.len() == 12);
    assert("straight"@.len() == 8 && "bore"@.len() == 4 && "hole"@.len() == 4);
    assert("cone"@.len() == 4 && "cone"@[0] == 'c' && "bore"@[0] == 'b' && "hole"@[0] == 'h');
    assert("lip"@.len() == 3 && "integral"@.len() == 8 && "ring"@.len() == 4);
    assert("rectangular"@.len() == 11 && "square"@.len() == 6 && "u"@.len() == 1);
    assert("rect"@.len() == 4 && "trapezoid"@.len() == 9 && "trap"@.len() == 4 && "vee"@.len() == 3);
    assert("stl"@.len() == 3 && "3mf"@.len() == 3 && "both"@.len() == 4);
    assert("stl"@[0] == 's' && "3mf"@[0] == '3');
}

/// A whole number that a key of a settings file gives is the setting of its name, in
/// millionths; a key that is not there leaves what is built in.
pub proof fn lemma_key_sets_its_setting(c: Config, list: Seq<(Seq<char>, ValueModel)>, n: int)
    requires
        holds_settings(c, list),
        -1_000_000 <= n <= 1_000_000,
    ensures
        value_at(list, "channel_width_mm"@) == Some(ValueModel::Whole(n)) ==> c.channel_width == n * 1_000_000,
        value_at(list, "channel_width_mm"@) is None ==> c.channel_width == 1_200_000,
        value_at(list, "channel_depth_mm"@) == Some(ValueModel::Whole(n)) ==> c.channel_depth == n * 1_000_000,
        value_at(list, "channel_depth_mm"@) is None ==> c.channel_depth == 500_000,
        value_at(list, "channel_floor_width_mm"@) == Some(ValueModel::Whole(n)) ==> c.channel_floor_width == n * 1_000_000,
        value_at(list, "channel_floor_width_mm"@) is None ==> c.channel_floor_width == 400_000,
        value_at(list, "taper_slice_height_mm"@) == Some(ValueModel::Whole(n)) ==> c.taper_slice_height == n * 1_000_000,
        value_at(list, "taper_slice_height_mm"@) is None ==> c.taper_slice_height == 200_000,
        value_at(list, "cone_angle_deg"@) == Some(ValueModel::Whole(n)) ==> c.cone_angle == n * 1_000_000,
        value_at(list, "cone_angle_deg"@) is None ==> c.cone_angle == 45_000_000,
        value_at(list, "throat_height_mm"@) == Some(ValueModel::Whole(n)) ==> c.throat_height == n * 1_000_000,
        value_at(list, "throat_height_mm"@) is None ==> c.throat_height == 400_000,
        value_at(list, "min_rim_mm"@) == Some(ValueModel::Whole(n)) ==> c.min_rim == n * 1_000_000,
        value_at(list, "min_rim_mm"@) is None ==> c.min_rim == 300_000,
        value_at(list, "eyelet_diameter_mm"@) == Some(ValueModel::Whole(n)) ==> c.eyelet_diameter == n * 1_000_000,
        value_at(list, "eyelet_diameter_mm"@) is None ==> c.eyelet_diameter == 1_500_000,
        value_at(list, "indent_depth_mm"@) == Some(ValueModel::Whole(n)) ==> c.indent_depth == n * 1_000_000,
        value_at(list, "indent_depth_mm"@) is None ==> c.indent_depth == 300_000,
        value_at(list, "pad_hole_diameter_mm"@) == Some(ValueModel::Whole(n)) ==> c.pad_hole_diameter == n * 1_000_000,
        value_at(list, "pad_hole_diameter_mm"@) is None ==> c.pad_hole_diameter == 800_000,
        value_at(list, "substrate_thickness_mm"@) == Some(ValueModel::Whole(n)) ==> c.substrate_thickness == n * 1_000_000,
        value_at(list, "substrate_thickness_mm"@) is None ==> c.substrate_thickness == 3_000_000,
        value_at(list, "scale_factor"@) == Some(ValueModel::Whole(n)) ==> c.scale_factor == n * 1_000_000,
        value_at(list, "scale_factor"@) is None ==> c.scale_factor == 0,
        value_at(list, "stencil_thickness_mm"@) == Some(ValueModel::Whole(n)) ==> c.stencil_thickness == n * 1_000_000,
        value_at(list, "stencil_thickness_mm"@) is None ==> c.stencil_thickness == 500_000,
        value_at(list, "stencil_slot_clearance_mm"@) == Some(ValueModel::Whole(n)) ==> c.stencil_slot_clearance == n * 1_000_000,
        value_at(list, "stencil_slot_clearance_mm"@) is None ==> c.stencil_slot_clearance == 100_000,
        value_at(list, "stencil_wall_height_mm"@) == Some(ValueModel::Whole(n)) ==> c.stencil_wall_height == n * 1_000_000,
        value_at(list, "stencil_wall_height_mm"@) is None ==> c.stencil_wall_height == 1_200_000,
        value_at(list, "stencil_wall_thickness_mm"@) == Some(ValueModel::Whole(n)) ==> c.stencil_wall_thickness == n * 1_000_000,
        value_at(list, "stencil_wall_thickness_mm"@) is None ==> c.stencil_wall_thickness == 1_500_000,
        value_at(list, "stencil_fit_clearance_mm"@) == Some(ValueModel::Whole(n)) ==> c.stencil_fit_clearance == n * 1_000_000,
        value_at(list, "stencil_fit_clearance_mm"@) is None ==> c.stencil_fit_clearance == 150_000,
        value_at(list, "bus_width_mm"@) == Some(ValueModel::Whole(n)) ==> c.bus_width == n * 1_000_000,
        value_at(list, "bus_width_mm"@) is None ==> c.bus_width == 1_000_000,
        value_at(list, "bus_inset_mm"@) == Some(ValueModel::Whole(n)) ==> c.bus_inset == n * 1_000_000,
        value_at(list, "bus_inset_mm"@) is None ==> c.bus_inset == 1_500_000,
        value_at(list, "bus_tie_width_mm"@) == Some(ValueModel::Whole(n)) ==> c.bus_tie_width == n * 1_000_000,
        value_at(list, "bus_tie_width_mm"@) is None ==> c.bus_tie_width == 2_500_000,
        value_at(list, "ring_lip_overlap_mm"@) == Some(ValueModel::Whole(n)) ==> c.ring_lip_overlap == n * 1_000_000,
        value_at(list, "ring_lip_overlap_mm"@) is None ==> c.ring_lip_overlap == 1_500_000,
        value_at(list, "ring_lip_height_mm"@) == Some(ValueModel::Whole(n)) ==> c.ring_lip_height == n * 1_000_000,
        value_at(list, "ring_lip_height_mm"@) is None ==> c.ring_lip_height == 1_000_000,
        value_at(list, "generate_pad_holes"@) matches Some(ValueModel::Flag(b)) ==> c.generate_pad_holes == b,
        value_at(list, "generate_pad_holes"@) is None ==> c.generate_pad_holes == true,
        value_at(list, "generate_via_indents"@) matches Some(ValueModel::Flag(b)) ==> c.generate_via_indents == b,
        value_at(list, "generate_via_indents"@) is None ==> c.generate_via_indents == true,
        value_at(list, "generate_pad_lands"@) matches Some(ValueModel::Flag(b)) ==> c.generate_pad_lands == b,
        value_at(list, "generate_pad_lands"@) is None ==> c.generate_pad_lands == true,
        value_at(list, "generate_stencil"@) matches Some(ValueModel::Flag(b)) ==> c.generate_stencil == b,
        value_at(list, "generate_stencil"@) is None ==> c.generate_stencil == false,
        value_at(list, "stencil_plating_bus"@) matches Some(ValueModel::Flag(b)) ==> c.stencil_plating_bus == b,
        value_at(list, "stencil_plating_bus"@) is None ==> c.stencil_plating_bus == false,
        value_at(list, "output_dir"@) matches Some(ValueModel::Text(t)) ==> c.output_dir@ == t,
        value_at(list, "output_dir"@) is None ==> c.output_dir@ == "./output"@,
        0 <= n && value_at(list, "bus_tie_count"@) == Some(ValueModel::Whole(n)) ==> c.bus_tie_count
            == n,
        value_at(list, "bus_tie_count"@) is None ==> c.bus_tie_count == 0,
{
}

proof fn lemma_times(n: int, k: int)
    requires
        i64::MIN <= n * k <= i64::MAX,
    ensures
        scaled(n, k * 1_000_000) == n * k,
{
    let v = n * k;
    assert(n * (k * 1_000_000) == v * 1_000_000) by (nonlinear_arith)
        requires
            v == n * k,
    ;
}

/// At a whole scale a trace and a pad are so many times as far out, as wide and as high,
/// with holes so many times as large; nothing else about them changes.
pub proof fn lemma_scale_is_a_factor(t: Trace, p: PadModel, k: int)
    requires
        i64::MIN <= t.start.x * k <= i64::MAX,
        i64::MIN <= t.start.y * k <= i64::MAX,
        i64::MIN <= t.end.x * k <= i64::MAX,
        i64::MIN <= t.end.y * k <= i64::MAX,
        i64::MIN <= t.width * k <= i64::MAX,
        i64::MIN <= p.center.x * k <= i64::MAX,
        i64::MIN <= p.center.y * k <= i64::MAX,
        i64::MIN <= p.width * k <= i64::MAX,
        i64::MIN <= p.height * k <= i64::MAX,
        i64::MIN <= p.drill * k <= i64::MAX,
        i64::MIN <= p.drill_h * k <= i64::MAX,
    ensures
        ({
            let u = scaled_trace(t, k * 1_000_000);
            &&& u.layer == t.layer
            &&& u.start.x == t.start.x * k
            &&& u.start.y == t.start.y * k
            &&& u.end.x == t.end.x * k
            &&& u.end.y == t.end.y * k
            &&& u.width == t.width * k
        }),
        ({
            let q = scaled_pad(p, k * 1_000_000);
            &&& q.center.x == p.center.x * k
            &&& q.center.y == p.center.y * k
            &&& q.width == p.width * k
            &&& q.height == p.height * k
            &&& q.drill == p.drill * k
            &&& q.drill_h == p.drill_h * k
            &&& q.rotation == p.rotation
            &&& q.shape == p.shape
            &&& q.number == p.number
            &&& q.on_fcu == p.on_fcu
            &&& q.on_bcu == p.on_bcu
            &&& q.net_name == p.net_name
        }),
{
    lemma_times(t.start.x as int, k);
    lemma_times(t.start.y as int, k);
    lemma_times(t.end.x as int, k);
    lemma_times(t.end.y as int, k);
    lemma_times(t.width as int, k);
    lemma_times(p.center.x as int, k);
    lemma_times(p.center.y as int, k);
    lemma_times(p.width, k);
    lemma_times(p.height, k);
    lemma_times(p.drill, k);
    lemma_times(p.drill_h, k);
}

} // verus!
