//! Settings: where they come from, and what beats what.
//!
//! Lengths are in nanometres, other numbers in millionths. Built-in values are
//! overlaid by those of the mode, those by the settings file, and those by what is
//! asked for on the command line.

use crate::choices::{
    channel_profile_named, channel_profile_written, eyelet_style_name, eyelet_style_named,
    eyelet_style_written, lowercase, mode_name, mode_named, mode_written, output_format_name,
    output_format_named, output_format_written, stencil_mount_name, stencil_mount_named,
    stencil_mount_written, unknown, via_style_named, via_style_written, ChannelProfile, EyeletStyle,
    Mode, OutputFormat, StencilMount, ViaStyle,
};
use crate::strings::strings;
use crate::tables::{place, TextMap};
use crate::text::{extend_str, same_str, to_chars, to_text};
use crate::toml_text::{
    as_text, count_at, flag_at, get_value, item_model, item_models, lay_over, lemma_overlaid,
    number_at, overlaid, read_count, read_flag, read_number, read_table, read_text, read_texts,
    settings, text_at, texts_at, toml_table, value_at, value_model, ItemModel, TomlItem, TomlValue,
    ValueModel,
};
use crate::units::{extend_hundredths, hundredths};
use vstd::prelude::*;

verus! {

/// One step of the assembly guide.
#[derive(Debug)]
pub struct AssemblyStep {
    /// The heading.
    pub name: String,
    /// References of the parts that are shown.
    pub components: Vec<String>,
    /// The layer whose traces are shown.
    pub wire_layer: Option<String>,
    /// What is to be done.
    pub instruction: String,
}

/// A step in texts.
#[verifier::ext_equal]
pub struct StepModel {
    pub name: Seq<char>,
    pub components: Seq<Seq<char>>,
    pub wire_layer: Option<Seq<char>>,
    pub instruction: Seq<char>,
}

pub open spec fn step_model(s: AssemblyStep) -> StepModel {
    StepModel {
        name: s.name@,
        components: strings(s.components@),
        wire_layer: as_text(s.wire_layer),
        instruction: s.instruction@,
    }
}

pub open spec fn step_models(list: Seq<AssemblyStep>) -> Seq<StepModel> {
    list.map_values(|s: AssemblyStep| step_model(s))
}

impl Default for AssemblyStep {
    fn default() -> (s: Self)
        ensures
            step_model(s) == (StepModel {
                name: Seq::empty(),
                components: Seq::empty(),
                wire_layer: None,
                instruction: Seq::empty(),
            }),
    {
        let s = AssemblyStep {
            name: String::new(),
            components: Vec::new(),
            wire_layer: None,
            instruction: String::new(),
        };
        proof {
            assert(strings(s.components@) =~= Seq::empty());
        }
        s
    }
}

/// All settings.
#[derive(Debug)]
pub struct Config {
    /// Width of the grooves that traces lie in.
    pub channel_width: i64,
    /// Depth of the grooves below the surface.
    pub channel_depth: i64,
    /// Cross-section of the grooves.
    pub channel_profile: ChannelProfile,
    /// Width of the groove floor of a trapezoid; the opening keeps its width.
    pub channel_floor_width: i64,
    /// Height of each step of a sloped wall.
    pub taper_slice_height: i64,
    /// How barrels of through-holes are shaped.
    pub via_style: ViaStyle,
    /// Angle of countersink walls from the surface, in millionths of a degree.
    pub cone_angle: i64,
    /// Height of the straight part where two cones meet.
    pub throat_height: i64,
    /// Least material between a cone mouth and other copper or the board edge.
    pub min_rim: i64,
    /// Without effect; kept so that older files can be read.
    pub eyelet_style: EyeletStyle,
    /// Least diameter of via bores.
    pub eyelet_diameter: i64,
    /// Without effect; kept so that older files can be read.
    pub indent_depth: i64,
    /// Least diameter of pad holes.
    pub pad_hole_diameter: i64,
    /// Thickness of the printed board.
    pub substrate_thickness: i64,
    /// Scale of the board in millionths; zero stands for true size.
    pub scale_factor: i64,
    /// Which model files are written.
    pub output_format: OutputFormat,
    /// Where output files are written.
    pub output_dir: String,
    /// Whether pads get through-holes.
    pub generate_pad_holes: bool,
    /// Without effect; kept so that older files can be read.
    pub generate_via_indents: bool,
    /// Whether pads get shallow indents in their own shape.
    pub generate_pad_lands: bool,
    /// Whether a paint stencil is made too.
    pub generate_stencil: bool,
    /// Whether the stencil carries a plating bus.
    pub stencil_plating_bus: bool,
    /// Thickness of the stencil plate.
    pub stencil_thickness: i64,
    /// Width added to each stencil slot on each side.
    pub stencil_slot_clearance: i64,
    /// Height of the lip that wraps the board edge.
    pub stencil_wall_height: i64,
    /// Thickness of the lip.
    pub stencil_wall_thickness: i64,
    /// Clearance between the lip and the board edge.
    pub stencil_fit_clearance: i64,
    /// Width of the plating bus rail and its stubs.
    pub bus_width: i64,
    /// Distance of the bus rail from the board edge.
    pub bus_inset: i64,
    /// Width of each tie-bar.
    pub bus_tie_width: i64,
    /// How many tie-bars cross the rail; zero leaves it to the size of the board.
    pub bus_tie_count: u32,
    /// How the stencil is held on the board.
    pub stencil_mount: StencilMount,
    /// How far the clamp ring covers the plate.
    pub ring_lip_overlap: i64,
    /// Height of the clamp ring's lip above the plate.
    pub ring_lip_height: i64,
    /// How the board is built.
    pub mode: Mode,
    /// Steps of the assembly guide; if empty, those that are usual for the mode.
    pub assembly_steps: Vec<AssemblyStep>,
}

/// Width of the grooves that traces lie in.
pub fn default_channel_width() -> (n: i64)
    ensures
        n == 1_200_000,
{
    1_200_000
}

/// Depth of the grooves below the surface.
pub fn default_channel_depth() -> (n: i64)
    ensures
        n == 500_000,
{
    500_000
}

/// Cross-section of the grooves.
pub fn default_channel_profile() -> (v: ChannelProfile)
    ensures
        v == ChannelProfile::Rect,
{
    ChannelProfile::Rect
}

/// Width of the groove floor of a trapezoid; the opening keeps its width.
pub fn default_channel_floor_width() -> (n: i64)
    ensures
        n == 400_000,
{
    400_000
}

/// Height of each step of a sloped wall.
pub fn default_taper_slice_height() -> (n: i64)
    ensures
        n == 200_000,
{
    200_000
}

/// How barrels of through-holes are shaped.
pub fn default_via_style() -> (v: ViaStyle)
    ensures
        v == ViaStyle::Straight,
{
    ViaStyle::Straight
}

/// Angle of countersink walls from the surface, in millionths of a degree.
pub fn default_cone_angle() -> (n: i64)
    ensures
        n == 45_000_000,
{
    45_000_000
}

/// Height of the straight part where two cones meet.
pub fn default_throat_height() -> (n: i64)
    ensures
        n == 400_000,
{
    400_000
}

/// Least material between a cone mouth and other copper or the board edge.
pub fn default_min_rim() -> (n: i64)
    ensures
        n == 300_000,
{
    300_000
}

/// Without effect; kept so that older files can be read.
pub fn default_eyelet_style() -> (v: EyeletStyle)
    ensures
        v == EyeletStyle::Hole,
{
    EyeletStyle::Hole
}

/// Least diameter of via bores.
pub fn default_eyelet_diameter() -> (n: i64)
    ensures
        n == 1_500_000,
{
    1_500_000
}

/// Without effect; kept so that older files can be read.
pub fn default_indent_depth() -> (n: i64)
    ensures
        n == 300_000,
{
    300_000
}

/// Least diameter of pad holes.
pub fn default_pad_hole_diameter() -> (n: i64)
    ensures
        n == 800_000,
{
    800_000
}

/// Thickness of the printed board.
pub fn default_substrate_thickness() -> (n: i64)
    ensures
        n == 3_000_000,
{
    3_000_000
}

/// Scale of the board in millionths; zero stands for true size.
pub fn default_scale_factor() -> (n: i64)
    ensures
        n == 0,
{
    0
}

/// Which model files are written.
pub fn default_output_format() -> (v: OutputFormat)
    ensures
        v == OutputFormat::Stl,
{
    OutputFormat::Stl
}

/// Where output files are written.
pub fn default_output_dir() -> (dir: String)
    ensures
        dir@ == "./output"@,
{
    "./output".to_string()
}

/// Whether pads get through-holes.
pub fn default_generate_pad_holes() -> (b: bool)
    ensures
        b == true,
{
    true
}

/// Without effect; kept so that older files can be read.
pub fn default_generate_via_indents() -> (b: bool)
    ensures
        b == true,
{
    true
}

/// Whether pads get shallow indents in their own shape.
pub fn default_generate_pad_lands() -> (b: bool)
    ensures
        b == true,
{
    true
}

/// Whether a paint stencil is made too.
pub fn default_generate_stencil() -> (b: bool)
    ensures
        b == false,
{
    false
}

/// Whether the stencil carries a plating bus.
pub fn default_stencil_plating_bus() -> (b: bool)
    ensures
        b == false,
{
    false
}

/// Thickness of the stencil plate.
pub fn default_stencil_thickness() -> (n: i64)
    ensures
        n == 500_000,
{
    500_000
}

/// Width added to each stencil slot on each side.
pub fn default_stencil_slot_clearance() -> (n: i64)
    ensures
        n == 100_000,
{
    100_000
}

/// Height of the lip that wraps the board edge.
pub fn default_stencil_wall_height() -> (n: i64)
    ensures
        n == 1_200_000,
{
    1_200_000
}

/// Thickness of the lip.
pub fn default_stencil_wall_thickness() -> (n: i64)
    ensures
        n == 1_500_000,
{
    1_500_000
}

/// Clearance between the lip and the board edge.
pub fn default_stencil_fit_clearance() -> (n: i64)
    ensures
        n == 150_000,
{
    150_000
}

/// Width of the plating bus rail and its stubs.
pub fn default_bus_width() -> (n: i64)
    ensures
        n == 1_000_000,
{
    1_000_000
}

/// Distance of the bus rail from the board edge.
pub fn default_bus_inset() -> (n: i64)
    ensures
        n == 1_500_000,
{
    1_500_000
}

/// Width of each tie-bar.
pub fn default_bus_tie_width() -> (n: i64)
    ensures
        n == 2_500_000,
{
    2_500_000
}

/// How many tie-bars cross the rail.
pub fn default_bus_tie_count() -> (n: u32)
    ensures
        n == 0,
{
    0
}

/// How far the clamp ring covers the plate.
pub fn default_ring_lip_overlap() -> (n: i64)
    ensures
        n == 1_500_000,
{
    1_500_000
}

/// Height of the clamp ring's lip above the plate.
pub fn default_ring_lip_height() -> (n: i64)
    ensures
        n == 1_000_000,
{
    1_000_000
}

/// What a key chooses, or what is usual if it is not there.
pub open spec fn mode_at(
    list: Seq<(Seq<char>, ValueModel)>,
    usual: Mode,
) -> Option<Mode> {
    match value_at(list, "mode"@) {
        None => Some(usual),
        Some(ValueModel::Text(t)) => mode_written(t),
        Some(_) => None,
    }
}

fn read_mode(table: &TextMap<TomlValue>, usual: Mode) -> (found: Option<Mode>)
    requires
        table.well_formed(),
    ensures
        found == mode_at(settings(table.entries@), usual),
{
    match get_value(table, "mode") {
        None => Some(usual),
        Some(TomlValue::Text(t)) => Mode::written(t.as_str()),
        Some(_) => None,
    }
}

/// What a key chooses, or what is usual if it is not there.
pub open spec fn stencil_mount_at(
    list: Seq<(Seq<char>, ValueModel)>,
    usual: StencilMount,
) -> Option<StencilMount> {
    match value_at(list, "stencil_mount"@) {
        None => Some(usual),
        Some(ValueModel::Text(t)) => stencil_mount_written(t),
        Some(_) => None,
    }
}

fn read_stencil_mount(table: &TextMap<TomlValue>, usual: StencilMount) -> (found: Option<StencilMount>)
    requires
        table.well_formed(),
    ensures
        found == stencil_mount_at(settings(table.entries@), usual),
{
    match get_value(table, "stencil_mount") {
        None => Some(usual),
        Some(TomlValue::Text(t)) => StencilMount::written(t.as_str()),
        Some(_) => None,
    }
}

/// What a key chooses, or what is usual if it is not there.
pub open spec fn channel_profile_at(
    list: Seq<(Seq<char>, ValueModel)>,
    usual: ChannelProfile,
) -> Option<ChannelProfile> {
    match value_at(list, "channel_profile"@) {
        None => Some(usual),
        Some(ValueModel::Text(t)) => channel_profile_written(t),
        Some(_) => None,
    }
}

fn read_channel_profile(table: &TextMap<TomlValue>, usual: ChannelProfile) -> (found: Option<ChannelProfile>)
    requires
        table.well_formed(),
    ensures
        found == channel_profile_at(settings(table.entries@), usual),
{
    match get_value(table, "channel_profile") {
        None => Some(usual),
        Some(TomlValue::Text(t)) => ChannelProfile::written(t.as_str()),
        Some(_) => None,
    }
}

/// What a key chooses, or what is usual if it is not there.
pub open spec fn via_style_at(
    list: Seq<(Seq<char>, ValueModel)>,
    usual: ViaStyle,
) -> Option<ViaStyle> {
    match value_at(list, "via_style"@) {
        None => Some(usual),
        Some(ValueModel::Text(t)) => via_style_written(t),
        Some(_) => None,
    }
}

fn read_via_style(table: &TextMap<TomlValue>, usual: ViaStyle) -> (found: Option<ViaStyle>)
    requires
        table.well_formed(),
    ensures
        found == via_style_at(settings(table.entries@), usual),
{
    match get_value(table, "via_style") {
        None => Some(usual),
        Some(TomlValue::Text(t)) => ViaStyle::written(t.as_str()),
        Some(_) => None,
    }
}

/// What a key chooses, or what is usual if it is not there.
pub open spec fn eyelet_style_at(
    list: Seq<(Seq<char>, ValueModel)>,
    usual: EyeletStyle,
) -> Option<EyeletStyle> {
    match value_at(list, "eyelet_style"@) {
        None => Some(usual),
        Some(ValueModel::Text(t)) => eyelet_style_written(t),
        Some(_) => None,
    }
}

fn read_eyelet_style(table: &TextMap<TomlValue>, usual: EyeletStyle) -> (found: Option<EyeletStyle>)
    requires
        table.well_formed(),
    ensures
        found == eyelet_style_at(settings(table.entries@), usual),
{
    match get_value(table, "eyelet_style") {
        None => Some(usual),
        Some(TomlValue::Text(t)) => EyeletStyle::written(t.as_str()),
        Some(_) => None,
    }
}

/// What a key chooses, or what is usual if it is not there.
pub open spec fn output_format_at(
    list: Seq<(Seq<char>, ValueModel)>,
    usual: OutputFormat,
) -> Option<OutputFormat> {
    match value_at(list, "output_format"@) {
        None => Some(usual),
        Some(ValueModel::Text(t)) => output_format_written(t),
        Some(_) => None,
    }
}

fn read_output_format(table: &TextMap<TomlValue>, usual: OutputFormat) -> (found: Option<OutputFormat>)
    requires
        table.well_formed(),
    ensures
        found == output_format_at(settings(table.entries@), usual),
{
    match get_value(table, "output_format") {
        None => Some(usual),
        Some(TomlValue::Text(t)) => OutputFormat::written(t.as_str()),
        Some(_) => None,
    }
}

/// The step that a table describes. It has a name at least.
pub open spec fn step_of(list: Seq<(Seq<char>, ValueModel)>) -> Option<StepModel> {
    match (
        value_at(list, "name"@),
        texts_at(list, "components"@),
        text_at(list, "instruction"@, Seq::empty()),
    ) {
        (Some(ValueModel::Text(name)), Some(components), Some(instruction)) => match value_at(
            list,
            "wire_layer"@,
        ) {
            None => Some(StepModel { name, components, wire_layer: None, instruction }),
            Some(ValueModel::Text(layer)) => Some(
                StepModel { name, components, wire_layer: Some(layer), instruction },
            ),
            Some(_) => None,
        },
        _ => None,
    }
}

/// The step that an item of a list describes.
pub open spec fn step_in(item: ItemModel) -> Option<StepModel> {
    match item {
        ItemModel::Table(text) => match toml_table(text) {
            Some(list) => step_of(list),
            None => None,
        },
        _ => None,
    }
}

/// The steps that the items of a list describe, if all of them describe one.
pub open spec fn steps_in(items: Seq<ItemModel>) -> Option<Seq<StepModel>>
    decreases items.len(),
{
    if items.len() == 0 {
        Some(Seq::empty())
    } else {
        match (steps_in(items.drop_last()), step_in(items.last())) {
            (Some(known), Some(step)) => Some(known.push(step)),
            _ => None,
        }
    }
}

/// The steps that a table lists; none if it does not speak of steps.
pub open spec fn steps_at(list: Seq<(Seq<char>, ValueModel)>) -> Option<Seq<StepModel>> {
    match value_at(list, "assembly_steps"@) {
        None => Some(Seq::empty()),
        Some(ValueModel::List(items)) => steps_in(items),
        Some(_) => None,
    }
}

pub open spec fn as_step(found: Option<AssemblyStep>) -> Option<StepModel> {
    match found {
        Some(s) => Some(step_model(s)),
        None => None,
    }
}

pub open spec fn as_steps(found: Option<Vec<AssemblyStep>>) -> Option<Seq<StepModel>> {
    match found {
        Some(s) => Some(step_models(s@)),
        None => None,
    }
}

/// The step that a table describes.
pub fn read_step(entries: Vec<(String, TomlValue)>) -> (found: Option<AssemblyStep>)
    ensures
        as_step(found) == step_of(settings(entries@)),
{
    let ghost list = settings(entries@);
    let mut table: TextMap<TomlValue> = TextMap::new();
    proof {
        assert(settings(table.entries@) =~= Seq::empty());
        lemma_overlaid(Seq::empty(), list, "name"@);
        lemma_overlaid(Seq::empty(), list, "components"@);
        lemma_overlaid(Seq::empty(), list, "instruction"@);
        lemma_overlaid(Seq::empty(), list, "wire_layer"@);
    }
    lay_over(&mut table, entries);
    let name: String = match get_value(&table, "name") {
        Some(TomlValue::Text(t)) => t.clone(),
        _ => {
            return None;
        },
    };
    let components = match read_texts(&table, "components") {
        Some(c) => c,
        None => {
            return None;
        },
    };
    let instruction = match read_text(&table, "instruction", "") {
        Some(t) => t,
        None => {
            proof {
                reveal_strlit("");
                assert(""@ =~= Seq::<char>::empty());
            }
            return None;
        },
    };
    proof {
        reveal_strlit("");
        assert(""@ =~= Seq::<char>::empty());
    }
    let wire_layer: Option<String> = match get_value(&table, "wire_layer") {
        None => None,
        Some(TomlValue::Text(t)) => Some(t.clone()),
        Some(_) => {
            return None;
        },
    };
    let step = AssemblyStep { name, components, wire_layer, instruction };
    Some(step)
}

proof fn lemma_not_all_steps(items: Seq<ItemModel>, upto: int)
    requires
        0 <= upto <= items.len(),
        steps_in(items.take(upto)) is None,
    ensures
        steps_in(items) is None,
    decreases items.len() - upto,
{
    if upto == items.len() {
        assert(items.take(upto) =~= items);
    } else {
        assert(items.take(upto + 1).drop_last() =~= items.take(upto));
        lemma_not_all_steps(items, upto + 1);
    }
}

fn read_steps_in(items: &Vec<TomlItem>) -> (found: Option<Vec<AssemblyStep>>)
    ensures
        as_steps(found) == steps_in(item_models(items@)),
{
    let ghost all = item_models(items@);
    let mut out: Vec<AssemblyStep> = Vec::new();
    let mut i: usize = 0;
    proof {
        assert(all.take(0).len() == 0);
        assert(step_models(out@) =~= Seq::empty());
    }
    while i < items.len()
        invariant
            i <= items@.len(),
            all == item_models(items@),
            steps_in(all.take(i as int)) == Some(step_models(out@)),
        decreases items@.len() - i,
    {
        proof {
            assert(all.take(i + 1).drop_last() =~= all.take(i as int));
            assert(all.take(i + 1).last() == item_model(items@[i as int]));
        }
        let step: Option<AssemblyStep> = match &items[i] {
            TomlItem::Table(text) => match read_table(text.as_str()) {
                Some(entries) => read_step(entries),
                None => None,
            },
            _ => None,
        };
        match step {
            Some(s) => {
                let ghost done = out@;
                out.push(s);
                proof {
                    assert(step_models(out@) =~= step_models(done).push(step_model(s)));
                }
            },
            None => {
                proof {
                    lemma_not_all_steps(all, i + 1);
                }
                return None;
            },
        }
        i += 1;
    }
    proof {
        assert(all.take(all.len() as int) =~= all);
    }
    Some(out)
}

fn read_steps(table: &TextMap<TomlValue>) -> (found: Option<Vec<AssemblyStep>>)
    requires
        table.well_formed(),
    ensures
        as_steps(found) == steps_at(settings(table.entries@)),
{
    match get_value(table, "assembly_steps") {
        None => {
            let none: Vec<AssemblyStep> = Vec::new();
            proof {
                assert(step_models(none@) =~= Seq::empty());
            }
            Some(none)
        },
        Some(TomlValue::List(items)) => read_steps_in(items),
        Some(_) => None,
    }
}

/// Whether every setting in a table is of the kind that its key is for.
pub open spec fn all_of_kind(list: Seq<(Seq<char>, ValueModel)>) -> bool {
    &&& number_at(list, "channel_width_mm"@, 1_200_000) is Some
    &&& number_at(list, "channel_depth_mm"@, 500_000) is Some
    &&& channel_profile_at(list, ChannelProfile::Rect) is Some
    &&& number_at(list, "channel_floor_width_mm"@, 400_000) is Some
    &&& number_at(list, "taper_slice_height_mm"@, 200_000) is Some
    &&& via_style_at(list, ViaStyle::Straight) is Some
    &&& number_at(list, "cone_angle_deg"@, 45_000_000) is Some
    &&& number_at(list, "throat_height_mm"@, 400_000) is Some
    &&& number_at(list, "min_rim_mm"@, 300_000) is Some
    &&& eyelet_style_at(list, EyeletStyle::Hole) is Some
    &&& number_at(list, "eyelet_diameter_mm"@, 1_500_000) is Some
    &&& number_at(list, "indent_depth_mm"@, 300_000) is Some
    &&& number_at(list, "pad_hole_diameter_mm"@, 800_000) is Some
    &&& number_at(list, "substrate_thickness_mm"@, 3_000_000) is Some
    &&& number_at(list, "scale_factor"@, 0) is Some
    &&& output_format_at(list, OutputFormat::Stl) is Some
    &&& text_at(list, "output_dir"@, "./output"@) is Some
    &&& flag_at(list, "generate_pad_holes"@, true) is Some
    &&& flag_at(list, "generate_via_indents"@, true) is Some
    &&& flag_at(list, "generate_pad_lands"@, true) is Some
    &&& flag_at(list, "generate_stencil"@, false) is Some
    &&& flag_at(list, "stencil_plating_bus"@, false) is Some
    &&& number_at(list, "stencil_thickness_mm"@, 500_000) is Some
    &&& number_at(list, "stencil_slot_clearance_mm"@, 100_000) is Some
    &&& number_at(list, "stencil_wall_height_mm"@, 1_200_000) is Some
    &&& number_at(list, "stencil_wall_thickness_mm"@, 1_500_000) is Some
    &&& number_at(list, "stencil_fit_clearance_mm"@, 150_000) is Some
    &&& number_at(list, "bus_width_mm"@, 1_000_000) is Some
    &&& number_at(list, "bus_inset_mm"@, 1_500_000) is Some
    &&& number_at(list, "bus_tie_width_mm"@, 2_500_000) is Some
    &&& count_at(list, "bus_tie_count"@, 0) is Some
    &&& stencil_mount_at(list, StencilMount::Ring) is Some
    &&& number_at(list, "ring_lip_overlap_mm"@, 1_500_000) is Some
    &&& number_at(list, "ring_lip_height_mm"@, 1_000_000) is Some
    &&& mode_at(list, Mode::CopperWire) is Some
    &&& steps_at(list) is Some
}

/// Whether settings are those of a table, and where it is silent the built-in ones.
pub open spec fn holds_settings(c: Config, list: Seq<(Seq<char>, ValueModel)>) -> bool {
    &&& number_at(list, "channel_width_mm"@, 1_200_000) == Some(c.channel_width as int)
    &&& number_at(list, "channel_depth_mm"@, 500_000) == Some(c.channel_depth as int)
    &&& channel_profile_at(list, ChannelProfile::Rect) == Some(c.channel_profile)
    &&& number_at(list, "channel_floor_width_mm"@, 400_000) == Some(c.channel_floor_width as int)
    &&& number_at(list, "taper_slice_height_mm"@, 200_000) == Some(c.taper_slice_height as int)
    &&& via_style_at(list, ViaStyle::Straight) == Some(c.via_style)
    &&& number_at(list, "cone_angle_deg"@, 45_000_000) == Some(c.cone_angle as int)
    &&& number_at(list, "throat_height_mm"@, 400_000) == Some(c.throat_height as int)
    &&& number_at(list, "min_rim_mm"@, 300_000) == Some(c.min_rim as int)
    &&& eyelet_style_at(list, EyeletStyle::Hole) == Some(c.eyelet_style)
    &&& number_at(list, "eyelet_diameter_mm"@, 1_500_000) == Some(c.eyelet_diameter as int)
    &&& number_at(list, "indent_depth_mm"@, 300_000) == Some(c.indent_depth as int)
    &&& number_at(list, "pad_hole_diameter_mm"@, 800_000) == Some(c.pad_hole_diameter as int)
    &&& number_at(list, "substrate_thickness_mm"@, 3_000_000) == Some(c.substrate_thickness as int)
    &&& number_at(list, "scale_factor"@, 0) == Some(c.scale_factor as int)
    &&& output_format_at(list, OutputFormat::Stl) == Some(c.output_format)
    &&& text_at(list, "output_dir"@, "./output"@) == Some(c.output_dir@)
    &&& flag_at(list, "generate_pad_holes"@, true) == Some(c.generate_pad_holes)
    &&& flag_at(list, "generate_via_indents"@, true) == Some(c.generate_via_indents)
    &&& flag_at(list, "generate_pad_lands"@, true) == Some(c.generate_pad_lands)
    &&& flag_at(list, "generate_stencil"@, false) == Some(c.generate_stencil)
    &&& flag_at(list, "stencil_plating_bus"@, false) == Some(c.stencil_plating_bus)
    &&& number_at(list, "stencil_thickness_mm"@, 500_000) == Some(c.stencil_thickness as int)
    &&& number_at(list, "stencil_slot_clearance_mm"@, 100_000) == Some(c.stencil_slot_clearance as int)
    &&& number_at(list, "stencil_wall_height_mm"@, 1_200_000) == Some(c.stencil_wall_height as int)
    &&& number_at(list, "stencil_wall_thickness_mm"@, 1_500_000) == Some(c.stencil_wall_thickness as int)
    &&& number_at(list, "stencil_fit_clearance_mm"@, 150_000) == Some(c.stencil_fit_clearance as int)
    &&& number_at(list, "bus_width_mm"@, 1_000_000) == Some(c.bus_width as int)
    &&& number_at(list, "bus_inset_mm"@, 1_500_000) == Some(c.bus_inset as int)
    &&& number_at(list, "bus_tie_width_mm"@, 2_500_000) == Some(c.bus_tie_width as int)
    &&& count_at(list, "bus_tie_count"@, 0) == Some(c.bus_tie_count)
    &&& stencil_mount_at(list, StencilMount::Ring) == Some(c.stencil_mount)
    &&& number_at(list, "ring_lip_overlap_mm"@, 1_500_000) == Some(c.ring_lip_overlap as int)
    &&& number_at(list, "ring_lip_height_mm"@, 1_000_000) == Some(c.ring_lip_height as int)
    &&& steps_at(list) == Some(step_models(c.assembly_steps@))
}

impl Default for Config {
    fn default() -> (c: Self)
        ensures
            holds_settings(c, Seq::empty()),
            c.mode == Mode::CopperWire,
    {
        let c = Config {
            channel_width: default_channel_width(),
            channel_depth: default_channel_depth(),
            channel_profile: default_channel_profile(),
            channel_floor_width: default_channel_floor_width(),
            taper_slice_height: default_taper_slice_height(),
            via_style: default_via_style(),
            cone_angle: default_cone_angle(),
            throat_height: default_throat_height(),
            min_rim: default_min_rim(),
            eyelet_style: default_eyelet_style(),
            eyelet_diameter: default_eyelet_diameter(),
            indent_depth: default_indent_depth(),
            pad_hole_diameter: default_pad_hole_diameter(),
            substrate_thickness: default_substrate_thickness(),
            scale_factor: default_scale_factor(),
            output_format: default_output_format(),
            output_dir: default_output_dir(),
            generate_pad_holes: default_generate_pad_holes(),
            generate_via_indents: default_generate_via_indents(),
            generate_pad_lands: default_generate_pad_lands(),
            generate_stencil: default_generate_stencil(),
            stencil_plating_bus: default_stencil_plating_bus(),
            stencil_thickness: default_stencil_thickness(),
            stencil_slot_clearance: default_stencil_slot_clearance(),
            stencil_wall_height: default_stencil_wall_height(),
            stencil_wall_thickness: default_stencil_wall_thickness(),
            stencil_fit_clearance: default_stencil_fit_clearance(),
            bus_width: default_bus_width(),
            bus_inset: default_bus_inset(),
            bus_tie_width: default_bus_tie_width(),
            bus_tie_count: default_bus_tie_count(),
            stencil_mount: StencilMount::Ring,
            ring_lip_overlap: default_ring_lip_overlap(),
            ring_lip_height: default_ring_lip_height(),
            mode: Mode::CopperWire,
            assembly_steps: Vec::new(),
        };
        proof {
            assert(step_models(c.assembly_steps@) =~= Seq::empty());
        }
        c
    }
}

/// Why settings could not be read.
#[derive(Clone, Copy, Debug, PartialEq, Eq)]
pub enum ConfigError {
    /// The settings file is not TOML.
    InvalidToml,
    /// The settings of the mode are not TOML.
    InvalidPreset,
    /// A setting is not of the kind that its key is for.
    WrongKind,
}

fn read_all(table: &TextMap<TomlValue>, mode: Mode) -> (found: Option<Config>)
    requires
        table.well_formed(),
    ensures
        found is Some == all_of_kind(settings(table.entries@)),
        found matches Some(c) ==> holds_settings(c, settings(table.entries@)) && c.mode == mode,
{
    let channel_width: i64 = match read_number(table, "channel_width_mm", default_channel_width()) {
        Some(v) => v,
        None => {
            return None;
        },
    };
    let channel_depth: i64 = match read_number(table, "channel_depth_mm", default_channel_depth()) {
        Some(v) => v,
        None => {
            return None;
        },
    };
    let channel_profile = match read_channel_profile(table, ChannelProfile::Rect) {
        Some(v) => v,
        None => {
            return None;
        },
    };
    let channel_floor_width: i64 = match read_number(table, "channel_floor_width_mm", default_channel_floor_width()) {
        Some(v) => v,
        None => {
            return None;
        },
    };
    let taper_slice_height: i64 = match read_number(table, "taper_slice_height_mm", default_taper_slice_height()) {
        Some(v) => v,
        None => {
            return None;
        },
    };
    let via_style = match read_via_style(table, ViaStyle::Straight) {
        Some(v) => v,
        None => {
            return None;
        },
    };
    let cone_angle: i64 = match read_number(table, "cone_angle_deg", default_cone_angle()) {
        Some(v) => v,
        None => {
            return None;
        },
    };
    let throat_height: i64 = match read_number(table, "throat_height_mm", default_throat_height()) {
        Some(v) => v,
        None => {
            return None;
        },
    };
    let min_rim: i64 = match read_number(table, "min_rim_mm", default_min_rim()) {
        Some(v) => v,
        None => {
            return None;
        },
    };
    let eyelet_style = match read_eyelet_style(table, EyeletStyle::Hole) {
        Some(v) => v,
        None => {
            return None;
        },
    };
    let eyelet_diameter: i64 = match read_number(table, "eyelet_diameter_mm", default_eyelet_diameter()) {
        Some(v) => v,
        None => {
            return None;
        },
    };
    let indent_depth: i64 = match read_number(table, "indent_depth_mm", default_indent_depth()) {
        Some(v) => v,
        None => {
            return None;
        },
    };
    let pad_hole_diameter: i64 = match read_number(table, "pad_hole_diameter_mm", default_pad_hole_diameter()) {
        Some(v) => v,
        None => {
            return None;
        },
    };
    let substrate_thickness: i64 = match read_number(table, "substrate_thickness_mm", default_substrate_thickness()) {
        Some(v) => v,
        None => {
            return None;
        },
    };
    let scale_factor: i64 = match read_number(table, "scale_factor", default_scale_factor()) {
        Some(v) => v,
        None => {
            return None;
        },
    };
    let output_format = match read_output_format(table, OutputFormat::Stl) {
        Some(v) => v,
        None => {
            return None;
        },
    };
    let output_dir = match read_text(table, "output_dir", default_output_dir().as_str()) {
        Some(v) => v,
        None => {
            return None;
        },
    };
    let generate_pad_holes: bool = match read_flag(table, "generate_pad_holes", default_generate_pad_holes()) {
        Some(v) => v,
        None => {
            return None;
        },
    };
    let generate_via_indents: bool = match read_flag(table, "generate_via_indents", default_generate_via_indents()) {
        Some(v) => v,
        None => {
            return None;
        },
    };
    let generate_pad_lands: bool = match read_flag(table, "generate_pad_lands", default_generate_pad_lands()) {
        Some(v) => v,
        None => {
            return None;
        },
    };
    let generate_stencil: bool = match read_flag(table, "generate_stencil", default_generate_stencil()) {
        Some(v) => v,
        None => {
            return None;
        },
    };
    let stencil_plating_bus: bool = match read_flag(table, "stencil_plating_bus", default_stencil_plating_bus()) {
        Some(v) => v,
        None => {
            return None;
        },
    };
    let stencil_thickness: i64 = match read_number(table, "stencil_thickness_mm", default_stencil_thickness()) {
        Some(v) => v,
        None => {
            return None;
        },
    };
    let stencil_slot_clearance: i64 = match read_number(table, "stencil_slot_clearance_mm", default_stencil_slot_clearance()) {
        Some(v) => v,
        None => {
            return None;
        },
    };
    let stencil_wall_height: i64 = match read_number(table, "stencil_wall_height_mm", default_stencil_wall_height()) {
        Some(v) => v,
        None => {
            return None;
        },
    };
    let stencil_wall_thickness: i64 = match read_number(table, "stencil_wall_thickness_mm", default_stencil_wall_thickness()) {
        Some(v) => v,
        None => {
            return None;
        },
    };
    let stencil_fit_clearance: i64 = match read_number(table, "stencil_fit_clearance_mm", default_stencil_fit_clearance()) {
        Some(v) => v,
        None => {
            return None;
        },
    };
    let bus_width: i64 = match read_number(table, "bus_width_mm", default_bus_width()) {
        Some(v) => v,
        None => {
            return None;
        },
    };
    let bus_inset: i64 = match read_number(table, "bus_inset_mm", default_bus_inset()) {
        Some(v) => v,
        None => {
            return None;
        },
    };
    let bus_tie_width: i64 = match read_number(table, "bus_tie_width_mm", default_bus_tie_width()) {
        Some(v) => v,
        None => {
            return None;
        },
    };
    let bus_tie_count: u32 = match read_count(table, "bus_tie_count", default_bus_tie_count()) {
        Some(v) => v,
        None => {
            return None;
        },
    };
    let stencil_mount = match read_stencil_mount(table, StencilMount::Ring) {
        Some(v) => v,
        None => {
            return None;
        },
    };
    let ring_lip_overlap: i64 = match read_number(table, "ring_lip_overlap_mm", default_ring_lip_overlap()) {
        Some(v) => v,
        None => {
            return None;
        },
    };
    let ring_lip_height: i64 = match read_number(table, "ring_lip_height_mm", default_ring_lip_height()) {
        Some(v) => v,
        None => {
            return None;
        },
    };
    let _written = match read_mode(table, Mode::CopperWire) {
        Some(v) => v,
        None => {
            return None;
        },
    };
    let assembly_steps = match read_steps(table) {
        Some(v) => v,
        None => {
            return None;
        },
    };
    Some(
        Config {
            channel_width,
            channel_depth,
            channel_profile,
            channel_floor_width,
            taper_slice_height,
            via_style,
            cone_angle,
            throat_height,
            min_rim,
            eyelet_style,
            eyelet_diameter,
            indent_depth,
            pad_hole_diameter,
            substrate_thickness,
            scale_factor,
            output_format,
            output_dir,
            generate_pad_holes,
            generate_via_indents,
            generate_pad_lands,
            generate_stencil,
            stencil_plating_bus,
            stencil_thickness,
            stencil_slot_clearance,
            stencil_wall_height,
            stencil_wall_thickness,
            stencil_fit_clearance,
            bus_width,
            bus_inset,
            bus_tie_width,
            bus_tie_count,
            stencil_mount,
            ring_lip_overlap,
            ring_lip_height,
            mode,
            assembly_steps,
        },
    )
}

/// The settings that a mode starts from.
pub open spec fn preset(mode: Mode) -> Seq<char> {
    match mode {
        Mode::CopperWire => "mode = \"copper-wire\"\nchannel_width_mm = 1.2\nchannel_depth_mm = 0.5\nchannel_profile = \"rect\"\nchannel_floor_width_mm = 0.4\ntaper_slice_height_mm = 0.2\nvia_style = \"straight\"\ncone_angle_deg = 45.0\nthroat_height_mm = 0.4\nmin_rim_mm = 0.3\neyelet_style = \"hole\"\neyelet_diameter_mm = 1.5\nindent_depth_mm = 0.3\npad_hole_diameter_mm = 0.8\nsubstrate_thickness_mm = 3.0\nscale_factor = 0.0\noutput_format = \"stl\"\noutput_dir = \"./output\"\ngenerate_pad_holes = true\ngenerate_via_indents = true\ngenerate_pad_lands = true\ngenerate_stencil = false\nstencil_plating_bus = false\nstencil_thickness_mm = 0.5\nstencil_slot_clearance_mm = 0.1\nstencil_wall_height_mm = 1.2\nstencil_wall_thickness_mm = 1.5\nstencil_fit_clearance_mm = 0.15\nbus_width_mm = 1.0\nbus_inset_mm = 1.5\nbus_tie_width_mm = 2.5\nbus_tie_count = 0\nstencil_mount = \"ring\"\nring_lip_overlap_mm = 1.5\nring_lip_height_mm = 1.0\n"@,
        Mode::Electrolysis => "mode = \"electrolysis\"\nchannel_width_mm = 0.7\nchannel_depth_mm = 0.8\nchannel_profile = \"trapezoid\"\nchannel_floor_width_mm = 0.4\ntaper_slice_height_mm = 0.12\nvia_style = \"straight\"\ncone_angle_deg = 45.0\nthroat_height_mm = 0.4\nmin_rim_mm = 0.3\neyelet_style = \"hole\"\neyelet_diameter_mm = 1.5\nindent_depth_mm = 0.3\npad_hole_diameter_mm = 0.8\nsubstrate_thickness_mm = 2.2\nscale_factor = 0.0\noutput_format = \"stl\"\noutput_dir = \"./output\"\ngenerate_pad_holes = true\ngenerate_via_indents = true\ngenerate_pad_lands = true\ngenerate_stencil = true\nstencil_plating_bus = false\nstencil_thickness_mm = 0.5\nstencil_slot_clearance_mm = 0.1\nstencil_wall_height_mm = 1.2\nstencil_wall_thickness_mm = 1.5\nstencil_fit_clearance_mm = 0.15\nbus_width_mm = 1.0\nbus_inset_mm = 1.5\nbus_tie_width_mm = 2.5\nbus_tie_count = 0\nstencil_mount = \"ring\"\nring_lip_overlap_mm = 1.5\nring_lip_height_mm = 1.0\n"@,
    }
}

impl Mode {
    /// The settings that a mode starts from, as a TOML text.
    pub fn preset_toml(self) -> (text: &'static str)
        ensures
            text@ == preset(self),
    {
        match self {
            Mode::CopperWire => "mode = \"copper-wire\"\nchannel_width_mm = 1.2\nchannel_depth_mm = 0.5\nchannel_profile = \"rect\"\nchannel_floor_width_mm = 0.4\ntaper_slice_height_mm = 0.2\nvia_style = \"straight\"\ncone_angle_deg = 45.0\nthroat_height_mm = 0.4\nmin_rim_mm = 0.3\neyelet_style = \"hole\"\neyelet_diameter_mm = 1.5\nindent_depth_mm = 0.3\npad_hole_diameter_mm = 0.8\nsubstrate_thickness_mm = 3.0\nscale_factor = 0.0\noutput_format = \"stl\"\noutput_dir = \"./output\"\ngenerate_pad_holes = true\ngenerate_via_indents = true\ngenerate_pad_lands = true\ngenerate_stencil = false\nstencil_plating_bus = false\nstencil_thickness_mm = 0.5\nstencil_slot_clearance_mm = 0.1\nstencil_wall_height_mm = 1.2\nstencil_wall_thickness_mm = 1.5\nstencil_fit_clearance_mm = 0.15\nbus_width_mm = 1.0\nbus_inset_mm = 1.5\nbus_tie_width_mm = 2.5\nbus_tie_count = 0\nstencil_mount = \"ring\"\nring_lip_overlap_mm = 1.5\nring_lip_height_mm = 1.0\n",
            Mode::Electrolysis => "mode = \"electrolysis\"\nchannel_width_mm = 0.7\nchannel_depth_mm = 0.8\nchannel_profile = \"trapezoid\"\nchannel_floor_width_mm = 0.4\ntaper_slice_height_mm = 0.12\nvia_style = \"straight\"\ncone_angle_deg = 45.0\nthroat_height_mm = 0.4\nmin_rim_mm = 0.3\neyelet_style = \"hole\"\neyelet_diameter_mm = 1.5\nindent_depth_mm = 0.3\npad_hole_diameter_mm = 0.8\nsubstrate_thickness_mm = 2.2\nscale_factor = 0.0\noutput_format = \"stl\"\noutput_dir = \"./output\"\ngenerate_pad_holes = true\ngenerate_via_indents = true\ngenerate_pad_lands = true\ngenerate_stencil = true\nstencil_plating_bus = false\nstencil_thickness_mm = 0.5\nstencil_slot_clearance_mm = 0.1\nstencil_wall_height_mm = 1.2\nstencil_wall_thickness_mm = 1.5\nstencil_fit_clearance_mm = 0.15\nbus_width_mm = 1.0\nbus_inset_mm = 1.5\nbus_tie_width_mm = 2.5\nbus_tie_count = 0\nstencil_mount = \"ring\"\nring_lip_overlap_mm = 1.5\nring_lip_height_mm = 1.0\n",
        }
    }
}

/// The mode that is asked for, else that of the settings file, else the usual one.
pub open spec fn chosen_mode(
    asked: Option<Mode>,
    user: Seq<(Seq<char>, ValueModel)>,
) -> Mode {
    match asked {
        Some(m) => m,
        None => match value_at(user, "mode"@) {
            Some(ValueModel::Text(t)) => match mode_named(lowercase(t)) {
                Some(m) => m,
                None => Mode::CopperWire,
            },
            _ => Mode::CopperWire,
        },
    }
}

/// The keys and values of a settings file; none if there is no file.
pub open spec fn user_settings(text: Option<&str>) -> Option<Seq<(Seq<char>, ValueModel)>> {
    match text {
        Some(t) => toml_table(t@),
        None => Some(Seq::empty()),
    }
}

/// The settings for a mode, with those of a settings file laid over.
pub fn configure(
    base: Vec<(String, TomlValue)>,
    user: Vec<(String, TomlValue)>,
    mode: Mode,
) -> (found: Result<Config, ConfigError>)
    ensures
        ({
            let list = overlaid(overlaid(Seq::empty(), settings(base@)), settings(user@));
            &&& found is Ok == all_of_kind(list)
            &&& found is Err ==> found->Err_0 == ConfigError::WrongKind
            &&& found matches Ok(c) ==> holds_settings(c, list) && c.mode == mode
        }),
{
    let mut table: TextMap<TomlValue> = TextMap::new();
    proof {
        assert(settings(table.entries@) =~= Seq::empty());
    }
    lay_over(&mut table, base);
    lay_over(&mut table, user);
    match read_all(&table, mode) {
        Some(c) => Ok(c),
        None => Err(ConfigError::WrongKind),
    }
}

/// The settings that a table gives; where it is silent, the built-in ones.
pub fn settle(user: Vec<(String, TomlValue)>) -> (found: Result<Config, ConfigError>)
    ensures
        ({
            let list = overlaid(Seq::empty(), settings(user@));
            &&& found is Ok == all_of_kind(list)
            &&& found is Err ==> found->Err_0 == ConfigError::WrongKind
            &&& found matches Ok(c) ==> holds_settings(c, list) && mode_at(
                list,
                Mode::CopperWire,
            ) == Some(c.mode)
        }),
{
    let mut table: TextMap<TomlValue> = TextMap::new();
    proof {
        assert(settings(table.entries@) =~= Seq::empty());
    }
    lay_over(&mut table, user);
    match read_mode(&table, Mode::CopperWire) {
        Some(mode) => match read_all(&table, mode) {
            Some(c) => Ok(c),
            None => Err(ConfigError::WrongKind),
        },
        None => Err(ConfigError::WrongKind),
    }
}

impl Config {
    /// The settings of a settings file, over the built-in ones and not those of a
    /// mode; the built-in ones if there is no file.
    pub fn from_file(user: Option<&str>) -> (found: Result<Config, ConfigError>)
        ensures
            match user_settings(user) {
                None => found == Err::<Config, ConfigError>(ConfigError::InvalidToml),
                Some(over) => {
                    let list = overlaid(Seq::empty(), over);
                    &&& found is Ok == all_of_kind(list)
                    &&& found is Err ==> found->Err_0 == ConfigError::WrongKind
                    &&& found matches Ok(c) ==> holds_settings(c, list) && mode_at(
                        list,
                        Mode::CopperWire,
                    ) == Some(c.mode)
                },
            },
    {
        match user {
            Some(text) => match read_table(text) {
                Some(entries) => settle(entries),
                None => Err(ConfigError::InvalidToml),
            },
            None => {
                let none: Vec<(String, TomlValue)> = Vec::new();
                proof {
                    assert(settings(none@) =~= Seq::empty());
                }
                settle(none)
            },
        }
    }

    /// The settings in effect before the command line: the built-in ones, overlaid by
    /// those of the mode, overlaid by those of the settings file. `mode` is what was
    /// asked for; else the file decides it.
    pub fn load(user: Option<&str>, mode: Option<Mode>) -> (found: Result<Config, ConfigError>)
        ensures
            match user_settings(user) {
                None => found == Err::<Config, ConfigError>(ConfigError::InvalidToml),
                Some(over) => {
                    let chosen = chosen_mode(mode, over);
                    match toml_table(preset(chosen)) {
                        None => found == Err::<Config, ConfigError>(ConfigError::InvalidPreset),
                        Some(base) => {
                            let list = overlaid(overlaid(Seq::empty(), base), over);
                            &&& found is Ok == all_of_kind(list)
                            &&& found is Err ==> found->Err_0 == ConfigError::WrongKind
                            &&& found matches Ok(c) ==> holds_settings(c, list) && c.mode == chosen
                        },
                    }
                },
            },
    {
        let entries: Vec<(String, TomlValue)> = match user {
            Some(text) => match read_table(text) {
                Some(entries) => entries,
                None => {
                    return Err(ConfigError::InvalidToml);
                },
            },
            None => Vec::new(),
        };
        proof {
            if user is None {
                assert(settings(entries@) =~= Seq::empty());
            }
        }
        let chosen: Mode = match mode {
            Some(m) => m,
            None => find_mode(&entries),
        };
        match read_table(chosen.preset_toml()) {
            None => Err(ConfigError::InvalidPreset),
            Some(base) => configure(base, entries, chosen),
        }
    }
}

/// The mode that a settings file asks for.
fn find_mode(entries: &Vec<(String, TomlValue)>) -> (mode: Mode)
    ensures
        mode == chosen_mode(None, settings(entries@)),
{
    let ghost all = settings(entries@);
    let mut i: usize = entries.len();
    proof {
        assert(all.take(i as int) =~= all);
    }
    while i > 0
        invariant
            i <= entries@.len(),
            all == settings(entries@),
            place(all, "mode"@) == place(all.take(i as int), "mode"@),
        decreases i,
    {
        i -= 1;
        proof {
            assert(all.take(i + 1).drop_last() =~= all.take(i as int));
            assert(all.take(i + 1).last() == (entries@[i as int].0@, value_model(entries@[i as int].1)));
            assert(all[i as int] == all.take(i + 1).last());
        }
        if same_str(entries[i].0.as_str(), "mode") {
            return match &entries[i].1 {
                TomlValue::Text(t) => match Mode::from_str(t.as_str()) {
                    Ok(m) => m,
                    Err(_) => Mode::CopperWire,
                },
                _ => Mode::CopperWire,
            };
        }
    }
    Mode::CopperWire
}

/// Whether two settings are the same.
pub open spec fn same_settings(a: Config, b: Config) -> bool {
    &&& a.channel_width == b.channel_width
    &&& a.channel_depth == b.channel_depth
    &&& a.channel_profile == b.channel_profile
    &&& a.channel_floor_width == b.channel_floor_width
    &&& a.taper_slice_height == b.taper_slice_height
    &&& a.via_style == b.via_style
    &&& a.cone_angle == b.cone_angle
    &&& a.throat_height == b.throat_height
    &&& a.min_rim == b.min_rim
    &&& a.eyelet_style == b.eyelet_style
    &&& a.eyelet_diameter == b.eyelet_diameter
    &&& a.indent_depth == b.indent_depth
    &&& a.pad_hole_diameter == b.pad_hole_diameter
    &&& a.substrate_thickness == b.substrate_thickness
    &&& a.scale_factor == b.scale_factor
    &&& a.output_format == b.output_format
    &&& a.output_dir@ == b.output_dir@
    &&& a.generate_pad_holes == b.generate_pad_holes
    &&& a.generate_via_indents == b.generate_via_indents
    &&& a.generate_pad_lands == b.generate_pad_lands
    &&& a.generate_stencil == b.generate_stencil
    &&& a.stencil_plating_bus == b.stencil_plating_bus
    &&& a.stencil_thickness == b.stencil_thickness
    &&& a.stencil_slot_clearance == b.stencil_slot_clearance
    &&& a.stencil_wall_height == b.stencil_wall_height
    &&& a.stencil_wall_thickness == b.stencil_wall_thickness
    &&& a.stencil_fit_clearance == b.stencil_fit_clearance
    &&& a.bus_width == b.bus_width
    &&& a.bus_inset == b.bus_inset
    &&& a.bus_tie_width == b.bus_tie_width
    &&& a.bus_tie_count == b.bus_tie_count
    &&& a.stencil_mount == b.stencil_mount
    &&& a.ring_lip_overlap == b.ring_lip_overlap
    &&& a.ring_lip_height == b.ring_lip_height
    &&& a.mode == b.mode
    &&& step_models(a.assembly_steps@) == step_models(b.assembly_steps@)
}

proof fn lemma_same_values(
    one: Seq<(Seq<char>, ValueModel)>,
    two: Seq<(Seq<char>, ValueModel)>,
    a: Config,
    b: Config,
)
    requires
        forall|key: Seq<char>| #[trigger] value_at(one, key) == value_at(two, key),
        holds_settings(a, one),
        holds_settings(b, two),
        a.mode == b.mode,
    ensures
        same_settings(a, b),
{
}

/// Asking for a mode gives the settings that its preset gives as a settings file: over
/// the mode that it names, and over the built-in settings alone.
pub proof fn lemma_mode_is_its_preset(
    base: Seq<(Seq<char>, ValueModel)>,
    name: Seq<char>,
    mode: Mode,
    by_flag: Config,
    by_file: Config,
    alone: Config,
)
    requires
        value_at(base, "mode"@) == Some(ValueModel::Text(name)),
        mode_named(lowercase(name)) == Some(mode),
        mode_written(name) == Some(mode),
        holds_settings(by_flag, overlaid(overlaid(Seq::empty(), base), Seq::empty())),
        by_flag.mode == mode,
        holds_settings(by_file, overlaid(overlaid(Seq::empty(), base), base)),
        by_file.mode == chosen_mode(None, base),
        holds_settings(alone, overlaid(Seq::empty(), base)),
        mode_at(overlaid(Seq::empty(), base), Mode::CopperWire) == Some(alone.mode),
    ensures
        same_settings(by_flag, by_file),
        same_settings(by_flag, alone),
{
    let none = Seq::<(Seq<char>, ValueModel)>::empty();
    let once = overlaid(none, base);
    assert forall|key: Seq<char>| #[trigger] value_at(overlaid(once, none), key) == value_at(
        overlaid(once, base),
        key,
    ) by {
        lemma_overlaid(once, base, key);
        lemma_overlaid(none, base, key);
    }
    lemma_overlaid(none, base, "mode"@);
    lemma_same_values(overlaid(once, none), overlaid(once, base), by_flag, by_file);
    lemma_same_values(overlaid(once, none), once, by_flag, alone);
}

/// Whether a table gives every key that it names what is built in, as the preset of
/// copper wire does.
pub open spec fn repeats_built_in(list: Seq<(Seq<char>, ValueModel)>) -> bool {
    &&& number_at(list, "channel_width_mm"@, 1_200_000) == Some(1_200_000int)
    &&& number_at(list, "channel_depth_mm"@, 500_000) == Some(500_000int)
    &&& channel_profile_at(list, ChannelProfile::Rect) == Some(ChannelProfile::Rect)
    &&& number_at(list, "channel_floor_width_mm"@, 400_000) == Some(400_000int)
    &&& number_at(list, "taper_slice_height_mm"@, 200_000) == Some(200_000int)
    &&& via_style_at(list, ViaStyle::Straight) == Some(ViaStyle::Straight)
    &&& number_at(list, "cone_angle_deg"@, 45_000_000) == Some(45_000_000int)
    &&& number_at(list, "throat_height_mm"@, 400_000) == Some(400_000int)
    &&& number_at(list, "min_rim_mm"@, 300_000) == Some(300_000int)
    &&& eyelet_style_at(list, EyeletStyle::Hole) == Some(EyeletStyle::Hole)
    &&& number_at(list, "eyelet_diameter_mm"@, 1_500_000) == Some(1_500_000int)
    &&& number_at(list, "indent_depth_mm"@, 300_000) == Some(300_000int)
    &&& number_at(list, "pad_hole_diameter_mm"@, 800_000) == Some(800_000int)
    &&& number_at(list, "substrate_thickness_mm"@, 3_000_000) == Some(3_000_000int)
    &&& number_at(list, "scale_factor"@, 0) == Some(0int)
    &&& output_format_at(list, OutputFormat::Stl) == Some(OutputFormat::Stl)
    &&& text_at(list, "output_dir"@, "./output"@) == Some("./output"@)
    &&& flag_at(list, "generate_pad_holes"@, true) == Some(true)
    &&& flag_at(list, "generate_via_indents"@, true) == Some(true)
    &&& flag_at(list, "generate_pad_lands"@, true) == Some(true)
    &&& flag_at(list, "generate_stencil"@, false) == Some(false)
    &&& flag_at(list, "stencil_plating_bus"@, false) == Some(false)
    &&& number_at(list, "stencil_thickness_mm"@, 500_000) == Some(500_000int)
    &&& number_at(list, "stencil_slot_clearance_mm"@, 100_000) == Some(100_000int)
    &&& number_at(list, "stencil_wall_height_mm"@, 1_200_000) == Some(1_200_000int)
    &&& number_at(list, "stencil_wall_thickness_mm"@, 1_500_000) == Some(1_500_000int)
    &&& number_at(list, "stencil_fit_clearance_mm"@, 150_000) == Some(150_000int)
    &&& number_at(list, "bus_width_mm"@, 1_000_000) == Some(1_000_000int)
    &&& number_at(list, "bus_inset_mm"@, 1_500_000) == Some(1_500_000int)
    &&& number_at(list, "bus_tie_width_mm"@, 2_500_000) == Some(2_500_000int)
    &&& count_at(list, "bus_tie_count"@, 0) == Some(0u32)
    &&& stencil_mount_at(list, StencilMount::Ring) == Some(StencilMount::Ring)
    &&& number_at(list, "ring_lip_overlap_mm"@, 1_500_000) == Some(1_500_000int)
    &&& number_at(list, "ring_lip_height_mm"@, 1_000_000) == Some(1_000_000int)
    &&& mode_at(list, Mode::CopperWire) == Some(Mode::CopperWire)
    &&& steps_at(list) == Some(Seq::<StepModel>::empty())
}

/// A preset that repeats the built-in settings gives them: asked for by its mode, as a
/// settings file, or where there is neither mode nor file.
pub proof fn lemma_copper_wire_is_built_in(
    base: Seq<(Seq<char>, ValueModel)>,
    built: Config,
    by_flag: Config,
    by_file: Config,
)
    requires
        repeats_built_in(base),
        holds_settings(built, Seq::empty()),
        built.mode == Mode::CopperWire,
        holds_settings(by_flag, overlaid(overlaid(Seq::empty(), base), Seq::empty())),
        by_flag.mode == Mode::CopperWire,
        holds_settings(by_file, overlaid(overlaid(Seq::empty(), base), base)),
        by_file.mode == Mode::CopperWire,
    ensures
        chosen_mode(None, Seq::empty()) == Mode::CopperWire,
        all_of_kind(overlaid(overlaid(Seq::empty(), base), Seq::empty())),
        all_of_kind(overlaid(overlaid(Seq::empty(), base), base)),
        same_settings(by_flag, built),
        same_settings(by_file, built),
{
    let none = Seq::<(Seq<char>, ValueModel)>::empty();
    let once = overlaid(none, base);
    assert forall|key: Seq<char>| #[trigger] value_at(overlaid(once, none), key) == value_at(
        base,
        key,
    ) by {
        lemma_overlaid(none, base, key);
        lemma_absent(key);
    }
    assert forall|key: Seq<char>| #[trigger] value_at(overlaid(once, base), key) == value_at(
        base,
        key,
    ) by {
        lemma_overlaid(once, base, key);
        lemma_overlaid(none, base, key);
        lemma_absent(key);
    }
    lemma_absent("mode"@);
    lemma_built_in_alike(base, overlaid(once, none), by_flag, built);
    lemma_built_in_alike(base, overlaid(once, base), by_file, built);
}

proof fn lemma_absent(key: Seq<char>)
    ensures
        value_at(Seq::<(Seq<char>, ValueModel)>::empty(), key) is None,
{
    assert(place(Seq::<(Seq<char>, ValueModel)>::empty(), key) is None);
}

proof fn lemma_built_in_alike(
    base: Seq<(Seq<char>, ValueModel)>,
    list: Seq<(Seq<char>, ValueModel)>,
    c: Config,
    built: Config,
)
    requires
        repeats_built_in(base),
        forall|key: Seq<char>| #[trigger] value_at(list, key) == value_at(base, key),
        holds_settings(c, list),
        holds_settings(built, Seq::empty()),
        c.mode == built.mode,
    ensures
        all_of_kind(list),
        same_settings(c, built),
{
    assert forall|key: Seq<char>| #[trigger] value_at(
        Seq::<(Seq<char>, ValueModel)>::empty(),
        key,
    ) is None by {
        lemma_absent(key);
    }
}

/// What a settings file sets beats what the mode sets, also where it sets what is
/// built in; what the file is silent on comes from the mode.
pub proof fn lemma_file_beats_mode(
    base: Seq<(Seq<char>, ValueModel)>,
    user: Seq<(Seq<char>, ValueModel)>,
    key: Seq<char>,
)
    ensures
        value_at(overlaid(overlaid(Seq::empty(), base), user), key) == (match value_at(user, key) {
            Some(v) => Some(v),
            None => value_at(base, key),
        }),
{
    lemma_overlaid(overlaid(Seq::empty(), base), user, key);
    lemma_overlaid(Seq::empty(), base, key);
    assert(place(Seq::<(Seq<char>, ValueModel)>::empty(), key) is None);
}

/// What is asked for on the command line.
#[derive(Debug)]
pub struct CliOverrides {
    pub via_style: Option<ViaStyle>,
    pub channel_profile: Option<ChannelProfile>,
    pub channel_floor_width: Option<i64>,
    pub taper_slice_height: Option<i64>,
    pub cone_angle: Option<i64>,
    pub throat_height: Option<i64>,
    pub min_rim: Option<i64>,
    pub channel_width: Option<i64>,
    pub channel_depth: Option<i64>,
    pub eyelet_style: Option<EyeletStyle>,
    pub eyelet_diameter: Option<i64>,
    pub indent_depth: Option<i64>,
    pub pad_hole_diameter: Option<i64>,
    pub substrate_thickness: Option<i64>,
    pub scale_factor: Option<i64>,
    pub output_format: Option<OutputFormat>,
    pub output_dir: Option<String>,
    pub generate_pad_holes: Option<bool>,
    pub generate_pad_lands: Option<bool>,
    pub generate_via_indents: Option<bool>,
    pub generate_stencil: Option<bool>,
    pub stencil_plating_bus: Option<bool>,
    pub stencil_mount: Option<StencilMount>,
    pub mode: Option<Mode>,
}

impl Default for CliOverrides {
    fn default() -> (o: Self)
        ensures
            o.via_style is None,
            o.channel_profile is None,
            o.channel_floor_width is None,
            o.taper_slice_height is None,
            o.cone_angle is None,
            o.throat_height is None,
            o.min_rim is None,
            o.channel_width is None,
            o.channel_depth is None,
            o.eyelet_style is None,
            o.eyelet_diameter is None,
            o.indent_depth is None,
            o.pad_hole_diameter is None,
            o.substrate_thickness is None,
            o.scale_factor is None,
            o.output_format is None,
            o.output_dir is None,
            o.generate_pad_holes is None,
            o.generate_pad_lands is None,
            o.generate_via_indents is None,
            o.generate_stencil is None,
            o.stencil_plating_bus is None,
            o.stencil_mount is None,
            o.mode is None,
    {
        CliOverrides {
            via_style: None,
            channel_profile: None,
            channel_floor_width: None,
            taper_slice_height: None,
            cone_angle: None,
            throat_height: None,
            min_rim: None,
            channel_width: None,
            channel_depth: None,
            eyelet_style: None,
            eyelet_diameter: None,
            indent_depth: None,
            pad_hole_diameter: None,
            substrate_thickness: None,
            scale_factor: None,
            output_format: None,
            output_dir: None,
            generate_pad_holes: None,
            generate_pad_lands: None,
            generate_via_indents: None,
            generate_stencil: None,
            stencil_plating_bus: None,
            stencil_mount: None,
            mode: None,
        }
    }
}

/// What is asked for, else what was there.
pub open spec fn asked<T>(over: Option<T>, was: T) -> T {
    match over {
        Some(v) => v,
        None => was,
    }
}

fn pick<T: Copy>(over: Option<T>, was: T) -> (now: T)
    ensures
        now == asked(over, was),
{
    match over {
        Some(v) => v,
        None => was,
    }
}

/// Whether settings are the old ones with what is asked for laid over. The mode is not
/// among what is laid over here: it decides what everything is laid over.
pub open spec fn is_merged(now: Config, was: Config, over: CliOverrides) -> bool {
    &&& now.channel_width == asked(over.channel_width, was.channel_width)
    &&& now.channel_depth == asked(over.channel_depth, was.channel_depth)
    &&& now.channel_profile == asked(over.channel_profile, was.channel_profile)
    &&& now.channel_floor_width == asked(over.channel_floor_width, was.channel_floor_width)
    &&& now.taper_slice_height == asked(over.taper_slice_height, was.taper_slice_height)
    &&& now.via_style == asked(over.via_style, was.via_style)
    &&& now.cone_angle == asked(over.cone_angle, was.cone_angle)
    &&& now.throat_height == asked(over.throat_height, was.throat_height)
    &&& now.min_rim == asked(over.min_rim, was.min_rim)
    &&& now.eyelet_style == asked(over.eyelet_style, was.eyelet_style)
    &&& now.eyelet_diameter == asked(over.eyelet_diameter, was.eyelet_diameter)
    &&& now.indent_depth == asked(over.indent_depth, was.indent_depth)
    &&& now.pad_hole_diameter == asked(over.pad_hole_diameter, was.pad_hole_diameter)
    &&& now.substrate_thickness == asked(over.substrate_thickness, was.substrate_thickness)
    &&& now.scale_factor == asked(over.scale_factor, was.scale_factor)
    &&& now.output_format == asked(over.output_format, was.output_format)
    &&& now.output_dir@ == asked(over.output_dir, was.output_dir)@
    &&& now.generate_pad_holes == asked(over.generate_pad_holes, was.generate_pad_holes)
    &&& now.generate_via_indents == asked(over.generate_via_indents, was.generate_via_indents)
    &&& now.generate_pad_lands == asked(over.generate_pad_lands, was.generate_pad_lands)
    &&& now.generate_stencil == asked(over.generate_stencil, was.generate_stencil)
    &&& now.stencil_plating_bus == asked(over.stencil_plating_bus, was.stencil_plating_bus)
    &&& now.stencil_thickness == was.stencil_thickness
    &&& now.stencil_slot_clearance == was.stencil_slot_clearance
    &&& now.stencil_wall_height == was.stencil_wall_height
    &&& now.stencil_wall_thickness == was.stencil_wall_thickness
    &&& now.stencil_fit_clearance == was.stencil_fit_clearance
    &&& now.bus_width == was.bus_width
    &&& now.bus_inset == was.bus_inset
    &&& now.bus_tie_width == was.bus_tie_width
    &&& now.bus_tie_count == was.bus_tie_count
    &&& now.stencil_mount == asked(over.stencil_mount, was.stencil_mount)
    &&& now.ring_lip_overlap == was.ring_lip_overlap
    &&& now.ring_lip_height == was.ring_lip_height
    &&& now.mode == was.mode
    &&& now.assembly_steps == was.assembly_steps
}

impl Config {
    /// Lays what is asked for on the command line over the settings.
    pub fn merge_cli_overrides(&mut self, overrides: &CliOverrides)
        ensures
            is_merged(*final(self), *old(self), *overrides),
    {
        self.via_style = pick(overrides.via_style, self.via_style);
        self.channel_profile = pick(overrides.channel_profile, self.channel_profile);
        self.channel_floor_width = pick(overrides.channel_floor_width, self.channel_floor_width);
        self.taper_slice_height = pick(overrides.taper_slice_height, self.taper_slice_height);
        self.cone_angle = pick(overrides.cone_angle, self.cone_angle);
        self.throat_height = pick(overrides.throat_height, self.throat_height);
        self.min_rim = pick(overrides.min_rim, self.min_rim);
        self.channel_width = pick(overrides.channel_width, self.channel_width);
        self.channel_depth = pick(overrides.channel_depth, self.channel_depth);
        self.eyelet_style = pick(overrides.eyelet_style, self.eyelet_style);
        self.eyelet_diameter = pick(overrides.eyelet_diameter, self.eyelet_diameter);
        self.indent_depth = pick(overrides.indent_depth, self.indent_depth);
        self.pad_hole_diameter = pick(overrides.pad_hole_diameter, self.pad_hole_diameter);
        self.substrate_thickness = pick(overrides.substrate_thickness, self.substrate_thickness);
        self.scale_factor = pick(overrides.scale_factor, self.scale_factor);
        self.output_format = pick(overrides.output_format, self.output_format);
        if let Some(v) = &overrides.output_dir {
            self.output_dir = v.clone();
        }
        self.generate_pad_holes = pick(overrides.generate_pad_holes, self.generate_pad_holes);
        self.generate_pad_lands = pick(overrides.generate_pad_lands, self.generate_pad_lands);
        self.generate_via_indents = pick(overrides.generate_via_indents, self.generate_via_indents);
        self.generate_stencil = pick(overrides.generate_stencil, self.generate_stencil);
        self.stencil_plating_bus = pick(overrides.stencil_plating_bus, self.stencil_plating_bus);
        self.stencil_mount = pick(overrides.stencil_mount, self.stencil_mount);
    }
}

/// The scale of the board as it is shown.
pub open spec fn scale_text(scale_factor: int) -> Seq<char> {
    if scale_factor > 0 {
        hundredths(scale_factor) + "x (manual)"@
    } else {
        "1.00x (true size)"@
    }
}

/// Yes or no.
pub open spec fn yes_no(b: bool) -> Seq<char> {
    if b {
        "yes"@
    } else {
        "no"@
    }
}

fn say(b: bool) -> (out: &'static str)
    ensures
        out@ == yes_no(b),
{
    if b {
        "yes"
    } else {
        "no"
    }
}

/// What is shown of settings.
pub open spec fn summary_text(c: Config) -> Seq<char> {
    let text = "=== Configuration ===\n"@
        + "Mode:                "@ + mode_name(c.mode) + "\n"@
        + "Channel width:       "@ + hundredths(c.channel_width as int) + " mm\n"@
        + "Channel depth:       "@ + hundredths(c.channel_depth as int) + " mm\n"@
        + "Eyelet style:        "@ + eyelet_style_name(c.eyelet_style) + "\n"@
        + "Eyelet diameter:     "@ + hundredths(c.eyelet_diameter as int) + " mm\n"@
        + "Indent depth:        "@ + hundredths(c.indent_depth as int) + " mm\n"@
        + "Pad hole diameter:   "@ + hundredths(c.pad_hole_diameter as int) + " mm\n"@
        + "Substrate thickness: "@ + hundredths(c.substrate_thickness as int) + " mm\n"@
        + "Scale factor:        "@ + scale_text(c.scale_factor as int) + "\n"@
        + "Output format:       "@ + output_format_name(c.output_format) + "\n"@
        + "Output directory:    "@ + c.output_dir@ + "\n"@
        + "Generate pad holes:  "@ + yes_no(c.generate_pad_holes) + "\n"@
        + "Generate pad lands:  "@ + yes_no(c.generate_pad_lands) + "\n"@
        + "Generate via indents: "@ + yes_no(c.generate_via_indents) + "\n"@;
    if c.generate_stencil {
        text + "Stencil mount:       "@ + stencil_mount_name(c.stencil_mount) + "\n"@
    } else {
        text
    }
}

impl Config {
    /// What is shown of the settings.
    pub fn summary(&self) -> (out: String)
        ensures
            out@ == summary_text(*self),
    {
        let mut out = to_chars("=== Configuration ===\n");
        extend_str(&mut out, "Mode:                ");
        extend_str(&mut out, self.mode.name());
        extend_str(&mut out, "\n");
        extend_str(&mut out, "Channel width:       ");
        extend_hundredths(&mut out, self.channel_width);
        extend_str(&mut out, " mm\n");
        extend_str(&mut out, "Channel depth:       ");
        extend_hundredths(&mut out, self.channel_depth);
        extend_str(&mut out, " mm\n");
        extend_str(&mut out, "Eyelet style:        ");
        extend_str(&mut out, self.eyelet_style.name());
        extend_str(&mut out, "\n");
        extend_str(&mut out, "Eyelet diameter:     ");
        extend_hundredths(&mut out, self.eyelet_diameter);
        extend_str(&mut out, " mm\n");
        extend_str(&mut out, "Indent depth:        ");
        extend_hundredths(&mut out, self.indent_depth);
        extend_str(&mut out, " mm\n");
        extend_str(&mut out, "Pad hole diameter:   ");
        extend_hundredths(&mut out, self.pad_hole_diameter);
        extend_str(&mut out, " mm\n");
        extend_str(&mut out, "Substrate thickness: ");
        extend_hundredths(&mut out, self.substrate_thickness);
        extend_str(&mut out, " mm\n");
        extend_str(&mut out, "Scale factor:        ");
        extend_scale(&mut out, self.scale_factor);
        extend_str(&mut out, "\n");
        extend_str(&mut out, "Output format:       ");
        extend_str(&mut out, self.output_format.name());
        extend_str(&mut out, "\n");
        extend_str(&mut out, "Output directory:    ");
        extend_str(&mut out, self.output_dir.as_str());
        extend_str(&mut out, "\n");
        extend_str(&mut out, "Generate pad holes:  ");
        extend_str(&mut out, say(self.generate_pad_holes));
        extend_str(&mut out, "\n");
        extend_str(&mut out, "Generate pad lands:  ");
        extend_str(&mut out, say(self.generate_pad_lands));
        extend_str(&mut out, "\n");
        extend_str(&mut out, "Generate via indents: ");
        extend_str(&mut out, say(self.generate_via_indents));
        extend_str(&mut out, "\n");
        if self.generate_stencil {
            extend_str(&mut out, "Stencil mount:       ");
            extend_str(&mut out, self.stencil_mount.name());
            extend_str(&mut out, "\n");
        }
        to_text(out.as_slice())
    }
}

fn extend_scale(out: &mut Vec<char>, scale_factor: i64)
    ensures
        final(out)@ == old(out)@ + scale_text(scale_factor as int),
{
    if scale_factor > 0 {
        extend_hundredths(out, scale_factor);
        extend_str(out, "x (manual)");
    } else {
        extend_str(out, "1.00x (true size)");
    }
    proof {
        assert(out@ =~= old(out)@ + scale_text(scale_factor as int));
    }
}

/// The scale that is applied to the board, in millionths. True size, unless a scale
/// is asked for: the spacing of part holes is a physical constraint.
pub fn compute_scale_factor(config: &Config) -> (scale: i64)
    ensures
        scale == (if config.scale_factor > 0 {
            config.scale_factor as int
        } else {
            1_000_000
        }),
{
    if config.scale_factor > 0 {
        config.scale_factor
    } else {
        1_000_000
    }
}

/// Whether a scale is so far from true size that parts no longer fit: by more than a
/// thousandth.
pub fn is_rescaled(scale: i64) -> (yes: bool)
    ensures
        yes == (scale > 1_001_000 || scale < 999_000),
{
    scale > 1_001_000 || scale < 999_000
}

/// Arguments of the command line, as they are given.
#[derive(Debug)]
pub struct Arguments {
    pub mode: Option<String>,
    pub channel_profile: Option<String>,
    pub via_style: Option<String>,
    pub eyelet_style: Option<String>,
    pub format: Option<String>,
    pub stencil_mount: Option<String>,
    pub channel_width: Option<i64>,
    pub channel_depth: Option<i64>,
    pub channel_floor_width: Option<i64>,
    pub taper_slice_height: Option<i64>,
    pub cone_angle: Option<i64>,
    pub throat_height: Option<i64>,
    pub min_rim: Option<i64>,
    pub eyelet_diameter: Option<i64>,
    pub indent_depth: Option<i64>,
    pub pad_hole_diameter: Option<i64>,
    pub substrate_thickness: Option<i64>,
    pub scale: Option<i64>,
    pub output_dir: Option<String>,
    pub no_pad_holes: bool,
    pub no_pad_lands: bool,
    pub no_via_indents: bool,
    pub stencil: bool,
    pub plating_bus: bool,
}

/// The name of a choice is known, or none is given.
pub open spec fn eyelet_style_known(name: Option<String>) -> bool {
    name matches Some(t) ==> eyelet_style_named(lowercase(t@)) is Some
}

/// What is said of a name that is not known.
pub open spec fn bad_eyelet_style(name: Option<String>) -> Seq<char> {
    "Invalid eyelet-style: "@ + unknown("eyelet style"@, lowercase(name->0@), "'hole' or 'indent'"@)
}

fn parse_eyelet_style(name: &Option<String>) -> (found: Result<Option<EyeletStyle>, String>)
    ensures
        found is Ok == eyelet_style_known(*name),
        found is Err ==> found->Err_0@ == bad_eyelet_style(*name),
        found matches Ok(v) ==> v == (match *name {
            Some(t) => eyelet_style_named(lowercase(t@)),
            None => None,
        }),
{
    match name {
        None => Ok(None),
        Some(t) => match EyeletStyle::from_str(t.as_str()) {
            Ok(v) => Ok(Some(v)),
            Err(e) => {
                let mut out = to_chars("Invalid eyelet-style: ");
                extend_str(&mut out, e.as_str());
                Err(to_text(out.as_slice()))
            },
        },
    }
}

/// Whether the name of a choice is known, or none is given.
pub open spec fn via_style_known(name: Option<String>) -> bool {
    name matches Some(t) ==> via_style_named(lowercase(t@)) is Some
}

/// What is said of a name that is not known.
pub open spec fn bad_via_style(name: Option<String>) -> Seq<char> {
    "Invalid via-style: "@ + unknown("via style"@, lowercase(name->0@), "'straight' or 'cone'"@)
}

fn parse_via_style(name: &Option<String>) -> (found: Result<Option<ViaStyle>, String>)
    ensures
        found is Ok == via_style_known(*name),
        found is Err ==> found->Err_0@ == bad_via_style(*name),
        found matches Ok(v) ==> v == (match *name {
            Some(t) => via_style_named(lowercase(t@)),
            None => None,
        }),
{
    match name {
        None => Ok(None),
        Some(t) => match ViaStyle::from_str(t.as_str()) {
            Ok(v) => Ok(Some(v)),
            Err(e) => {
                let mut out = to_chars("Invalid via-style: ");
                extend_str(&mut out, e.as_str());
                Err(to_text(out.as_slice()))
            },
        },
    }
}

/// Whether the name of a choice is known, or none is given.
pub open spec fn channel_profile_known(name: Option<String>) -> bool {
    name matches Some(t) ==> channel_profile_named(lowercase(t@)) is Some
}

/// What is said of a name that is not known.
pub open spec fn bad_channel_profile(name: Option<String>) -> Seq<char> {
    "Invalid channel-profile: "@ + unknown("channel profile"@, lowercase(name->0@), "'rect', 'trapezoid', or 'vee'"@)
}

fn parse_channel_profile(name: &Option<String>) -> (found: Result<Option<ChannelProfile>, String>)
    ensures
        found is Ok == channel_profile_known(*name),
        found is Err ==> found->Err_0@ == bad_channel_profile(*name),
        found matches Ok(v) ==> v == (match *name {
            Some(t) => channel_profile_named(lowercase(t@)),
            None => None,
        }),
{
    match name {
        None => Ok(None),
        Some(t) => match ChannelProfile::from_str(t.as_str()) {
            Ok(v) => Ok(Some(v)),
            Err(e) => {
                let mut out = to_chars("Invalid channel-profile: ");
                extend_str(&mut out, e.as_str());
                Err(to_text(out.as_slice()))
            },
        },
    }
}

/// Whether the name of a choice is known, or none is given.
pub open spec fn output_format_known(name: Option<String>) -> bool {
    name matches Some(t) ==> output_format_named(lowercase(t@)) is Some
}

/// What is said of a name that is not known.
pub open spec fn bad_output_format(name: Option<String>) -> Seq<char> {
    "Invalid output format: "@ + unknown("format"@, lowercase(name->0@), "'stl', '3mf', or 'both'"@)
}

fn parse_output_format(name: &Option<String>) -> (found: Result<Option<OutputFormat>, String>)
    ensures
        found is Ok == output_format_known(*name),
        found is Err ==> found->Err_0@ == bad_output_format(*name),
        found matches Ok(v) ==> v == (match *name {
            Some(t) => output_format_named(lowercase(t@)),
            None => None,
        }),
{
    match name {
        None => Ok(None),
        Some(t) => match OutputFormat::from_str(t.as_str()) {
            Ok(v) => Ok(Some(v)),
            Err(e) => {
                let mut out = to_chars("Invalid output format: ");
                extend_str(&mut out, e.as_str());
                Err(to_text(out.as_slice()))
            },
        },
    }
}

/// Whether the name of a choice is known, or none is given.
pub open spec fn mode_known(name: Option<String>) -> bool {
    name matches Some(t) ==> mode_named(lowercase(t@)) is Some
}

/// What is said of a name that is not known.
pub open spec fn bad_mode(name: Option<String>) -> Seq<char> {
    "Invalid mode: "@ + unknown("mode"@, lowercase(name->0@), "'copper-wire' or 'electrolysis'"@)
}

fn parse_mode(name: &Option<String>) -> (found: Result<Option<Mode>, String>)
    ensures
        found is Ok == mode_known(*name),
        found is Err ==> found->Err_0@ == bad_mode(*name),
        found matches Ok(v) ==> v == (match *name {
            Some(t) => mode_named(lowercase(t@)),
            None => None,
        }),
{
    match name {
        None => Ok(None),
        Some(t) => match Mode::from_str(t.as_str()) {
            Ok(v) => Ok(Some(v)),
            Err(e) => {
                let mut out = to_chars("Invalid mode: ");
                extend_str(&mut out, e.as_str());
                Err(to_text(out.as_slice()))
            },
        },
    }
}

/// Whether the name of a choice is known, or none is given.
pub open spec fn stencil_mount_known(name: Option<String>) -> bool {
    name matches Some(t) ==> stencil_mount_named(lowercase(t@)) is Some
}

/// What is said of a name that is not known.
pub open spec fn bad_stencil_mount(name: Option<String>) -> Seq<char> {
    "Invalid stencil-mount: "@ + unknown("stencil mount"@, lowercase(name->0@), "'lip' or 'ring'"@)
}

fn parse_stencil_mount(name: &Option<String>) -> (found: Result<Option<StencilMount>, String>)
    ensures
        found is Ok == stencil_mount_known(*name),
        found is Err ==> found->Err_0@ == bad_stencil_mount(*name),
        found matches Ok(v) ==> v == (match *name {
            Some(t) => stencil_mount_named(lowercase(t@)),
            None => None,
        }),
{
    match name {
        None => Ok(None),
        Some(t) => match StencilMount::from_str(t.as_str()) {
            Ok(v) => Ok(Some(v)),
            Err(e) => {
                let mut out = to_chars("Invalid stencil-mount: ");
                extend_str(&mut out, e.as_str());
                Err(to_text(out.as_slice()))
            },
        },
    }
}

/// What is chosen by name, if anything.
pub open spec fn set_if(b: bool, v: bool) -> Option<bool> {
    if b {
        Some(v)
    } else {
        None
    }
}

fn some_if(b: bool, v: bool) -> (out: Option<bool>)
    ensures
        out == set_if(b, v),
{
    if b {
        Some(v)
    } else {
        None
    }
}

fn copied(text: &Option<String>) -> (out: Option<String>)
    ensures
        as_text(out) == as_text(*text),
{
    match text {
        Some(t) => Some(t.clone()),
        None => None,
    }
}

/// Whether what is asked for is what the arguments say.
pub open spec fn says(over: CliOverrides, args: Arguments) -> bool {
    &&& over.eyelet_style == (match args.eyelet_style {
        Some(t) => eyelet_style_named(lowercase(t@)),
        None => None,
    })
    &&& over.via_style == (match args.via_style {
        Some(t) => via_style_named(lowercase(t@)),
        None => None,
    })
    &&& over.channel_profile == (match args.channel_profile {
        Some(t) => channel_profile_named(lowercase(t@)),
        None => None,
    })
    &&& over.output_format == (match args.format {
        Some(t) => output_format_named(lowercase(t@)),
        None => None,
    })
    &&& over.mode == (match args.mode {
        Some(t) => mode_named(lowercase(t@)),
        None => None,
    })
    &&& over.stencil_mount == (match args.stencil_mount {
        Some(t) => stencil_mount_named(lowercase(t@)),
        None => None,
    })
    &&& over.channel_width == args.channel_width
    &&& over.channel_depth == args.channel_depth
    &&& over.channel_floor_width == args.channel_floor_width
    &&& over.taper_slice_height == args.taper_slice_height
    &&& over.cone_angle == args.cone_angle
    &&& over.throat_height == args.throat_height
    &&& over.min_rim == args.min_rim
    &&& over.eyelet_diameter == args.eyelet_diameter
    &&& over.indent_depth == args.indent_depth
    &&& over.pad_hole_diameter == args.pad_hole_diameter
    &&& over.substrate_thickness == args.substrate_thickness
    &&& over.scale_factor == args.scale
    &&& as_text(over.output_dir) == as_text(args.output_dir)
    &&& over.generate_pad_holes == set_if(args.no_pad_holes, false)
    &&& over.generate_pad_lands == set_if(args.no_pad_lands, false)
    &&& over.generate_via_indents == set_if(args.no_via_indents, false)
    &&& over.generate_stencil == set_if(args.stencil, true)
    &&& over.stencil_plating_bus == set_if(args.plating_bus, true)
}

impl Arguments {
    /// What the arguments ask for; fails on the first name that is not known.
    pub fn to_overrides(&self) -> (found: Result<CliOverrides, String>)
        ensures
            if !eyelet_style_known(self.eyelet_style) {
                found is Err && found->Err_0@ == bad_eyelet_style(self.eyelet_style)
            } else if !via_style_known(self.via_style) {
                found is Err && found->Err_0@ == bad_via_style(self.via_style)
            } else if !channel_profile_known(self.channel_profile) {
                found is Err && found->Err_0@ == bad_channel_profile(self.channel_profile)
            } else if !output_format_known(self.format) {
                found is Err && found->Err_0@ == bad_output_format(self.format)
            } else if !mode_known(self.mode) {
                found is Err && found->Err_0@ == bad_mode(self.mode)
            } else if !stencil_mount_known(self.stencil_mount) {
                found is Err && found->Err_0@ == bad_stencil_mount(self.stencil_mount)
            } else {
                found is Ok && says(found->Ok_0, *self)
            },
    {
        let eyelet_style = match parse_eyelet_style(&self.eyelet_style) {
            Ok(v) => v,
            Err(e) => {
                return Err(e);
            },
        };
        let via_style = match parse_via_style(&self.via_style) {
            Ok(v) => v,
            Err(e) => {
                return Err(e);
            },
        };
        let channel_profile = match parse_channel_profile(&self.channel_profile) {
            Ok(v) => v,
            Err(e) => {
                return Err(e);
            },
        };
        let output_format = match parse_output_format(&self.format) {
            Ok(v) => v,
            Err(e) => {
                return Err(e);
            },
        };
        let mode = match parse_mode(&self.mode) {
            Ok(v) => v,
            Err(e) => {
                return Err(e);
            },
        };
        let stencil_mount = match parse_stencil_mount(&self.stencil_mount) {
            Ok(v) => v,
            Err(e) => {
                return Err(e);
            },
        };
        Ok(
            CliOverrides {
                channel_width: self.channel_width,
                channel_depth: self.channel_depth,
                channel_floor_width: self.channel_floor_width,
                taper_slice_height: self.taper_slice_height,
                cone_angle: self.cone_angle,
                throat_height: self.throat_height,
                min_rim: self.min_rim,
                eyelet_diameter: self.eyelet_diameter,
                indent_depth: self.indent_depth,
                pad_hole_diameter: self.pad_hole_diameter,
                substrate_thickness: self.substrate_thickness,
                eyelet_style,
                via_style,
                channel_profile,
                output_format,
                mode,
                stencil_mount,
                scale_factor: self.scale,
                output_dir: copied(&self.output_dir),
                generate_pad_holes: some_if(self.no_pad_holes, false),
                generate_pad_lands: some_if(self.no_pad_lands, false),
                generate_via_indents: some_if(self.no_via_indents, false),
                generate_stencil: some_if(self.stencil, true),
                stencil_plating_bus: some_if(self.plating_bus, true),
            },
        )
    }
}

} // verus!
