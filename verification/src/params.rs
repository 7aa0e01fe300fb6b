//! What the tools can be asked for. What is not given has a usual value.

use vstd::prelude::*;

verus! {

/// A file to be written.
#[derive(Debug)]
pub struct WritePcbParams {
    pub path: String,
    pub content: String,
}

/// A board to be rendered. The zoom is in millionths.
#[derive(Debug)]
pub struct RenderPcbParams {
    pub path: String,
    pub side: Option<String>,
    pub width: Option<u32>,
    pub height: Option<u32>,
    pub quality: Option<String>,
    pub zoom: Option<i64>,
}

impl RenderPcbParams {
    /// How wide the picture is, in pixels.
    pub fn width_or_usual(&self) -> (n: u32)
        ensures
            n == match self.width {
                Some(n) => n,
                None => 1200,
            },
    {
        match self.width {
            Some(n) => n,
            None => 1200,
        }
    }

    /// How high the picture is, in pixels.
    pub fn height_or_usual(&self) -> (n: u32)
        ensures
            n == match self.height {
                Some(n) => n,
                None => 800,
            },
    {
        match self.height {
            Some(n) => n,
            None => 800,
        }
    }

    /// How carefully it is rendered.
    pub fn quality_or_usual(&self) -> (t: &str)
        ensures
            t@ == match self.quality {
                Some(t) => t@,
                None => "high"@,
            },
    {
        match &self.quality {
            Some(t) => t.as_str(),
            None => "high",
        }
    }

    /// How far it is zoomed in on.
    pub fn zoom_or_usual(&self) -> (n: i64)
        ensures
            n == match self.zoom {
                Some(n) => n,
                None => 1_500_000,
            },
    {
        match self.zoom {
            Some(n) => n,
            None => 1_500_000,
        }
    }
}

/// A board whose design rules are to be checked.
#[derive(Debug)]
pub struct DrcParams {
    pub path: String,
}

/// A schematic.
#[derive(Debug)]
pub struct SchematicParams {
    pub path: String,
}

/// A footprint library, by its name or path.
#[derive(Debug)]
pub struct LibraryParams {
    pub library: String,
}

/// A footprint of a library.
#[derive(Debug)]
pub struct GetFootprintParams {
    pub library: String,
    pub footprint: String,
}

/// Nothing to be told.
#[derive(Debug)]
pub struct NoParams {}

/// The directory of a project.
#[derive(Debug)]
pub struct ScanProjectParams {
    pub path: String,
}

/// Layers of a board to be drawn.
#[derive(Debug)]
pub struct ExportSvgParams {
    pub path: String,
    pub layers: String,
}

/// A text to be searched for among footprints.
#[derive(Debug)]
pub struct SearchFootprintParams {
    pub query: String,
    pub max_results: Option<usize>,
    pub project_path: Option<String>,
}

/// A part of a board.
#[derive(Debug)]
pub struct GetComponentParams {
    pub path: String,
    pub reference: String,
}

/// Another footprint for a part.
#[derive(Debug)]
pub struct ReplaceFootprintParams {
    pub path: String,
    pub reference: String,
    pub library: String,
    pub footprint: String,
    pub keep_position: Option<bool>,
}

impl ReplaceFootprintParams {
    /// Whether the part stays where it is.
    pub fn keeps_position(&self) -> (yes: bool)
        ensures
            yes == match self.keep_position {
                Some(b) => b,
                None => true,
            },
    {
        match self.keep_position {
            Some(b) => b,
            None => true,
        }
    }
}

/// Parts to be taken off a board.
#[derive(Debug)]
pub struct DeleteComponentParams {
    pub path: String,
    pub refs: Vec<String>,
}

/// A text to be searched for in a file.
#[derive(Debug)]
pub struct GrepKicadParams {
    pub path: String,
    pub query: String,
    pub context_lines: Option<usize>,
    pub max_matches: Option<usize>,
}

impl GrepKicadParams {
    /// How many lines are shown around each place.
    pub fn context_or_usual(&self) -> (n: usize)
        ensures
            n == match self.context_lines {
                Some(n) => n,
                None => 3,
            },
    {
        match self.context_lines {
            Some(n) => n,
            None => 3,
        }
    }

    /// How many places are shown.
    pub fn most_or_usual(&self) -> (n: usize)
        ensures
            n == match self.max_matches {
                Some(n) => n,
                None => 20,
            },
    {
        match self.max_matches {
            Some(n) => n,
            None => 20,
        }
    }
}

/// Lines of a file.
#[derive(Debug)]
pub struct ReadSectionParams {
    pub path: String,
    pub offset: Option<usize>,
    pub limit: Option<usize>,
}

impl ReadSectionParams {
    /// The line to begin with.
    pub fn first_line(&self) -> (n: usize)
        ensures
            n == match self.offset {
                Some(n) => n,
                None => 1,
            },
    {
        match self.offset {
            Some(n) => n,
            None => 1,
        }
    }

    /// How many lines are shown.
    pub fn most_lines(&self) -> (n: usize)
        ensures
            n == match self.limit {
                Some(n) => n,
                None => 300,
            },
    {
        match self.limit {
            Some(n) => n,
            None => 300,
        }
    }
}

/// A text of a file to be replaced.
#[derive(Debug)]
pub struct PatchKicadParams {
    pub path: String,
    pub old_string: String,
    pub new_string: String,
    pub replace_all: Option<bool>,
    pub render_preview: Option<bool>,
}

impl PatchKicadParams {
    /// Whether every occurrence is replaced.
    pub fn replaces_all(&self) -> (yes: bool)
        ensures
            yes == match self.replace_all {
                Some(b) => b,
                None => false,
            },
    {
        match self.replace_all {
            Some(b) => b,
            None => false,
        }
    }

    /// Whether the file is rendered afterwards.
    pub fn wants_preview(&self) -> (yes: bool)
        ensures
            yes == match self.render_preview {
                Some(b) => b,
                None => true,
            },
    {
        match self.render_preview {
            Some(b) => b,
            None => true,
        }
    }
}

/// A schematic to be rendered.
#[derive(Debug)]
pub struct RenderSchematicParams {
    pub path: String,
    pub theme: Option<String>,
    pub black_and_white: Option<bool>,
    pub width: Option<u32>,
}

impl RenderSchematicParams {
    /// How wide the picture is, in pixels.
    pub fn width_or_usual(&self) -> (n: u32)
        ensures
            n == match self.width {
                Some(n) => n,
                None => 2400,
            },
    {
        match self.width {
            Some(n) => n,
            None => 2400,
        }
    }

    /// Whether it is drawn in black and white.
    pub fn is_plain(&self) -> (yes: bool)
        ensures
            yes == match self.black_and_white {
                Some(b) => b,
                None => false,
            },
    {
        match self.black_and_white {
            Some(b) => b,
            None => false,
        }
    }
}

/// Where a part is to go. Lengths are in nanometres, turns in millionths of a degree.
#[derive(Debug)]
pub struct MoveComponentParams {
    pub path: String,
    pub reference: String,
    pub x: Option<i64>,
    pub y: Option<i64>,
    pub dx: Option<i64>,
    pub dy: Option<i64>,
    pub rotation: Option<i64>,
}

/// A part to be placed on a board. Lengths are in nanometres.
#[derive(Debug)]
pub struct AddComponentParams {
    pub path: String,
    pub library: String,
    pub footprint: String,
    pub reference: String,
    pub value: String,
    pub x: i64,
    pub y: i64,
    pub rotation: Option<i64>,
}

/// A schematic whose rules are to be checked.
#[derive(Debug)]
pub struct ErcParams {
    pub path: String,
}

/// Files for fabrication.
#[derive(Debug)]
pub struct ExportFabParams {
    pub path: String,
    pub output_dir: Option<String>,
    pub layers: Option<String>,
    pub zip: Option<bool>,
}

impl ExportFabParams {
    /// Whether the files are put into an archive.
    pub fn wants_archive(&self) -> (yes: bool)
        ensures
            yes == match self.zip {
                Some(b) => b,
                None => true,
            },
    {
        match self.zip {
            Some(b) => b,
            None => true,
        }
    }
}

/// A board to be brought up to date with its schematic.
#[derive(Debug)]
pub struct UpdatePcbFromSchParams {
    pub sch_path: String,
    pub pcb_path: String,
    pub dry_run: Option<bool>,
}

impl UpdatePcbFromSchParams {
    /// Whether nothing is written.
    pub fn only_plans(&self) -> (yes: bool)
        ensures
            yes == match self.dry_run {
                Some(b) => b,
                None => false,
            },
    {
        match self.dry_run {
            Some(b) => b,
            None => false,
        }
    }
}

/// A wire to be added. Lengths are in nanometres.
#[derive(Debug)]
pub struct AddWireParams {
    pub path: String,
    pub x1: i64,
    pub y1: i64,
    pub x2: i64,
    pub y2: i64,
}

/// A label to be added. Lengths are in nanometres.
#[derive(Debug)]
pub struct AddLabelParams {
    pub path: String,
    pub text: String,
    pub x: i64,
    pub y: i64,
    pub rotation: Option<i64>,
    pub label_type: Option<String>,
    pub global_shape: Option<String>,
}

/// Where a label is to go. Lengths are in nanometres.
#[derive(Debug)]
pub struct MoveLabelParams {
    pub path: String,
    pub text: String,
    pub old_x: i64,
    pub old_y: i64,
    pub new_x: i64,
    pub new_y: i64,
    pub new_rotation: Option<i64>,
}

/// Another definition for a symbol.
#[derive(Debug)]
pub struct ReplaceSymbolParams {
    pub path: String,
    pub reference: String,
    pub new_lib_id: String,
    pub new_footprint: Option<String>,
    pub new_value: Option<String>,
}

/// Traces that lead nowhere, to be removed.
#[derive(Debug)]
pub struct CleanupTracesParams {
    pub path: String,
    pub layers: Option<String>,
    pub dry_run: Option<bool>,
}

impl CleanupTracesParams {
    /// Whether nothing is written.
    pub fn only_plans(&self) -> (yes: bool)
        ensures
            yes == match self.dry_run {
                Some(b) => b,
                None => false,
            },
    {
        match self.dry_run {
            Some(b) => b,
            None => false,
        }
    }
}

/// A board whose zones are to be filled.
#[derive(Debug)]
pub struct FillZonesParams {
    pub path: String,
}

/// A board to be routed.
#[derive(Debug)]
pub struct AutoroutePcbParams {
    pub path: String,
    pub max_passes: Option<u32>,
    pub freerouting_jar: Option<String>,
    pub save: Option<bool>,
}

impl AutoroutePcbParams {
    /// How often the router goes over the board.
    pub fn passes(&self) -> (n: u32)
        ensures
            n == match self.max_passes {
                Some(n) => n,
                None => 40,
            },
    {
        match self.max_passes {
            Some(n) => n,
            None => 40,
        }
    }

    /// Whether the board itself is written.
    pub fn saves(&self) -> (yes: bool)
        ensures
            yes == match self.save {
                Some(b) => b,
                None => true,
            },
    {
        match self.save {
            Some(b) => b,
            None => true,
        }
    }
}

/// Wires with a loose end, to be removed.
#[derive(Debug)]
pub struct CleanupDanglingWiresParams {
    pub path: String,
    pub dry_run: Option<bool>,
}

impl CleanupDanglingWiresParams {
    /// Whether nothing is written.
    pub fn only_plans(&self) -> (yes: bool)
        ensures
            yes == match self.dry_run {
                Some(b) => b,
                None => false,
            },
    {
        match self.dry_run {
            Some(b) => b,
            None => false,
        }
    }
}

/// A board whose outline is asked for.
#[derive(Debug)]
pub struct GetBoardOutlineParams {
    pub path: String,
}

/// A rectangle for the outline of a board. Lengths are in nanometres.
#[derive(Debug)]
pub struct SetBoardOutlineParams {
    pub path: String,
    pub x_min: i64,
    pub y_min: i64,
    pub x_max: i64,
    pub y_max: i64,
    pub update_zones: Option<bool>,
}

impl SetBoardOutlineParams {
    /// Whether the zones follow.
    pub fn updates_zones(&self) -> (yes: bool)
        ensures
            yes == match self.update_zones {
                Some(b) => b,
                None => true,
            },
    {
        match self.update_zones {
            Some(b) => b,
            None => true,
        }
    }
}

/// A trace to be added. Lengths are in nanometres.
#[derive(Debug)]
pub struct AddTraceParams {
    pub path: String,
    pub x1: i64,
    pub y1: i64,
    pub x2: i64,
    pub y2: i64,
    pub layer: String,
    pub width: Option<i64>,
    pub net: Option<String>,
    pub check: Option<bool>,
    pub force: Option<bool>,
}

impl AddTraceParams {
    /// How wide the trace is.
    pub fn width_or_usual(&self) -> (n: i64)
        ensures
            n == match self.width {
                Some(n) => n,
                None => 250_000,
            },
    {
        match self.width {
            Some(n) => n,
            None => 250_000,
        }
    }

    /// The net of the trace.
    pub fn net_or_none(&self) -> (t: &str)
        ensures
            t@ == match self.net {
                Some(t) => t@,
                None => ""@,
            },
    {
        match &self.net {
            Some(t) => t.as_str(),
            None => "",
        }
    }

    /// Whether it is checked first.
    pub fn is_checked(&self) -> (yes: bool)
        ensures
            yes == match self.check {
                Some(b) => b,
                None => false,
            },
    {
        match self.check {
            Some(b) => b,
            None => false,
        }
    }

    /// Whether it is added whatever it touches.
    pub fn is_forced(&self) -> (yes: bool)
        ensures
            yes == match self.force {
                Some(b) => b,
                None => false,
            },
    {
        match self.force {
            Some(b) => b,
            None => false,
        }
    }
}

/// Drawings to be deleted.
#[derive(Debug)]
pub struct DeleteGraphicParams {
    pub path: String,
    pub text_contains: Option<String>,
    pub layer: Option<String>,
    pub tstamp: Option<String>,
    pub include_footprints: Option<bool>,
}

impl DeleteGraphicParams {
    /// Whether footprints go too.
    pub fn takes_footprints(&self) -> (yes: bool)
        ensures
            yes == match self.include_footprints {
                Some(b) => b,
                None => false,
            },
    {
        match self.include_footprints {
            Some(b) => b,
            None => false,
        }
    }
}

/// Traces to be deleted. Lengths are in nanometres.
#[derive(Debug)]
pub struct DeleteTraceParams {
    pub path: String,
    pub net: Option<String>,
    pub layer: Option<String>,
    pub uuid: Option<String>,
    pub x1: Option<i64>,
    pub y1: Option<i64>,
    pub x2: Option<i64>,
    pub y2: Option<i64>,
    pub dry_run: Option<bool>,
}

impl DeleteTraceParams {
    /// Whether nothing is written.
    pub fn only_plans(&self) -> (yes: bool)
        ensures
            yes == match self.dry_run {
                Some(b) => b,
                None => false,
            },
    {
        match self.dry_run {
            Some(b) => b,
            None => false,
        }
    }
}

/// Something to be drawn on a board. Lengths are in nanometres.
#[derive(Debug)]
pub struct AddGraphicParams {
    pub path: String,
    pub graphic_type: Option<String>,
    pub text: Option<String>,
    pub x: i64,
    pub y: i64,
    pub x2: Option<i64>,
    pub y2: Option<i64>,
    pub layer: Option<String>,
    pub font_size: Option<i64>,
    pub width: Option<i64>,
    pub rotation: Option<i64>,
}

/// Pads of a part.
#[derive(Debug)]
pub struct GetPadPositionParams {
    pub path: String,
    pub reference: String,
    pub pad: Option<String>,
}

/// Where a symbol is to go. Lengths are in nanometres.
#[derive(Debug)]
pub struct MoveSymbolParams {
    pub path: String,
    pub reference: String,
    pub x: i64,
    pub y: i64,
    pub rotation: Option<i64>,
}

/// Pins of a symbol.
#[derive(Debug)]
pub struct GetPinPositionParams {
    pub path: String,
    pub reference: String,
    pub pin: Option<String>,
}

/// A board whose nets are asked for.
#[derive(Debug)]
pub struct ListNetsParams {
    pub path: String,
}

/// A rectangle whose pads are asked for. Lengths are in nanometres.
#[derive(Debug)]
pub struct QueryPadsInRegionParams {
    pub path: String,
    pub x1: i64,
    pub y1: i64,
    pub x2: i64,
    pub y2: i64,
    pub layer: Option<String>,
}

/// A rectangle whose traces are asked for. Lengths are in nanometres.
#[derive(Debug)]
pub struct QueryTracesInRegionParams {
    pub path: String,
    pub x1: i64,
    pub y1: i64,
    pub x2: i64,
    pub y2: i64,
    pub layer: Option<String>,
    pub net: Option<String>,
}

/// A trace to be checked. Lengths are in nanometres.
#[derive(Debug)]
pub struct CheckTraceClearanceParams {
    pub path: String,
    pub x1: i64,
    pub y1: i64,
    pub x2: i64,
    pub y2: i64,
    pub layer: String,
    pub width: Option<i64>,
    pub clearance: Option<i64>,
    pub net: Option<String>,
}

impl CheckTraceClearanceParams {
    /// How wide the trace is.
    pub fn width_or_usual(&self) -> (n: i64)
        ensures
            n == match self.width {
                Some(n) => n,
                None => 250_000,
            },
    {
        match self.width {
            Some(n) => n,
            None => 250_000,
        }
    }

    /// How much room it needs.
    pub fn gap_or_usual(&self) -> (n: i64)
        ensures
            n == match self.clearance {
                Some(n) => n,
                None => 100_000,
            },
    {
        match self.clearance {
            Some(n) => n,
            None => 100_000,
        }
    }

    /// The net of the trace.
    pub fn net_or_none(&self) -> (t: &str)
        ensures
            t@ == match self.net {
                Some(t) => t@,
                None => ""@,
            },
    {
        match &self.net {
            Some(t) => t.as_str(),
            None => "",
        }
    }
}

/// A power symbol to be placed. Lengths are in nanometres.
#[derive(Debug)]
pub struct AddPowerSymbolParams {
    pub path: String,
    pub net_name: String,
    pub x: i64,
    pub y: i64,
    pub rotation: Option<i64>,
}

/// A pad of a part.
#[derive(Debug)]
pub struct GetNetForPadParams {
    pub path: String,
    pub reference: String,
    pub pad_number: String,
}

/// Two pads.
#[derive(Debug)]
pub struct VerifyConnectivityParams {
    pub path: String,
    pub ref_a: String,
    pub pad_a: String,
    pub ref_b: String,
    pub pad_b: String,
}

} // verus!
