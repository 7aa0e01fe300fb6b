//! Cross-sections of grooves, and the bands that approximate sloped walls.

use crate::bores::{upper_of, MIN_BAND_GROWTH};
use crate::distance::lesser;
use crate::choices::{channel_profile_name, ChannelProfile, EyeletStyle, ViaStyle};
use crate::config::Config;
use crate::pcb::Pad;
use crate::strings::{decimal, number, strings};
use crate::text::{extend, extend_str, to_chars, to_text};
use crate::units::{extend_fixed, extend_hundredths, fixed, hundredths};
use vstd::prelude::*;

verus! {

/// The narrowest floor that prints.
pub const MIN_TAPER_FLOOR: i64 = 400_000;

/// The width at which a vee ends.
pub const VEE_APEX_WIDTH: i64 = 100_000;

/// The most bands that a taper is made of.
pub const MAX_TAPER_BANDS: usize = 8;

/// A number brought between two others.
pub open spec fn clamped(n: int, low: int, high: int) -> int {
    if n < low {
        low
    } else if n > high {
        high
    } else {
        n
    }
}

/// How wide the floor of a groove is. A trapezoid's is meant to be printed, so it is
/// neither narrower than a nozzle track nor wider than the opening; a vee goes on
/// until it cannot be told from a point.
pub open spec fn floor_width(profile: ChannelProfile, width: int, floor: int) -> int {
    match profile {
        ChannelProfile::Rect => width,
        ChannelProfile::Trapezoid => clamped(
            floor,
            lesser(MIN_TAPER_FLOOR as int, width),
            width,
        ),
        ChannelProfile::Vee => lesser(VEE_APEX_WIDTH as int, width),
    }
}

fn smaller(a: i64, b: i64) -> (m: i64)
    ensures
        m == lesser(a as int, b as int),
{
    if a <= b {
        a
    } else {
        b
    }
}

/// How wide the floor of a groove is.
pub fn channel_floor_width(config: &Config) -> (w: i64)
    ensures
        w == floor_width(
            config.channel_profile,
            config.channel_width as int,
            config.channel_floor_width as int,
        ),
{
    let top: i64 = config.channel_width;
    match config.channel_profile {
        ChannelProfile::Rect => top,
        ChannelProfile::Trapezoid => {
            let low: i64 = smaller(MIN_TAPER_FLOOR, top);
            if config.channel_floor_width < low {
                low
            } else if config.channel_floor_width > top {
                top
            } else {
                config.channel_floor_width
            }
        },
        ChannelProfile::Vee => smaller(VEE_APEX_WIDTH, top),
    }
}

/// How many bands of equal width make up a taper: one for each started slice, but no
/// more than `MAX_TAPER_BANDS`.
pub open spec fn band_count(depth: int, slice: int) -> int {
    if depth <= 0 || slice <= 0 {
        1
    } else {
        clamped((depth + slice - 1) / slice, 1, MAX_TAPER_BANDS as int)
    }
}

/// How many bands of equal width make up a taper.
pub fn taper_band_count(depth: i64, slice_height: i64) -> (n: usize)
    ensures
        n == band_count(depth as int, slice_height as int),
        1 <= n <= MAX_TAPER_BANDS,
{
    if depth <= 0 || slice_height <= 0 {
        return 1;
    }
    let n: i128 = (depth as i128 + slice_height as i128 - 1) / slice_height as i128;
    if n < 1 {
        1
    } else if n > 8 {
        8
    } else {
        n as usize
    }
}

/// The bands of a groove, from the floor up.
#[derive(Clone, Copy, Debug, PartialEq, Eq, Structural)]
pub struct Bands {
    pub count: usize,
    pub floor: i64,
    pub opening: i64,
}

/// The bands that grooves are cut in. Straight walls need one only, but cones are made
/// of bands too; then straight walls narrow to the floor by the least that each band
/// must differ from the next.
pub open spec fn bands_of(c: Config) -> (int, int) {
    let n = if c.channel_profile == ChannelProfile::Rect && c.via_style != ViaStyle::Cone {
        1
    } else {
        band_count(c.channel_depth as int, c.taper_slice_height as int)
    };
    let floor = floor_width(
        c.channel_profile,
        c.channel_width as int,
        c.channel_floor_width as int,
    );
    if c.channel_profile == ChannelProfile::Rect && n > 1 {
        (
            n,
            upper_of(
                c.channel_width - 2 * MIN_BAND_GROWTH * (n - 1),
                lesser(MIN_TAPER_FLOOR as int, c.channel_width as int),
            ),
        )
    } else {
        (n, floor)
    }
}

/// The bands that grooves are cut in.
pub fn plan_bands(config: &Config) -> (b: Bands)
    ensures
        (b.count as int, b.floor as int) == bands_of(*config),
        b.opening == config.channel_width,
        b.floor <= b.opening,
        1 <= b.count <= MAX_TAPER_BANDS,
{
    let floor: i64 = channel_floor_width(config);
    let straight: bool = match config.channel_profile {
        ChannelProfile::Rect => true,
        _ => false,
    };
    let cone: bool = match config.via_style {
        ViaStyle::Cone => true,
        _ => false,
    };
    let n: usize = if straight && !cone {
        1
    } else {
        taper_band_count(config.channel_depth, config.taper_slice_height)
    };
    let floor: i64 = if straight && n > 1 {
        let narrowed: i128 = config.channel_width as i128 - 2 * MIN_BAND_GROWTH as i128 * (n
            - 1) as i128;
        let least: i64 = smaller(MIN_TAPER_FLOOR, config.channel_width);
        if narrowed >= least as i128 {
            narrowed as i64
        } else {
            least
        }
    } else {
        floor
    };
    Bands { count: n, floor, opening: config.channel_width }
}

/// How wide a band is: the floor's width for the first, the opening's for the last,
/// and evenly between.
pub open spec fn band_width(count: int, floor: int, opening: int, i: int) -> int {
    if count <= 1 {
        opening
    } else {
        floor + (opening - floor) * i / (count - 1)
    }
}

/// How far below the face a band of a cone is taken.
pub open spec fn band_depth(count: int, depth: int, i: int) -> int {
    if count <= 1 {
        0
    } else {
        depth * (count - 1 - i) / (count - 1)
    }
}

proof fn lemma_scaled(x: int, i: int, n: int)
    requires
        0 <= x,
        0 <= i <= n,
        0 < n,
    ensures
        0 <= x * i <= x * n,
        0 <= x * i / n <= x,
{
    assert(0 <= x * i <= x * n) by (nonlinear_arith)
        requires
            0 <= x,
            0 <= i <= n,
    ;
    assert(0 <= x * i / n <= x) by (nonlinear_arith)
        requires
            0 <= x * i <= x * n,
            0 < n,
    ;
}

impl Bands {
    /// How wide a band is.
    pub fn width(&self, i: usize) -> (w: i64)
        requires
            i < self.count <= MAX_TAPER_BANDS,
            self.floor <= self.opening,
        ensures
            w == band_width(self.count as int, self.floor as int, self.opening as int, i as int),
            self.floor <= w <= self.opening,
    {
        if self.count <= 1 {
            return self.opening;
        }
        let grown: i128 = self.opening as i128 - self.floor as i128;
        let n: i128 = self.count as i128 - 1;
        proof {
            lemma_scaled(grown as int, i as int, n as int);
            assert(grown * n <= grown * 8) by (nonlinear_arith)
                requires
                    0 <= grown,
                    n <= 8,
            ;
        }
        (self.floor as i128 + grown * i as i128 / n) as i64
    }

    /// How far below the face a band of a cone is taken, if grooves are `depth` deep.
    pub fn depth(&self, depth: i64, i: usize) -> (d: i64)
        requires
            i < self.count <= MAX_TAPER_BANDS,
            0 <= depth,
        ensures
            d == band_depth(self.count as int, depth as int, i as int),
    {
        if self.count <= 1 {
            return 0;
        }
        let n: i128 = self.count as i128 - 1;
        proof {
            lemma_scaled(depth as int, n - i, n as int);
            assert(depth * n <= depth * 8) by (nonlinear_arith)
                requires
                    0 <= depth,
                    n <= 8,
            ;
        }
        (depth as i128 * (n - i as i128) / n) as i64
    }
}

/// Bands widen from the floor's width to exactly the opening's, and strictly so if
/// there is at least a nanometre for each.
pub proof fn lemma_bands_widen(count: int, floor: int, opening: int, i: int)
    requires
        1 < count,
        floor <= opening,
        0 <= i < count - 1,
    ensures
        band_width(count, floor, opening, 0) == floor,
        band_width(count, floor, opening, count - 1) == opening,
        band_width(count, floor, opening, i) <= band_width(count, floor, opening, i + 1),
        opening - floor >= count - 1 ==> band_width(count, floor, opening, i) < band_width(
            count,
            floor,
            opening,
            i + 1,
        ),
{
    let n = count - 1;
    let x = opening - floor;
    assert(x * 0 / n == 0) by (nonlinear_arith)
        requires
            n > 0,
    ;
    assert(x * n / n == x) by (nonlinear_arith)
        requires
            n > 0,
    ;
    let a = x * i;
    let b = x * (i + 1);
    assert(b == a + x) by (nonlinear_arith)
        requires
            a == x * i,
            b == x * (i + 1),
    ;
    assert(a / n <= (a + x) / n) by (nonlinear_arith)
        requires
            0 <= x,
            n > 0,
    ;
    if x >= n {
        assert(a / n < (a + x) / n) by (nonlinear_arith)
            requires
                x >= n,
                n > 0,
        ;
    }
}

/// The width and height of the recess for a pad, widened by a margin; none if it
/// would be too small to print.
pub open spec fn land_size(width: int, height: int, margin: int) -> Option<(int, int)> {
    let w = width + margin;
    let h = height + margin;
    if width <= 0 || height <= 0 || w < MIN_TAPER_FLOOR || h < MIN_TAPER_FLOOR {
        None
    } else {
        Some((w, h))
    }
}

/// The width and height of the recess for a pad.
pub fn pad_land_size(pad: &Pad, margin: i64) -> (size: Option<(i128, i128)>)
    ensures
        (match size {
            Some(s) => Some((s.0 as int, s.1 as int)),
            None => None,
        }) == land_size(pad.width as int, pad.height as int, margin as int),
{
    let w: i128 = pad.width as i128 + margin as i128;
    let h: i128 = pad.height as i128 + margin as i128;
    if pad.width <= 0 || pad.height <= 0 || w < MIN_TAPER_FLOOR as i128 || h
        < MIN_TAPER_FLOOR as i128 {
        None
    } else {
        Some((w, h))
    }
}

/// Whether grooves are deeper than half the board.
pub open spec fn too_deep(c: Config) -> bool {
    2 * c.channel_depth > c.substrate_thickness
}

/// Whether a setting without effect is asked for.
pub open spec fn has_idle_settings(c: Config) -> bool {
    c.eyelet_style == EyeletStyle::Indent || !c.generate_via_indents
}

/// What is said before a model is made.
pub open spec fn model_warnings(c: Config) -> Seq<Seq<char>> {
    let depth = if too_deep(c) {
        seq![
            "Warning: channel depth ("@ + hundredths(c.channel_depth as int)
                + "mm) exceeds half substrate thickness ("@ + hundredths(
                c.substrate_thickness as int,
            ) + "mm)"@,
            "The substrate core may be too thin to hold wires securely or support eyelets."@,
        ]
    } else {
        Seq::empty()
    };
    let idle = if has_idle_settings(c) {
        seq![
            "eyelet_style / --no-via-indents have no effect and are deprecated: vias have always been cut as full through-holes."@,
            "Use --via-style straight|cone to choose the barrel shape instead."@,
        ]
    } else {
        Seq::empty()
    };
    depth + idle
}

fn is_deep(config: &Config) -> (yes: bool)
    ensures
        yes == too_deep(*config),
{
    2 * (config.channel_depth as i128) > config.substrate_thickness as i128
}

fn has_idle(config: &Config) -> (yes: bool)
    ensures
        yes == has_idle_settings(*config),
{
    match config.eyelet_style {
        EyeletStyle::Indent => true,
        EyeletStyle::Hole => !config.generate_via_indents,
    }
}

/// What is said before a model is made.
pub fn warnings_for(config: &Config) -> (out: Vec<String>)
    ensures
        strings(out@) == model_warnings(*config),
{
    let mut out: Vec<String> = Vec::new();
    if is_deep(config) {
        let mut line = to_chars("Warning: channel depth (");
        extend_hundredths(&mut line, config.channel_depth);
        extend_str(&mut line, "mm) exceeds half substrate thickness (");
        extend_hundredths(&mut line, config.substrate_thickness);
        extend_str(&mut line, "mm)");
        out.push(to_text(line.as_slice()));
        out.push(
            "The substrate core may be too thin to hold wires securely or support eyelets."
                .to_string(),
        );
    }
    let ghost first = strings(out@);
    if has_idle(config) {
        out.push(
            "eyelet_style / --no-via-indents have no effect and are deprecated: vias have always been cut as full through-holes."
                .to_string(),
        );
        out.push(
            "Use --via-style straight|cone to choose the barrel shape instead.".to_string(),
        );
    }
    proof {
        assert(strings(out@) =~= model_warnings(*config));
    }
    out
}

/// What is said of sloped walls, for a slope in millionths of a degree.
pub open spec fn taper_notes(
    profile: ChannelProfile,
    opening: int,
    floor: int,
    depth: int,
    angle: int,
    count: nat,
) -> Seq<Seq<char>> {
    let line = channel_profile_name(profile) + " channel profile: "@ + hundredths(opening)
        + "mm opening → "@ + hundredths(floor) + "mm floor over "@ + hundredths(depth) + "mm ("@
        + fixed(angle, 1) + "° walls, "@ + decimal(count) + " bands)"@;
    if angle < 45_000_000 {
        seq![
            line,
            "Walls are shallower than 45° — bottom-face grooves may need support."@,
        ]
    } else {
        seq![line]
    }
}

/// What is said of sloped walls.
pub fn notes_on_taper(config: &Config, floor: i64, angle: i64, count: usize) -> (out: Vec<String>)
    ensures
        strings(out@) == taper_notes(
            config.channel_profile,
            config.channel_width as int,
            floor as int,
            config.channel_depth as int,
            angle as int,
            count as nat,
        ),
{
    let mut line = to_chars(config.channel_profile.name());
    extend_str(&mut line, " channel profile: ");
    extend_hundredths(&mut line, config.channel_width);
    extend_str(&mut line, "mm opening → ");
    extend_hundredths(&mut line, floor);
    extend_str(&mut line, "mm floor over ");
    extend_hundredths(&mut line, config.channel_depth);
    extend_str(&mut line, "mm (");
    extend_fixed(&mut line, angle as i128, 1);
    extend_str(&mut line, "° walls, ");
    let digits = number(count);
    extend(&mut line, digits.as_slice());
    extend_str(&mut line, " bands)");
    let mut out: Vec<String> = Vec::new();
    out.push(to_text(line.as_slice()));
    if angle < 45_000_000 {
        out.push(
            "Walls are shallower than 45° — bottom-face grooves may need support.".to_string(),
        );
    }
    proof {
        assert(strings(out@) =~= taper_notes(
            config.channel_profile,
            config.channel_width as int,
            floor as int,
            config.channel_depth as int,
            angle as int,
            count as nat,
        ));
    }
    out
}

} // verus!
