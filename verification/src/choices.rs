//! Kinds of settings that are chosen by name.

use crate::text::{extend_str, same_str, to_chars, to_text};
use vstd::prelude::*;

verus! {

/// What `str::to_lowercase` gives of a text.
pub uninterp spec fn std_lowercase(text: Seq<char>) -> Seq<char>;

/// Whether a character is one of the first 128.
pub open spec fn is_plain(c: char) -> bool {
    (c as u32) < 128
}

/// A plain character in lower case.
pub open spec fn plain_lower(c: char) -> char {
    if 'A' <= c && c <= 'Z' {
        (c as u32 + 32) as char
    } else {
        c
    }
}

/// Whether a text has plain characters only.
pub open spec fn is_plain_text(text: Seq<char>) -> bool {
    forall|i: int| 0 <= i < text.len() ==> is_plain(#[trigger] text[i])
}

/// A text in lower case: of plain characters the capital letters are made small, and
/// all else is kept; of other texts it is what `std` gives.
pub open spec fn lowercase(text: Seq<char>) -> Seq<char> {
    if is_plain_text(text) {
        text.map_values(|c: char| plain_lower(c))
    } else {
        std_lowercase(text)
    }
}

/// Whether a text is a name but for capital letters.
pub open spec fn spells(text: Seq<char>, name: Seq<char>) -> bool {
    &&& is_plain_text(text)
    &&& text.len() == name.len()
    &&& forall|i: int| 0 <= i < text.len() ==> plain_lower(#[trigger] text[i]) == name[i]
}

/// `str::to_lowercase`. The result is named. Of a text of plain characters it is
/// said what it is: capital letters are made small, and all else is kept.
#[verifier::external_body]
fn call_to_lowercase(text: &str) -> (out: String)
    ensures
        out@ == std_lowercase(text@),
        is_plain_text(text@) ==> out@ == text@.map_values(|c: char| plain_lower(c)),
{
    text.to_lowercase()
}

/// Gives a text in lower case.
pub fn lowered(text: &str) -> (out: String)
    ensures
        out@ == lowercase(text@),
{
    call_to_lowercase(text)
}

/// What is said of a name that is not known.
pub open spec fn unknown(what: Seq<char>, name: Seq<char>, known: Seq<char>) -> Seq<char> {
    "Unknown "@ + what + ": '"@ + name + "'. Use "@ + known
}

fn say_unknown(what: &str, name: &str, known: &str) -> (out: String)
    ensures
        out@ == unknown(what@, name@, known@),
{
    let mut out = to_chars("Unknown ");
    extend_str(&mut out, what);
    extend_str(&mut out, ": '");
    extend_str(&mut out, name);
    extend_str(&mut out, "'. Use ");
    extend_str(&mut out, known);
    to_text(out.as_slice())
}

/// How a board is built: it selects the settings that everything else is laid over, and the style of the guide.
#[derive(Clone, Copy, Debug, PartialEq, Eq, Structural)]
pub enum Mode {
    /// Wire is laid into grooves.
    CopperWire,
    /// Copper is plated into grooves.
    Electrolysis,
}

/// The name of a mode.
pub open spec fn mode_name(v: Mode) -> Seq<char> {
    match v {
        Mode::CopperWire => "copper-wire"@,
        Mode::Electrolysis => "electrolysis"@,
    }
}

/// The mode that a name in lower case stands for.
pub open spec fn mode_named(name: Seq<char>) -> Option<Mode> {
    if name == "copper-wire"@ || name == "wire"@ {
        Some(Mode::CopperWire)
    } else if name == "electrolysis"@ || name == "electro"@ {
        Some(Mode::Electrolysis)
    } else {
        None
    }
}

/// The mode that is written so in a settings file.
pub open spec fn mode_written(name: Seq<char>) -> Option<Mode> {
    if name == "copper-wire"@ {
        Some(Mode::CopperWire)
    } else if name == "electrolysis"@ {
        Some(Mode::Electrolysis)
    } else {
        None
    }
}

impl Default for Mode {
    fn default() -> (v: Self)
        ensures
            v == Mode::CopperWire,
    {
        Mode::CopperWire
    }
}

impl Mode {
    /// The name.
    pub fn name(self) -> (out: &'static str)
        ensures
            out@ == mode_name(self),
    {
        match self {
            Mode::CopperWire => "copper-wire",
            Mode::Electrolysis => "electrolysis",
        }
    }

    /// The mode that a name in lower case stands for.
    pub fn named(name: &str) -> (found: Result<Mode, String>)
        ensures
            match mode_named(name@) {
                Some(v) => found == Ok::<Mode, String>(v),
                None => found is Err && found->Err_0@ == unknown(
                    "mode"@,
                    name@,
                    "'copper-wire' or 'electrolysis'"@,
                ),
            },
    {
        if same_str(name, "copper-wire") || same_str(name, "wire") {
            Ok(Mode::CopperWire)
        } else if same_str(name, "electrolysis") || same_str(name, "electro") {
            Ok(Mode::Electrolysis)
        } else {
            Err(say_unknown("mode", name, "'copper-wire' or 'electrolysis'"))
        }
    }

    /// The mode that is written so in a settings file.
    pub fn written(name: &str) -> (found: Option<Mode>)
        ensures
            found == mode_written(name@),
    {
        if same_str(name, "copper-wire") {
            Some(Mode::CopperWire)
        } else if same_str(name, "electrolysis") {
            Some(Mode::Electrolysis)
        } else {
            None
        }
    }

    /// The mode that a name stands for, in small letters or capitals.
    pub fn from_str(s: &str) -> (found: Result<Mode, String>)
        ensures
            match mode_named(lowercase(s@)) {
                Some(v) => found == Ok::<Mode, String>(v),
                None => found is Err && found->Err_0@ == unknown(
                    "mode"@,
                    lowercase(s@),
                    "'copper-wire' or 'electrolysis'"@,
                ),
            },
    {
        let name = lowered(s);
        Mode::named(name.as_str())
    }
}

/// The name of a mode stands for it, whatever letters of it are written as capitals.
pub proof fn lemma_mode_name(v: Mode, written: Seq<char>)
    requires
        spells(written, mode_name(v)),
    ensures
        mode_named(mode_name(v)) == Some(v),
        mode_named(lowercase(written)) == Some(v),
{
    assert(lowercase(written) =~= mode_name(v));
    reveal_strlit("copper-wire");
    reveal_strlit("wire");
    reveal_strlit("electrolysis");
    reveal_strlit("electro");
    assert("electrolysis"@.len() != "copper-wire"@.len());
    assert("electrolysis"@.len() != "wire"@.len());
}

/// How the stencil is held on the board.
#[derive(Clone, Copy, Debug, PartialEq, Eq, Structural)]
pub enum StencilMount {
    /// A lip on the plate wraps the board edge.
    Lip,
    /// A separate ring clamps a flat plate.
    Ring,
}

/// The name of a stencil mount.
pub open spec fn stencil_mount_name(v: StencilMount) -> Seq<char> {
    match v {
        StencilMount::Lip => "lip"@,
        StencilMount::Ring => "ring"@,
    }
}

/// The stencil mount that a name in lower case stands for.
pub open spec fn stencil_mount_named(name: Seq<char>) -> Option<StencilMount> {
    if name == "lip"@ || name == "integral"@ {
        Some(StencilMount::Lip)
    } else if name == "ring"@ || name == "clamp"@ {
        Some(StencilMount::Ring)
    } else {
        None
    }
}

/// The stencil mount that is written so in a settings file.
pub open spec fn stencil_mount_written(name: Seq<char>) -> Option<StencilMount> {
    if name == "lip"@ {
        Some(StencilMount::Lip)
    } else if name == "ring"@ {
        Some(StencilMount::Ring)
    } else {
        None
    }
}

impl Default for StencilMount {
    fn default() -> (v: Self)
        ensures
            v == StencilMount::Ring,
    {
        StencilMount::Ring
    }
}

impl StencilMount {
    /// The name.
    pub fn name(self) -> (out: &'static str)
        ensures
            out@ == stencil_mount_name(self),
    {
        match self {
            StencilMount::Lip => "lip",
            StencilMount::Ring => "ring",
        }
    }

    /// The stencil mount that a name in lower case stands for.
    pub fn named(name: &str) -> (found: Result<StencilMount, String>)
        ensures
            match stencil_mount_named(name@) {
                Some(v) => found == Ok::<StencilMount, String>(v),
                None => found is Err && found->Err_0@ == unknown(
                    "stencil mount"@,
                    name@,
                    "'lip' or 'ring'"@,
                ),
            },
    {
        if same_str(name, "lip") || same_str(name, "integral") {
            Ok(StencilMount::Lip)
        } else if same_str(name, "ring") || same_str(name, "clamp") {
            Ok(StencilMount::Ring)
        } else {
            Err(say_unknown("stencil mount", name, "'lip' or 'ring'"))
        }
    }

    /// The stencil mount that is written so in a settings file.
    pub fn written(name: &str) -> (found: Option<StencilMount>)
        ensures
            found == stencil_mount_written(name@),
    {
        if same_str(name, "lip") {
            Some(StencilMount::Lip)
        } else if same_str(name, "ring") {
            Some(StencilMount::Ring)
        } else {
            None
        }
    }

    /// The stencil mount that a name stands for, in small letters or capitals.
    pub fn from_str(s: &str) -> (found: Result<StencilMount, String>)
        ensures
            match stencil_mount_named(lowercase(s@)) {
                Some(v) => found == Ok::<StencilMount, String>(v),
                None => found is Err && found->Err_0@ == unknown(
                    "stencil mount"@,
                    lowercase(s@),
                    "'lip' or 'ring'"@,
                ),
            },
    {
        let name = lowered(s);
        StencilMount::named(name.as_str())
    }
}

/// The name of a stencil mount stands for it, whatever letters of it are written as capitals.
pub proof fn lemma_stencil_mount_name(v: StencilMount, written: Seq<char>)
    requires
        spells(written, stencil_mount_name(v)),
    ensures
        stencil_mount_named(stencil_mount_name(v)) == Some(v),
        stencil_mount_named(lowercase(written)) == Some(v),
{
    assert(lowercase(written) =~= stencil_mount_name(v));
    reveal_strlit("lip");
    reveal_strlit("integral");
    reveal_strlit("ring");
    reveal_strlit("clamp");
    assert("ring"@.len() != "lip"@.len());
    assert("ring"@.len() != "integral"@.len());
}

/// Cross-section of the grooves.
#[derive(Clone, Copy, Debug, PartialEq, Eq, Structural)]
pub enum ChannelProfile {
    /// Upright walls and a flat floor.
    Rect,
    /// Sloped walls down to a flat floor.
    Trapezoid,
    /// Sloped walls that converge.
    Vee,
}

/// The name of a channel profile.
pub open spec fn channel_profile_name(v: ChannelProfile) -> Seq<char> {
    match v {
        ChannelProfile::Rect => "rect"@,
        ChannelProfile::Trapezoid => "trapezoid"@,
        ChannelProfile::Vee => "vee"@,
    }
}

/// The channel profile that a name in lower case stands for.
pub open spec fn channel_profile_named(name: Seq<char>) -> Option<ChannelProfile> {
    if name == "rect"@ || name == "rectangular"@ || name == "square"@ || name == "u"@ {
        Some(ChannelProfile::Rect)
    } else if name == "trapezoid"@ || name == "trap"@ {
        Some(ChannelProfile::Trapezoid)
    } else if name == "vee"@ || name == "v"@ {
        Some(ChannelProfile::Vee)
    } else {
        None
    }
}

/// The channel profile that is written so in a settings file.
pub open spec fn channel_profile_written(name: Seq<char>) -> Option<ChannelProfile> {
    if name == "rect"@ {
        Some(ChannelProfile::Rect)
    } else if name == "trapezoid"@ {
        Some(ChannelProfile::Trapezoid)
    } else if name == "vee"@ {
        Some(ChannelProfile::Vee)
    } else {
        None
    }
}

impl Default for ChannelProfile {
    fn default() -> (v: Self)
        ensures
            v == ChannelProfile::Rect,
    {
        ChannelProfile::Rect
    }
}

impl ChannelProfile {
    /// The name.
    pub fn name(self) -> (out: &'static str)
        ensures
            out@ == channel_profile_name(self),
    {
        match self {
            ChannelProfile::Rect => "rect",
            ChannelProfile::Trapezoid => "trapezoid",
            ChannelProfile::Vee => "vee",
        }
    }

    /// The channel profile that a name in lower case stands for.
    pub fn named(name: &str) -> (found: Result<ChannelProfile, String>)
        ensures
            match channel_profile_named(name@) {
                Some(v) => found == Ok::<ChannelProfile, String>(v),
                None => found is Err && found->Err_0@ == unknown(
                    "channel profile"@,
                    name@,
                    "'rect', 'trapezoid', or 'vee'"@,
                ),
            },
    {
        if same_str(name, "rect") || same_str(name, "rectangular") || same_str(name, "square") || same_str(name, "u") {
            Ok(ChannelProfile::Rect)
        } else if same_str(name, "trapezoid") || same_str(name, "trap") {
            Ok(ChannelProfile::Trapezoid)
        } else if same_str(name, "vee") || same_str(name, "v") {
            Ok(ChannelProfile::Vee)
        } else {
            Err(say_unknown("channel profile", name, "'rect', 'trapezoid', or 'vee'"))
        }
    }

    /// The channel profile that is written so in a settings file.
    pub fn written(name: &str) -> (found: Option<ChannelProfile>)
        ensures
            found == channel_profile_written(name@),
    {
        if same_str(name, "rect") {
            Some(ChannelProfile::Rect)
        } else if same_str(name, "trapezoid") {
            Some(ChannelProfile::Trapezoid)
        } else if same_str(name, "vee") {
            Some(ChannelProfile::Vee)
        } else {
            None
        }
    }

    /// The channel profile that a name stands for, in small letters or capitals.
    pub fn from_str(s: &str) -> (found: Result<ChannelProfile, String>)
        ensures
            match channel_profile_named(lowercase(s@)) {
                Some(v) => found == Ok::<ChannelProfile, String>(v),
                None => found is Err && found->Err_0@ == unknown(
                    "channel profile"@,
                    lowercase(s@),
                    "'rect', 'trapezoid', or 'vee'"@,
                ),
            },
    {
        let name = lowered(s);
        ChannelProfile::named(name.as_str())
    }
}

/// The name of a channel profile stands for it, whatever letters of it are written as capitals.
pub proof fn lemma_channel_profile_name(v: ChannelProfile, written: Seq<char>)
    requires
        spells(written, channel_profile_name(v)),
    ensures
        channel_profile_named(channel_profile_name(v)) == Some(v),
        channel_profile_named(lowercase(written)) == Some(v),
{
    assert(lowercase(written) =~= channel_profile_name(v));
    reveal_strlit("rect");
    reveal_strlit("rectangular");
    reveal_strlit("square");
    reveal_strlit("u");
    reveal_strlit("trapezoid");
    reveal_strlit("trap");
    reveal_strlit("vee");
    reveal_strlit("v");
    assert("trapezoid"@.len() != "rect"@.len());
    assert("trapezoid"@.len() != "rectangular"@.len());
    assert("trapezoid"@.len() != "square"@.len());
    assert("trapezoid"@.len() != "u"@.len());
    assert("vee"@.len() != "rect"@.len());
    assert("vee"@.len() != "rectangular"@.len());
    assert("vee"@.len() != "square"@.len());
    assert("vee"@.len() != "u"@.len());
    assert("vee"@.len() != "trapezoid"@.len());
    assert("vee"@.len() != "trap"@.len());
}

/// How the barrel of a through-hole is shaped.
#[derive(Clone, Copy, Debug, PartialEq, Eq, Structural)]
pub enum ViaStyle {
    /// A plain bore.
    Straight,
    /// A countersink from each face, meeting at a short throat.
    Cone,
}

/// The name of a via style.
pub open spec fn via_style_name(v: ViaStyle) -> Seq<char> {
    match v {
        ViaStyle::Straight => "straight"@,
        ViaStyle::Cone => "cone"@,
    }
}

/// The via style that a name in lower case stands for.
pub open spec fn via_style_named(name: Seq<char>) -> Option<ViaStyle> {
    if name == "straight"@ || name == "bore"@ || name == "hole"@ {
        Some(ViaStyle::Straight)
    } else if name == "cone"@ || name == "double-cone"@ || name == "countersink"@ {
        Some(ViaStyle::Cone)
    } else {
        None
    }
}

/// The via style that is written so in a settings file.
pub open spec fn via_style_written(name: Seq<char>) -> Option<ViaStyle> {
    if name == "straight"@ {
        Some(ViaStyle::Straight)
    } else if name == "cone"@ {
        Some(ViaStyle::Cone)
    } else {
        None
    }
}

impl Default for ViaStyle {
    fn default() -> (v: Self)
        ensures
            v == ViaStyle::Straight,
    {
        ViaStyle::Straight
    }
}

impl ViaStyle {
    /// The name.
    pub fn name(self) -> (out: &'static str)
        ensures
            out@ == via_style_name(self),
    {
        match self {
            ViaStyle::Straight => "straight",
            ViaStyle::Cone => "cone",
        }
    }

    /// The via style that a name in lower case stands for.
    pub fn named(name: &str) -> (found: Result<ViaStyle, String>)
        ensures
            match via_style_named(name@) {
                Some(v) => found == Ok::<ViaStyle, String>(v),
                None => found is Err && found->Err_0@ == unknown(
                    "via style"@,
                    name@,
                    "'straight' or 'cone'"@,
                ),
            },
    {
        if same_str(name, "straight") || same_str(name, "bore") || same_str(name, "hole") {
            Ok(ViaStyle::Straight)
        } else if same_str(name, "cone") || same_str(name, "double-cone") || same_str(name, "countersink") {
            Ok(ViaStyle::Cone)
        } else {
            Err(say_unknown("via style", name, "'straight' or 'cone'"))
        }
    }

    /// The via style that is written so in a settings file.
    pub fn written(name: &str) -> (found: Option<ViaStyle>)
        ensures
            found == via_style_written(name@),
    {
        if same_str(name, "straight") {
            Some(ViaStyle::Straight)
        } else if same_str(name, "cone") {
            Some(ViaStyle::Cone)
        } else {
            None
        }
    }

    /// The via style that a name stands for, in small letters or capitals.
    pub fn from_str(s: &str) -> (found: Result<ViaStyle, String>)
        ensures
            match via_style_named(lowercase(s@)) {
                Some(v) => found == Ok::<ViaStyle, String>(v),
                None => found is Err && found->Err_0@ == unknown(
                    "via style"@,
                    lowercase(s@),
                    "'straight' or 'cone'"@,
                ),
            },
    {
        let name = lowered(s);
        ViaStyle::named(name.as_str())
    }
}

/// The name of a via style stands for it, whatever letters of it are written as capitals.
pub proof fn lemma_via_style_name(v: ViaStyle, written: Seq<char>)
    requires
        spells(written, via_style_name(v)),
    ensures
        via_style_named(via_style_name(v)) == Some(v),
        via_style_named(lowercase(written)) == Some(v),
{
    assert(lowercase(written) =~= via_style_name(v));
    reveal_strlit("straight");
    reveal_strlit("bore");
    reveal_strlit("hole");
    reveal_strlit("cone");
    reveal_strlit("double-cone");
    reveal_strlit("countersink");
    assert("cone"@.len() != "straight"@.len());
    assert("cone"@[0] != "bore"@[0]);
    assert("cone"@[0] != "hole"@[0]);
}

/// How via eyelets are shown; without effect.
#[derive(Clone, Copy, Debug, PartialEq, Eq, Structural)]
pub enum EyeletStyle {
    /// A through-hole.
    Hole,
    /// A shallow dimple.
    Indent,
}

/// The name of a eyelet style.
pub open spec fn eyelet_style_name(v: EyeletStyle) -> Seq<char> {
    match v {
        EyeletStyle::Hole => "hole"@,
        EyeletStyle::Indent => "indent"@,
    }
}

/// The eyelet style that a name in lower case stands for.
pub open spec fn eyelet_style_named(name: Seq<char>) -> Option<EyeletStyle> {
    if name == "hole"@ {
        Some(EyeletStyle::Hole)
    } else if name == "indent"@ {
        Some(EyeletStyle::Indent)
    } else {
        None
    }
}

/// The eyelet style that is written so in a settings file.
pub open spec fn eyelet_style_written(name: Seq<char>) -> Option<EyeletStyle> {
    if name == "hole"@ {
        Some(EyeletStyle::Hole)
    } else if name == "indent"@ {
        Some(EyeletStyle::Indent)
    } else {
        None
    }
}

impl Default for EyeletStyle {
    fn default() -> (v: Self)
        ensures
            v == EyeletStyle::Hole,
    {
        EyeletStyle::Hole
    }
}

impl EyeletStyle {
    /// The name.
    pub fn name(self) -> (out: &'static str)
        ensures
            out@ == eyelet_style_name(self),
    {
        match self {
            EyeletStyle::Hole => "hole",
            EyeletStyle::Indent => "indent",
        }
    }

    /// The eyelet style that a name in lower case stands for.
    pub fn named(name: &str) -> (found: Result<EyeletStyle, String>)
        ensures
            match eyelet_style_named(name@) {
                Some(v) => found == Ok::<EyeletStyle, String>(v),
                None => found is Err && found->Err_0@ == unknown(
                    "eyelet style"@,
                    name@,
                    "'hole' or 'indent'"@,
                ),
            },
    {
        if same_str(name, "hole") {
            Ok(EyeletStyle::Hole)
        } else if same_str(name, "indent") {
            Ok(EyeletStyle::Indent)
        } else {
            Err(say_unknown("eyelet style", name, "'hole' or 'indent'"))
        }
    }

    /// The eyelet style that is written so in a settings file.
    pub fn written(name: &str) -> (found: Option<EyeletStyle>)
        ensures
            found == eyelet_style_written(name@),
    {
        if same_str(name, "hole") {
            Some(EyeletStyle::Hole)
        } else if same_str(name, "indent") {
            Some(EyeletStyle::Indent)
        } else {
            None
        }
    }

    /// The eyelet style that a name stands for, in small letters or capitals.
    pub fn from_str(s: &str) -> (found: Result<EyeletStyle, String>)
        ensures
            match eyelet_style_named(lowercase(s@)) {
                Some(v) => found == Ok::<EyeletStyle, String>(v),
                None => found is Err && found->Err_0@ == unknown(
                    "eyelet style"@,
                    lowercase(s@),
                    "'hole' or 'indent'"@,
                ),
            },
    {
        let name = lowered(s);
        EyeletStyle::named(name.as_str())
    }
}

/// The name of an eyelet style stands for it, whatever letters of it are written as capitals.
pub proof fn lemma_eyelet_style_name(v: EyeletStyle, written: Seq<char>)
    requires
        spells(written, eyelet_style_name(v)),
    ensures
        eyelet_style_named(eyelet_style_name(v)) == Some(v),
        eyelet_style_named(lowercase(written)) == Some(v),
{
    assert(lowercase(written) =~= eyelet_style_name(v));
    reveal_strlit("hole");
    reveal_strlit("indent");
    assert("indent"@.len() != "hole"@.len());
}

/// Which model files are written.
#[derive(Clone, Copy, Debug, PartialEq, Eq, Structural)]
pub enum OutputFormat {
    /// STL.
    Stl,
    /// 3MF.
    ThreeM,
    /// STL and 3MF.
    Both,
}

/// The name of a format.
pub open spec fn output_format_name(v: OutputFormat) -> Seq<char> {
    match v {
        OutputFormat::Stl => "stl"@,
        OutputFormat::ThreeM => "3mf"@,
        OutputFormat::Both => "both"@,
    }
}

/// The format that a name in lower case stands for.
pub open spec fn output_format_named(name: Seq<char>) -> Option<OutputFormat> {
    if name == "stl"@ {
        Some(OutputFormat::Stl)
    } else if name == "3mf"@ {
        Some(OutputFormat::ThreeM)
    } else if name == "both"@ {
        Some(OutputFormat::Both)
    } else {
        None
    }
}

/// The format that is written so in a settings file.
pub open spec fn output_format_written(name: Seq<char>) -> Option<OutputFormat> {
    if name == "stl"@ {
        Some(OutputFormat::Stl)
    } else if name == "3mf"@ || name == "threem"@ {
        Some(OutputFormat::ThreeM)
    } else if name == "both"@ {
        Some(OutputFormat::Both)
    } else {
        None
    }
}

impl Default for OutputFormat {
    fn default() -> (v: Self)
        ensures
            v == OutputFormat::Stl,
    {
        OutputFormat::Stl
    }
}

impl OutputFormat {
    /// The name.
    pub fn name(self) -> (out: &'static str)
        ensures
            out@ == output_format_name(self),
    {
        match self {
            OutputFormat::Stl => "stl",
            OutputFormat::ThreeM => "3mf",
            OutputFormat::Both => "both",
        }
    }

    /// The format that a name in lower case stands for.
    pub fn named(name: &str) -> (found: Result<OutputFormat, String>)
        ensures
            match output_format_named(name@) {
                Some(v) => found == Ok::<OutputFormat, String>(v),
                None => found is Err && found->Err_0@ == unknown(
                    "format"@,
                    name@,
                    "'stl', '3mf', or 'both'"@,
                ),
            },
    {
        if same_str(name, "stl") {
            Ok(OutputFormat::Stl)
        } else if same_str(name, "3mf") {
            Ok(OutputFormat::ThreeM)
        } else if same_str(name, "both") {
            Ok(OutputFormat::Both)
        } else {
            Err(say_unknown("format", name, "'stl', '3mf', or 'both'"))
        }
    }

    /// The format that is written so in a settings file.
    pub fn written(name: &str) -> (found: Option<OutputFormat>)
        ensures
            found == output_format_written(name@),
    {
        if same_str(name, "stl") {
            Some(OutputFormat::Stl)
        } else if same_str(name, "3mf") || same_str(name, "threem") {
            Some(OutputFormat::ThreeM)
        } else if same_str(name, "both") {
            Some(OutputFormat::Both)
        } else {
            None
        }
    }

    /// The format that a name stands for, in small letters or capitals.
    pub fn from_str(s: &str) -> (found: Result<OutputFormat, String>)
        ensures
            match output_format_named(lowercase(s@)) {
                Some(v) => found == Ok::<OutputFormat, String>(v),
                None => found is Err && found->Err_0@ == unknown(
                    "format"@,
                    lowercase(s@),
                    "'stl', '3mf', or 'both'"@,
                ),
            },
    {
        let name = lowered(s);
        OutputFormat::named(name.as_str())
    }
}

/// The name of a format stands for it, whatever letters of it are written as capitals.
pub proof fn lemma_output_format_name(v: OutputFormat, written: Seq<char>)
    requires
        spells(written, output_format_name(v)),
    ensures
        output_format_named(output_format_name(v)) == Some(v),
        output_format_named(lowercase(written)) == Some(v),
{
    assert(lowercase(written) =~= output_format_name(v));
    reveal_strlit("stl");
    reveal_strlit("3mf");
    reveal_strlit("both");
    assert("3mf"@[0] != "stl"@[0]);
    assert("both"@.len() != "stl"@.len());
    assert("both"@.len() != "3mf"@.len());
}

} // verus!
