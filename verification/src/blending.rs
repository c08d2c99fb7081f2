//! Blend modes of layers, as named in project files and as numbered for the
//! compositing shader.
use vstd::prelude::*;
use crate::text::str_eq;

verus! {

/// How a layer is composited over what lies below it.
#[derive(Debug, Clone, Copy, PartialEq, Eq, Hash, Structural)]
pub enum AmBlendingMode {
    Normal,
    Multiply,
    Darken,
    DarkerColor,
    ColorBurn,
    LinearBurn,
    Screen,
    Lighten,
    LighterColor,
    ColorDodge,
    LinearDodge,
    Overlay,
    SoftLight,
    HardLight,
    SoftOverlay,
    VividLight,
    PinLight,
    Difference,
    Exclusion,
    Subtract,
    Divide,
    Hue,
    Saturation,
    Color,
    Luminance,
    Mask,
    Exclude,
}

impl Default for AmBlendingMode {
    fn default() -> (r: Self)
        ensures
            r == AmBlendingMode::Normal,
    {
        AmBlendingMode::Normal
    }
}

/// The blend mode a project file's name denotes; an empty or unknown name
/// denotes `Normal`.
pub open spec fn spec_parse_blending(s: Seq<char>) -> AmBlendingMode {
    if s == ""@ {
        AmBlendingMode::Normal
    } else if s == "normal"@ {
        AmBlendingMode::Normal
    } else if s == "multiply"@ {
        AmBlendingMode::Multiply
    } else if s == "darken"@ {
        AmBlendingMode::Darken
    } else if s == "darker-color"@ {
        AmBlendingMode::DarkerColor
    } else if s == "color-burn"@ {
        AmBlendingMode::ColorBurn
    } else if s == "linear-burn"@ {
        AmBlendingMode::LinearBurn
    } else if s == "screen"@ {
        AmBlendingMode::Screen
    } else if s == "lighten"@ {
        AmBlendingMode::Lighten
    } else if s == "lighter-color"@ {
        AmBlendingMode::LighterColor
    } else if s == "color-dodge"@ {
        AmBlendingMode::ColorDodge
    } else if s == "linear-dodge"@ {
        AmBlendingMode::LinearDodge
    } else if s == "overlay"@ {
        AmBlendingMode::Overlay
    } else if s == "soft-light"@ {
        AmBlendingMode::SoftLight
    } else if s == "hard-light"@ {
        AmBlendingMode::HardLight
    } else if s == "soft-overlay"@ {
        AmBlendingMode::SoftOverlay
    } else if s == "vivid-light"@ {
        AmBlendingMode::VividLight
    } else if s == "pin-light"@ {
        AmBlendingMode::PinLight
    } else if s == "diff"@ {
        AmBlendingMode::Difference
    } else if s == "exclusion"@ {
        AmBlendingMode::Exclusion
    } else if s == "subtract"@ {
        AmBlendingMode::Subtract
    } else if s == "divide"@ {
        AmBlendingMode::Divide
    } else if s == "hue"@ {
        AmBlendingMode::Hue
    } else if s == "saturation"@ {
        AmBlendingMode::Saturation
    } else if s == "color"@ {
        AmBlendingMode::Color
    } else if s == "luminance"@ {
        AmBlendingMode::Luminance
    } else if s == "mask"@ {
        AmBlendingMode::Mask
    } else if s == "exclude"@ {
        AmBlendingMode::Exclude
    } else {
        AmBlendingMode::Normal
    }
}

/// The number by which the shader knows a blend mode.
pub open spec fn spec_blend_code(m: AmBlendingMode) -> u32 {
    match m {
        AmBlendingMode::Normal => 0,
        AmBlendingMode::Multiply => 1,
        AmBlendingMode::Darken => 2,
        AmBlendingMode::DarkerColor => 3,
        AmBlendingMode::ColorBurn => 4,
        AmBlendingMode::LinearBurn => 5,
        AmBlendingMode::Screen => 6,
        AmBlendingMode::Lighten => 7,
        AmBlendingMode::LighterColor => 8,
        AmBlendingMode::ColorDodge => 9,
        AmBlendingMode::LinearDodge => 10,
        AmBlendingMode::Overlay => 11,
        AmBlendingMode::SoftLight => 12,
        AmBlendingMode::HardLight => 13,
        AmBlendingMode::SoftOverlay => 14,
        AmBlendingMode::VividLight => 15,
        AmBlendingMode::PinLight => 16,
        AmBlendingMode::Difference => 17,
        AmBlendingMode::Exclusion => 18,
        AmBlendingMode::Subtract => 19,
        AmBlendingMode::Divide => 20,
        AmBlendingMode::Hue => 21,
        AmBlendingMode::Saturation => 22,
        AmBlendingMode::Color => 23,
        AmBlendingMode::Luminance => 24,
        AmBlendingMode::Mask => 100,
        AmBlendingMode::Exclude => 101,
    }
}

impl AmBlendingMode {
    /// Reads a blend mode from its name in a project file; an empty or unknown
    /// name gives `Normal`.
    pub fn parse_am(s: &str) -> (r: Self)
        ensures
            r == spec_parse_blending(s@),
    {
        if str_eq(s, "") {
            Self::Normal
        } else if str_eq(s, "normal") {
            Self::Normal
        } else if str_eq(s, "multiply") {
            Self::Multiply
        } else if str_eq(s, "darken") {
            Self::Darken
        } else if str_eq(s, "darker-color") {
            Self::DarkerColor
        } else if str_eq(s, "color-burn") {
            Self::ColorBurn
        } else if str_eq(s, "linear-burn") {
            Self::LinearBurn
        } else if str_eq(s, "screen") {
            Self::Screen
        } else if str_eq(s, "lighten") {
            Self::Lighten
        } else if str_eq(s, "lighter-color") {
            Self::LighterColor
        } else if str_eq(s, "color-dodge") {
            Self::ColorDodge
        } else if str_eq(s, "linear-dodge") {
            Self::LinearDodge
        } else if str_eq(s, "overlay") {
            Self::Overlay
        } else if str_eq(s, "soft-light") {
            Self::SoftLight
        } else if str_eq(s, "hard-light") {
            Self::HardLight
        } else if str_eq(s, "soft-overlay") {
            Self::SoftOverlay
        } else if str_eq(s, "vivid-light") {
            Self::VividLight
        } else if str_eq(s, "pin-light") {
            Self::PinLight
        } else if str_eq(s, "diff") {
            Self::Difference
        } else if str_eq(s, "exclusion") {
            Self::Exclusion
        } else if str_eq(s, "subtract") {
            Self::Subtract
        } else if str_eq(s, "divide") {
            Self::Divide
        } else if str_eq(s, "hue") {
            Self::Hue
        } else if str_eq(s, "saturation") {
            Self::Saturation
        } else if str_eq(s, "color") {
            Self::Color
        } else if str_eq(s, "luminance") {
            Self::Luminance
        } else if str_eq(s, "mask") {
            Self::Mask
        } else if str_eq(s, "exclude") {
            Self::Exclude
        } else {
            Self::Normal
        }
    }

    /// Whether the mode blends colors (every mode but `Normal`, `Mask` and
    /// `Exclude`).
    pub fn is_blend(self) -> (r: bool)
        ensures
            r == !(self == AmBlendingMode::Normal || self == AmBlendingMode::Mask || self
                == AmBlendingMode::Exclude),
    {
        !matches!(self, Self::Normal | Self::Mask | Self::Exclude)
    }

    /// Whether the mode makes the layer a mask (`Mask` or `Exclude`).
    pub fn is_mask(self) -> (r: bool)
        ensures
            r == (self == AmBlendingMode::Mask || self == AmBlendingMode::Exclude),
    {
        matches!(self, Self::Mask | Self::Exclude)
    }

    /// The number by which the shader knows the mode.
    pub fn code(self) -> (r: u32)
        ensures
            r == spec_blend_code(self),
    {
        match self {
            Self::Normal => 0,
            Self::Multiply => 1,
            Self::Darken => 2,
            Self::DarkerColor => 3,
            Self::ColorBurn => 4,
            Self::LinearBurn => 5,
            Self::Screen => 6,
            Self::Lighten => 7,
            Self::LighterColor => 8,
            Self::ColorDodge => 9,
            Self::LinearDodge => 10,
            Self::Overlay => 11,
            Self::SoftLight => 12,
            Self::HardLight => 13,
            Self::SoftOverlay => 14,
            Self::VividLight => 15,
            Self::PinLight => 16,
            Self::Difference => 17,
            Self::Exclusion => 18,
            Self::Subtract => 19,
            Self::Divide => 20,
            Self::Hue => 21,
            Self::Saturation => 22,
            Self::Color => 23,
            Self::Luminance => 24,
            Self::Mask => 100,
            Self::Exclude => 101,
        }
    }
}

/// Distinct blend modes have distinct shader numbers.
pub proof fn law_blend_codes_distinct(a: AmBlendingMode, b: AmBlendingMode)
    requires
        a != b,
    ensures
        spec_blend_code(a) != spec_blend_code(b),
{
}


/// Blend-mode names of project files, in alphabetical order, each with the
/// number under which the compositing shader knows the mode it names.
pub open spec fn blend_name_codes() -> Seq<(Seq<char>, u32)> {
    seq![
        ("color"@, 23u32),
        ("color-burn"@, 4u32),
        ("color-dodge"@, 9u32),
        ("darken"@, 2u32),
        ("darker-color"@, 3u32),
        ("diff"@, 17u32),
        ("divide"@, 20u32),
        ("exclude"@, 101u32),
        ("exclusion"@, 18u32),
        ("hard-light"@, 13u32),
        ("hue"@, 21u32),
        ("lighten"@, 7u32),
        ("lighter-color"@, 8u32),
        ("linear-burn"@, 5u32),
        ("linear-dodge"@, 10u32),
        ("luminance"@, 24u32),
        ("mask"@, 100u32),
        ("multiply"@, 1u32),
        ("normal"@, 0u32),
        ("overlay"@, 11u32),
        ("pin-light"@, 16u32),
        ("saturation"@, 22u32),
        ("screen"@, 6u32),
        ("soft-light"@, 12u32),
        ("soft-overlay"@, 14u32),
        ("subtract"@, 19u32),
        ("vivid-light"@, 15u32),
    ]
}

/// Every known name is read as the mode that the shader knows by the listed
/// number: names and shader numbers agree, and the two mask modes are
/// numbered 100 (mask) and 101 (exclude).
pub proof fn law_blend_names_give_their_modes(i: int)
    requires
        0 <= i < 27,
    ensures
        spec_blend_code(spec_parse_blending(blend_name_codes()[i].0)) == blend_name_codes()[i].1,
{
    // Names differ in length or in one of their first two letters.
    reveal_strlit("");
    assert(""@.len() == 0);
    reveal_strlit("color");
    assert("color"@.len() == 5 && "color"@[0] == 'c' && "color"@[1] == 'o');
    reveal_strlit("color-burn");
    assert("color-burn"@.len() == 10 && "color-burn"@[0] == 'c' && "color-burn"@[1] == 'o');
    reveal_strlit("color-dodge");
    assert("color-dodge"@.len() == 11 && "color-dodge"@[0] == 'c' && "color-dodge"@[1] == 'o');
    reveal_strlit("darken");
    assert("darken"@.len() == 6 && "darken"@[0] == 'd' && "darken"@[1] == 'a');
    reveal_strlit("darker-color");
    assert("darker-color"@.len() == 12 && "darker-color"@[0] == 'd' && "darker-color"@[1] == 'a');
    reveal_strlit("diff");
    assert("diff"@.len() == 4 && "diff"@[0] == 'd' && "diff"@[1] == 'i');
    reveal_strlit("divide");
    assert("divide"@.len() == 6 && "divide"@[0] == 'd' && "divide"@[1] == 'i');
    reveal_strlit("exclude");
    assert("exclude"@.len() == 7 && "exclude"@[0] == 'e' && "exclude"@[1] == 'x');
    reveal_strlit("exclusion");
    assert("exclusion"@.len() == 9 && "exclusion"@[0] == 'e' && "exclusion"@[1] == 'x');
    reveal_strlit("hard-light");
    assert("hard-light"@.len() == 10 && "hard-light"@[0] == 'h' && "hard-light"@[1] == 'a');
    reveal_strlit("hue");
    assert("hue"@.len() == 3 && "hue"@[0] == 'h' && "hue"@[1] == 'u');
    reveal_strlit("lighten");
    assert("lighten"@.len() == 7 && "lighten"@[0] == 'l' && "lighten"@[1] == 'i');
    reveal_strlit("lighter-color");
    assert("lighter-color"@.len() == 13 && "lighter-color"@[0] == 'l' && "lighter-color"@[1] == 'i');
    reveal_strlit("linear-burn");
    assert("linear-burn"@.len() == 11 && "linear-burn"@[0] == 'l' && "linear-burn"@[1] == 'i');
    reveal_strlit("linear-dodge");
    assert("linear-dodge"@.len() == 12 && "linear-dodge"@[0] == 'l' && "linear-dodge"@[1] == 'i');
    reveal_strlit("luminance");
    assert("luminance"@.len() == 9 && "luminance"@[0] == 'l' && "luminance"@[1] == 'u');
    reveal_strlit("mask");
    assert("mask"@.len() == 4 && "mask"@[0] == 'm' && "mask"@[1] == 'a');
    reveal_strlit("multiply");
    assert("multiply"@.len() == 8 && "multiply"@[0] == 'm' && "multiply"@[1] == 'u');
    reveal_strlit("normal");
    assert("normal"@.len() == 6 && "normal"@[0] == 'n' && "normal"@[1] == 'o');
    reveal_strlit("overlay");
    assert("overlay"@.len() == 7 && "overlay"@[0] == 'o' && "overlay"@[1] == 'v');
    reveal_strlit("pin-light");
    assert("pin-light"@.len() == 9 && "pin-light"@[0] == 'p' && "pin-light"@[1] == 'i');
    reveal_strlit("saturation");
    assert("saturation"@.len() == 10 && "saturation"@[0] == 's' && "saturation"@[1] == 'a');
    reveal_strlit("screen");
    assert("screen"@.len() == 6 && "screen"@[0] == 's' && "screen"@[1] == 'c');
    reveal_strlit("soft-light");
    assert("soft-light"@.len() == 10 && "soft-light"@[0] == 's' && "soft-light"@[1] == 'o');
    reveal_strlit("soft-overlay");
    assert("soft-overlay"@.len() == 12 && "soft-overlay"@[0] == 's' && "soft-overlay"@[1] == 'o');
    reveal_strlit("subtract");
    assert("subtract"@.len() == 8 && "subtract"@[0] == 's' && "subtract"@[1] == 'u');
    reveal_strlit("vivid-light");
    assert("vivid-light"@.len() == 11 && "vivid-light"@[0] == 'v' && "vivid-light"@[1] == 'i');
    if i == 0 {
        assert(spec_parse_blending("color"@) == AmBlendingMode::Color);
    } else if i == 1 {
        assert(spec_parse_blending("color-burn"@) == AmBlendingMode::ColorBurn);
    } else if i == 2 {
        assert(spec_parse_blending("color-dodge"@) == AmBlendingMode::ColorDodge);
    } else if i == 3 {
        assert(spec_parse_blending("darken"@) == AmBlendingMode::Darken);
    } else if i == 4 {
        assert(spec_parse_blending("darker-color"@) == AmBlendingMode::DarkerColor);
    } else if i == 5 {
        assert(spec_parse_blending("diff"@) == AmBlendingMode::Difference);
    } else if i == 6 {
        assert(spec_parse_blending("divide"@) == AmBlendingMode::Divide);
    } else if i == 7 {
        assert(spec_parse_blending("exclude"@) == AmBlendingMode::Exclude);
    } else if i == 8 {
        assert(spec_parse_blending("exclusion"@) == AmBlendingMode::Exclusion);
    } else if i == 9 {
        assert(spec_parse_blending("hard-light"@) == AmBlendingMode::HardLight);
    } else if i == 10 {
        assert(spec_parse_blending("hue"@) == AmBlendingMode::Hue);
    } else if i == 11 {
        assert(spec_parse_blending("lighten"@) == AmBlendingMode::Lighten);
    } else if i == 12 {
        assert(spec_parse_blending("lighter-color"@) == AmBlendingMode::LighterColor);
    } else if i == 13 {
        assert(spec_parse_blending("linear-burn"@) == AmBlendingMode::LinearBurn);
    } else if i == 14 {
        assert(spec_parse_blending("linear-dodge"@) == AmBlendingMode::LinearDodge);
    } else if i == 15 {
        assert(spec_parse_blending("luminance"@) == AmBlendingMode::Luminance);
    } else if i == 16 {
        assert(spec_parse_blending("mask"@) == AmBlendingMode::Mask);
    } else if i == 17 {
        assert(spec_parse_blending("multiply"@) == AmBlendingMode::Multiply);
    } else if i == 18 {
        assert(spec_parse_blending("normal"@) == AmBlendingMode::Normal);
    } else if i == 19 {
        assert(spec_parse_blending("overlay"@) == AmBlendingMode::Overlay);
    } else if i == 20 {
        assert(spec_parse_blending("pin-light"@) == AmBlendingMode::PinLight);
    } else if i == 21 {
        assert(spec_parse_blending("saturation"@) == AmBlendingMode::Saturation);
    } else if i == 22 {
        assert(spec_parse_blending("screen"@) == AmBlendingMode::Screen);
    } else if i == 23 {
        assert(spec_parse_blending("soft-light"@) == AmBlendingMode::SoftLight);
    } else if i == 24 {
        assert(spec_parse_blending("soft-overlay"@) == AmBlendingMode::SoftOverlay);
    } else if i == 25 {
        assert(spec_parse_blending("subtract"@) == AmBlendingMode::Subtract);
    } else if i == 26 {
        assert(spec_parse_blending("vivid-light"@) == AmBlendingMode::VividLight);
    }
}

/// Distinct known names are read as distinct blend modes.
pub proof fn law_blend_names_distinct_modes(i: int, j: int)
    requires
        0 <= i < 27,
        0 <= j < 27,
        i != j,
    ensures
        spec_parse_blending(blend_name_codes()[i].0) != spec_parse_blending(blend_name_codes()[j].0),
{
    law_blend_names_give_their_modes(i);
    law_blend_names_give_their_modes(j);
    assert(blend_name_codes()[i].1 != blend_name_codes()[j].1);
}

/// A name that is none of the known names is read as `Normal`.
pub proof fn law_unknown_blend_names_are_normal(s: Seq<char>)
    requires
        forall|k: int| 0 <= k < 27 ==> s != (#[trigger] blend_name_codes()[k]).0,
    ensures
        spec_parse_blending(s) == AmBlendingMode::Normal,
{
    let t = blend_name_codes();
    assert(s != t[0].0);
    assert(s != t[1].0);
    assert(s != t[2].0);
    assert(s != t[3].0);
    assert(s != t[4].0);
    assert(s != t[5].0);
    assert(s != t[6].0);
    assert(s != t[7].0);
    assert(s != t[8].0);
    assert(s != t[9].0);
    assert(s != t[10].0);
    assert(s != t[11].0);
    assert(s != t[12].0);
    assert(s != t[13].0);
    assert(s != t[14].0);
    assert(s != t[15].0);
    assert(s != t[16].0);
    assert(s != t[17].0);
    assert(s != t[18].0);
    assert(s != t[19].0);
    assert(s != t[20].0);
    assert(s != t[21].0);
    assert(s != t[22].0);
    assert(s != t[23].0);
    assert(s != t[24].0);
    assert(s != t[25].0);
    assert(s != t[26].0);
}

} // verus!
