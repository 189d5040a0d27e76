//! The four-character keys of blend modes, the key lists of the format, and the
//! shapes in which channels are handed to the writer.

use vstd::prelude::*;

use crate::psd::{BlendMode, ChannelId, LayerColor};
use crate::text;

pub use crate::channels::{ChannelData, LayerChannelData};
pub use crate::codec::write_data_zip_without_prediction;
pub use crate::dict::{rev_map, Dict, EnumCodec};
pub use crate::pixels::{
    create_canvas, create_canvas_from_data, create_image_data, decode_bitmap, has_alpha,
    image_data_to_canvas, initialize_canvas, reset_image_data, write_data_raw,
};
pub use crate::rle::{rle_scratch_size, write_data_rle};

verus! {

/// No stand-ins take the place of the handlers of blocks.
pub const MOCK_HANDLERS: bool = false;

/// Channels are not written uncompressed.
pub const RAW_IMAGE_DATA: bool = false;

/// The key of a blend mode.
pub open spec fn blend_key(mode: BlendMode) -> Seq<char> {
    match mode {
        BlendMode::PassThrough => "pass"@,
        BlendMode::Normal => "norm"@,
        BlendMode::Dissolve => "diss"@,
        BlendMode::Darken => "dark"@,
        BlendMode::Multiply => "mul "@,
        BlendMode::ColorBurn => "idiv"@,
        BlendMode::LinearBurn => "lbrn"@,
        BlendMode::DarkerColor => "dkCl"@,
        BlendMode::Lighten => "lite"@,
        BlendMode::Screen => "scrn"@,
        BlendMode::ColorDodge => "div "@,
        BlendMode::LinearDodge => "lddg"@,
        BlendMode::LighterColor => "lgCl"@,
        BlendMode::Overlay => "over"@,
        BlendMode::SoftLight => "sLit"@,
        BlendMode::HardLight => "hLit"@,
        BlendMode::VividLight => "vLit"@,
        BlendMode::LinearLight => "lLit"@,
        BlendMode::PinLight => "pLit"@,
        BlendMode::HardMix => "hMix"@,
        BlendMode::Difference => "diff"@,
        BlendMode::Exclusion => "smud"@,
        BlendMode::Subtract => "fsub"@,
        BlendMode::Divide => "fdiv"@,
        BlendMode::Hue => "hue "@,
        BlendMode::Saturation => "sat "@,
        BlendMode::Color => "colr"@,
        BlendMode::Luminosity => "lum "@,
    }
}

/// The key of a blend mode as a big-endian number.
pub open spec fn blend_code(mode: BlendMode) -> u32 {
    match mode {
        BlendMode::PassThrough => 0x7061_7373,
        BlendMode::Normal => 0x6E6F_726D,
        BlendMode::Dissolve => 0x6469_7373,
        BlendMode::Darken => 0x6461_726B,
        BlendMode::Multiply => 0x6D75_6C20,
        BlendMode::ColorBurn => 0x6964_6976,
        BlendMode::LinearBurn => 0x6C62_726E,
        BlendMode::DarkerColor => 0x646B_436C,
        BlendMode::Lighten => 0x6C69_7465,
        BlendMode::Screen => 0x7363_726E,
        BlendMode::ColorDodge => 0x6469_7620,
        BlendMode::LinearDodge => 0x6C64_6467,
        BlendMode::LighterColor => 0x6C67_436C,
        BlendMode::Overlay => 0x6F76_6572,
        BlendMode::SoftLight => 0x734C_6974,
        BlendMode::HardLight => 0x684C_6974,
        BlendMode::VividLight => 0x764C_6974,
        BlendMode::LinearLight => 0x6C4C_6974,
        BlendMode::PinLight => 0x704C_6974,
        BlendMode::HardMix => 0x684D_6978,
        BlendMode::Difference => 0x6469_6666,
        BlendMode::Exclusion => 0x736D_7564,
        BlendMode::Subtract => 0x6673_7562,
        BlendMode::Divide => 0x6664_6976,
        BlendMode::Hue => 0x6875_6520,
        BlendMode::Saturation => 0x7361_7420,
        BlendMode::Color => 0x636F_6C72,
        BlendMode::Luminosity => 0x6C75_6D20,
    }
}

/// Four characters below 256 as a big-endian number.
pub open spec fn code_of(s: Seq<char>) -> int {
    s[0] as int * 0x100_0000 + s[1] as int * 0x1_0000 + s[2] as int * 0x100 + s[3] as int
}

/// Four characters, each of which takes one byte in Latin-1.
pub open spec fn is_code_text(s: Seq<char>) -> bool {
    s.len() == 4 && (s[0] as int) < 256 && (s[1] as int) < 256 && (s[2] as int) < 256 && (
    s[3] as int) < 256
}

/// The blend mode with the given key.
pub open spec fn blend_mode_of(key: Seq<char>) -> Option<BlendMode> {
    if exists|mode: BlendMode| #[trigger] blend_key(mode) == key {
        Some(choose|mode: BlendMode| #[trigger] blend_key(mode) == key)
    } else {
        None
    }
}

/// A key is four ASCII characters, and as a number it is the code of its mode.
pub proof fn lemma_blend_key(mode: BlendMode)
    ensures
        blend_key(mode).len() == 4,
        forall|i: int| 0 <= i < 4 ==> 0 <= (#[trigger] blend_key(mode)[i]) as int && (blend_key(
            mode,
        )[i] as int) < 128,
        code_of(blend_key(mode)) == blend_code(mode),
{
    match mode {
        BlendMode::PassThrough => reveal_strlit("pass"),
        BlendMode::Normal => reveal_strlit("norm"),
        BlendMode::Dissolve => reveal_strlit("diss"),
        BlendMode::Darken => reveal_strlit("dark"),
        BlendMode::Multiply => reveal_strlit("mul "),
        BlendMode::ColorBurn => reveal_strlit("idiv"),
        BlendMode::LinearBurn => reveal_strlit("lbrn"),
        BlendMode::DarkerColor => reveal_strlit("dkCl"),
        BlendMode::Lighten => reveal_strlit("lite"),
        BlendMode::Screen => reveal_strlit("scrn"),
        BlendMode::ColorDodge => reveal_strlit("div "),
        BlendMode::LinearDodge => reveal_strlit("lddg"),
        BlendMode::LighterColor => reveal_strlit("lgCl"),
        BlendMode::Overlay => reveal_strlit("over"),
        BlendMode::SoftLight => reveal_strlit("sLit"),
        BlendMode::HardLight => reveal_strlit("hLit"),
        BlendMode::VividLight => reveal_strlit("vLit"),
        BlendMode::LinearLight => reveal_strlit("lLit"),
        BlendMode::PinLight => reveal_strlit("pLit"),
        BlendMode::HardMix => reveal_strlit("hMix"),
        BlendMode::Difference => reveal_strlit("diff"),
        BlendMode::Exclusion => reveal_strlit("smud"),
        BlendMode::Subtract => reveal_strlit("fsub"),
        BlendMode::Divide => reveal_strlit("fdiv"),
        BlendMode::Hue => reveal_strlit("hue "),
        BlendMode::Saturation => reveal_strlit("sat "),
        BlendMode::Color => reveal_strlit("colr"),
        BlendMode::Luminosity => reveal_strlit("lum "),
    }
}

proof fn lemma_digits(a: int, b: int, c: int, d: int, p: int, q: int, r: int, s: int)
    requires
        0 <= a < 256,
        0 <= b < 256,
        0 <= c < 256,
        0 <= d < 256,
        0 <= p < 256,
        0 <= q < 256,
        0 <= r < 256,
        0 <= s < 256,
        a * 0x100_0000 + b * 0x1_0000 + c * 0x100 + d == p * 0x100_0000 + q * 0x1_0000 + r * 0x100
            + s,
    ensures
        a == p,
        b == q,
        c == r,
        d == s,
{
    assert(a == p);
    assert(b == q);
    assert(c == r);
}

proof fn lemma_code_injective(a: Seq<char>, b: Seq<char>)
    requires
        is_code_text(a),
        is_code_text(b),
        code_of(a) == code_of(b),
    ensures
        a == b,
{
    text::lemma_char_code(a[0]);
    text::lemma_char_code(a[1]);
    text::lemma_char_code(a[2]);
    text::lemma_char_code(a[3]);
    text::lemma_char_code(b[0]);
    text::lemma_char_code(b[1]);
    text::lemma_char_code(b[2]);
    text::lemma_char_code(b[3]);
    lemma_digits(
        a[0] as int,
        a[1] as int,
        a[2] as int,
        a[3] as int,
        b[0] as int,
        b[1] as int,
        b[2] as int,
        b[3] as int,
    );
    assert(a =~= b);
}

/// Two blend modes never share a key.
pub proof fn law_blend_keys_distinct(a: BlendMode, b: BlendMode)
    requires
        blend_key(a) == blend_key(b),
    ensures
        a == b,
{
    lemma_blend_key(a);
    lemma_blend_key(b);
}

/// The mode with the key of a mode is that mode.
pub proof fn law_blend_mode_round_trip(mode: BlendMode)
    ensures
        blend_mode_of(blend_key(mode)) == Some(mode),
{
    let found = choose|m: BlendMode| #[trigger] blend_key(m) == blend_key(mode);
    law_blend_keys_distinct(found, mode);
}

/// The key of a blend mode.
pub fn from_blend_mode(mode: BlendMode) -> (key: &'static str)
    ensures
        key@ == blend_key(mode),
{
    match mode {
        BlendMode::PassThrough => "pass",
        BlendMode::Normal => "norm",
        BlendMode::Dissolve => "diss",
        BlendMode::Darken => "dark",
        BlendMode::Multiply => "mul ",
        BlendMode::ColorBurn => "idiv",
        BlendMode::LinearBurn => "lbrn",
        BlendMode::DarkerColor => "dkCl",
        BlendMode::Lighten => "lite",
        BlendMode::Screen => "scrn",
        BlendMode::ColorDodge => "div ",
        BlendMode::LinearDodge => "lddg",
        BlendMode::LighterColor => "lgCl",
        BlendMode::Overlay => "over",
        BlendMode::SoftLight => "sLit",
        BlendMode::HardLight => "hLit",
        BlendMode::VividLight => "vLit",
        BlendMode::LinearLight => "lLit",
        BlendMode::PinLight => "pLit",
        BlendMode::HardMix => "hMix",
        BlendMode::Difference => "diff",
        BlendMode::Exclusion => "smud",
        BlendMode::Subtract => "fsub",
        BlendMode::Divide => "fdiv",
        BlendMode::Hue => "hue ",
        BlendMode::Saturation => "sat ",
        BlendMode::Color => "colr",
        BlendMode::Luminosity => "lum ",
    }
}

fn mode_of_code(code: u32) -> (mode: Option<BlendMode>)
    ensures
        match mode {
            Some(m) => blend_code(m) == code,
            None => forall|m: BlendMode| #[trigger] blend_code(m) != code,
        },
{
    let mode: BlendMode = match code {
        0x7061_7373 => BlendMode::PassThrough,
        0x6E6F_726D => BlendMode::Normal,
        0x6469_7373 => BlendMode::Dissolve,
        0x6461_726B => BlendMode::Darken,
        0x6D75_6C20 => BlendMode::Multiply,
        0x6964_6976 => BlendMode::ColorBurn,
        0x6C62_726E => BlendMode::LinearBurn,
        0x646B_436C => BlendMode::DarkerColor,
        0x6C69_7465 => BlendMode::Lighten,
        0x7363_726E => BlendMode::Screen,
        0x6469_7620 => BlendMode::ColorDodge,
        0x6C64_6467 => BlendMode::LinearDodge,
        0x6C67_436C => BlendMode::LighterColor,
        0x6F76_6572 => BlendMode::Overlay,
        0x734C_6974 => BlendMode::SoftLight,
        0x684C_6974 => BlendMode::HardLight,
        0x764C_6974 => BlendMode::VividLight,
        0x6C4C_6974 => BlendMode::LinearLight,
        0x704C_6974 => BlendMode::PinLight,
        0x684D_6978 => BlendMode::HardMix,
        0x6469_6666 => BlendMode::Difference,
        0x736D_7564 => BlendMode::Exclusion,
        0x6673_7562 => BlendMode::Subtract,
        0x6664_6976 => BlendMode::Divide,
        0x6875_6520 => BlendMode::Hue,
        0x7361_7420 => BlendMode::Saturation,
        0x636F_6C72 => BlendMode::Color,
        0x6C75_6D20 => BlendMode::Luminosity,
        _ => {
            return None;
        },
    };
    Some(mode)
}

/// The blend mode with the given key.
pub fn to_blend_mode(key: &str) -> (mode: Option<BlendMode>)
    ensures
        mode == blend_mode_of(key@),
{
    let chars: Vec<char> = text::chars_of(key);
    let mut mode: Option<BlendMode> = None;
    if chars.len() == 4 {
        let a: u32 = chars[0] as u32;
        let b: u32 = chars[1] as u32;
        let c: u32 = chars[2] as u32;
        let d: u32 = chars[3] as u32;
        proof {
            text::lemma_char_code(key@[0]);
            text::lemma_char_code(key@[1]);
            text::lemma_char_code(key@[2]);
            text::lemma_char_code(key@[3]);
        }
        if a < 256 && b < 256 && c < 256 && d < 256 {
            mode = mode_of_code(a * 0x100_0000 + b * 0x1_0000 + c * 0x100 + d);
        }
    }
    proof {
        if mode is Some {
            lemma_blend_key(mode->Some_0);
            lemma_code_injective(key@, blend_key(mode->Some_0));
            law_blend_mode_round_trip(mode->Some_0);
        } else {
            assert forall|m: BlendMode| #[trigger] blend_key(m) != key@ by {
                lemma_blend_key(m);
            }
        }
    }
    mode
}

/// The colours that a layer can be marked with, in the order of their numbers.
pub const LAYER_COLORS: [LayerColor; 8] = [
    LayerColor::NoColor,
    LayerColor::Red,
    LayerColor::Orange,
    LayerColor::Yellow,
    LayerColor::Green,
    LayerColor::Blue,
    LayerColor::Violet,
    LayerColor::Gray,
];

/// The keys of blocks whose length takes eight bytes in the large document format.
pub const LARGE_ADDITIONAL_INFO_KEYS: [&'static str; 14] = [
    "LMsk",
    "Lr16",
    "Lr32",
    "Layr",
    "Mt16",
    "Mt32",
    "Mtrn",
    "Alph",
    "FMsk",
    "lnk2",
    "FEid",
    "FXid",
    "PxSD",
    "cinf",
];

/// The colour spaces of the format.
#[derive(Clone, Copy, Debug, PartialEq, Eq, Structural)]
pub enum ColorSpace {
    Rgb,
    Hsb,
    Cmyk,
    Lab,
    Grayscale,
}

/// The number of a colour space.
pub open spec fn color_space_code(space: ColorSpace) -> u16 {
    match space {
        ColorSpace::Rgb => 0,
        ColorSpace::Hsb => 1,
        ColorSpace::Cmyk => 2,
        ColorSpace::Lab => 7,
        ColorSpace::Grayscale => 8,
    }
}

impl ColorSpace {
    /// The number of the colour space.
    pub fn code(self) -> (code: u16)
        ensures
            code == color_space_code(self),
    {
        match self {
            ColorSpace::Rgb => 0,
            ColorSpace::Hsb => 1,
            ColorSpace::Cmyk => 2,
            ColorSpace::Lab => 7,
            ColorSpace::Grayscale => 8,
        }
    }
}

/// The flags of a mask.
#[derive(Clone, Copy, Debug, PartialEq, Eq, Structural)]
pub enum LayerMaskFlags {
    PositionRelativeToLayer,
    LayerMaskDisabled,
    /// No longer in use.
    InvertLayerMaskWhenBlending,
    LayerMaskFromRenderingOtherData,
    MaskHasParametersAppliedToIt,
}

/// The weight of a flag.
pub open spec fn mask_flag(flag: LayerMaskFlags) -> u8 {
    match flag {
        LayerMaskFlags::PositionRelativeToLayer => 1,
        LayerMaskFlags::LayerMaskDisabled => 2,
        LayerMaskFlags::InvertLayerMaskWhenBlending => 4,
        LayerMaskFlags::LayerMaskFromRenderingOtherData => 8,
        LayerMaskFlags::MaskHasParametersAppliedToIt => 16,
    }
}

impl LayerMaskFlags {
    /// The weight of the flag.
    pub fn code(self) -> (code: u8)
        ensures
            code == mask_flag(self),
    {
        match self {
            LayerMaskFlags::PositionRelativeToLayer => 1,
            LayerMaskFlags::LayerMaskDisabled => 2,
            LayerMaskFlags::InvertLayerMaskWhenBlending => 4,
            LayerMaskFlags::LayerMaskFromRenderingOtherData => 8,
            LayerMaskFlags::MaskHasParametersAppliedToIt => 16,
        }
    }
}

/// The parameters of a mask.
#[derive(Clone, Copy, Debug, PartialEq, Eq, Structural)]
pub enum MaskParams {
    UserMaskDensity,
    UserMaskFeather,
    VectorMaskDensity,
    VectorMaskFeather,
}

/// The weight of a parameter.
pub open spec fn mask_param(param: MaskParams) -> u8 {
    match param {
        MaskParams::UserMaskDensity => 1,
        MaskParams::UserMaskFeather => 2,
        MaskParams::VectorMaskDensity => 4,
        MaskParams::VectorMaskFeather => 8,
    }
}

impl MaskParams {
    /// The weight of the parameter.
    pub fn code(self) -> (code: u8)
        ensures
            code == mask_param(self),
    {
        match self {
            MaskParams::UserMaskDensity => 1,
            MaskParams::UserMaskFeather => 2,
            MaskParams::VectorMaskDensity => 4,
            MaskParams::VectorMaskFeather => 8,
        }
    }
}

/// A rectangle.
#[derive(Clone, Copy, Debug, PartialEq, Eq, Structural)]
pub struct Bounds {
    pub top: i32,
    pub left: i32,
    pub right: i32,
    pub bottom: i32,
}

impl Default for Bounds {
    fn default() -> (bounds: Bounds)
        ensures
            bounds == (Bounds { top: 0, left: 0, right: 0, bottom: 0 }),
    {
        Bounds { top: 0, left: 0, right: 0, bottom: 0 }
    }
}

impl DeepView for Bounds {
    type V = Bounds;

    open spec fn deep_view(&self) -> Bounds {
        *self
    }
}

/// The number of a channel.
pub open spec fn channel_code(id: ChannelId) -> i16 {
    match id {
        ChannelId::Color0 => 0,
        ChannelId::Color1 => 1,
        ChannelId::Color2 => 2,
        ChannelId::Color3 => 3,
        ChannelId::Transparency => (-1) as i16,
        ChannelId::UserMask => (-2) as i16,
        ChannelId::RealUserMask => (-3) as i16,
    }
}

/// The number of a channel.
pub fn channel_number(id: ChannelId) -> (code: i16)
    ensures
        code == channel_code(id),
{
    match id {
        ChannelId::Color0 => 0,
        ChannelId::Color1 => 1,
        ChannelId::Color2 => 2,
        ChannelId::Color3 => 3,
        ChannelId::Transparency => -1,
        ChannelId::UserMask => -2,
        ChannelId::RealUserMask => -3,
    }
}

/// Where the samples of a channel go in a pixel; below zero for a mask.
pub open spec fn channel_offset(id: ChannelId, cmyk: bool) -> int {
    match id {
        ChannelId::Color0 => 0,
        ChannelId::Color1 => 1,
        ChannelId::Color2 => 2,
        ChannelId::Color3 => if cmyk {
            3
        } else {
            4
        },
        ChannelId::Transparency => if cmyk {
            4
        } else {
            3
        },
        ChannelId::UserMask => -1,
        ChannelId::RealUserMask => -2,
    }
}

/// Where the samples of a channel go in a pixel; below zero for a mask.
pub fn offset_for_channel(channel_id: ChannelId, cmyk: bool) -> (offset: i32)
    ensures
        offset == channel_offset(channel_id, cmyk),
{
    match channel_id {
        ChannelId::Color0 => 0,
        ChannelId::Color1 => 1,
        ChannelId::Color2 => 2,
        ChannelId::Color3 => if cmyk {
            3
        } else {
            4
        },
        ChannelId::Transparency => if cmyk {
            4
        } else {
            3
        },
        ChannelId::UserMask => -1,
        ChannelId::RealUserMask => -2,
    }
}

} // verus!
