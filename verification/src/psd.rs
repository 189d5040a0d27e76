//! The document: its settings, its layers and its pixels.
//!
//! Quantities that the format stores as scaled integers are kept as stored:
//! opacities and densities as bytes, colour components as 16-bit samples,
//! feathers as the bits of their 64-bit floating point number.

use vstd::prelude::*;

verus! {

/// How a layer is combined with what lies below it.
#[derive(Clone, Copy, Debug, PartialEq, Eq, Structural)]
pub enum BlendMode {
    PassThrough,
    Normal,
    Dissolve,
    Darken,
    Multiply,
    ColorBurn,
    LinearBurn,
    DarkerColor,
    Lighten,
    Screen,
    ColorDodge,
    LinearDodge,
    LighterColor,
    Overlay,
    SoftLight,
    HardLight,
    VividLight,
    LinearLight,
    PinLight,
    HardMix,
    Difference,
    Exclusion,
    Subtract,
    Divide,
    Hue,
    Saturation,
    Color,
    Luminosity,
}

/// The colour mode of a document.
#[derive(Clone, Copy, Debug, PartialEq, Eq, Structural)]
pub enum ColorMode {
    Bitmap,
    Grayscale,
    Indexed,
    Rgb,
    Cmyk,
    Multichannel,
    Duotone,
    Lab,
}

/// How the samples of a channel are stored.
#[derive(Clone, Copy, Debug, PartialEq, Eq, Structural)]
pub enum Compression {
    RawData,
    RleCompressed,
    ZipWithoutPrediction,
    ZipWithPrediction,
}

/// What a channel holds.
#[derive(Clone, Copy, Debug, PartialEq, Eq, Structural)]
pub enum ChannelId {
    Color0,
    Color1,
    Color2,
    Color3,
    Transparency,
    UserMask,
    RealUserMask,
}

/// The colour that a layer is marked with.
#[derive(Clone, Copy, Debug, PartialEq, Eq, Structural)]
pub enum LayerColor {
    NoColor,
    Red,
    Orange,
    Yellow,
    Green,
    Blue,
    Violet,
    Gray,
}

/// What a layer record is in the flat list of layers: a layer, the head of a
/// group, or the end of a group.
#[derive(Clone, Copy, Debug, PartialEq, Eq, Structural)]
pub enum SectionDividerType {
    Other,
    OpenFolder,
    ClosedFolder,
    BoundingSectionDivider,
}

/// Settings for reading.
#[derive(Clone, Copy, Debug, PartialEq, Eq, Structural)]
pub struct ReadOptions {
    pub skip_layer_image_data: Option<bool>,
    pub skip_composite_image_data: Option<bool>,
    pub skip_thumbnail: Option<bool>,
    pub use_image_data: Option<bool>,
    pub use_raw_data: Option<bool>,
    pub throw_for_missing_features: Option<bool>,
    pub strict: Option<bool>,
    pub debug: Option<bool>,
    /// How many bytes the bitmaps and tables of one document may take together;
    /// without a number there is no limit.
    pub total_memory_limit: Option<usize>,
}

/// The memory limit of the default settings: 2 GiB.
pub const DEFAULT_TOTAL_MEMORY_LIMIT: usize = 0x8000_0000;

/// The default settings.
pub open spec fn default_read_options() -> ReadOptions {
    ReadOptions {
        skip_layer_image_data: None,
        skip_composite_image_data: None,
        skip_thumbnail: None,
        use_image_data: None,
        use_raw_data: None,
        throw_for_missing_features: None,
        strict: None,
        debug: None,
        total_memory_limit: Some(DEFAULT_TOTAL_MEMORY_LIMIT),
    }
}

impl Default for ReadOptions {
    fn default() -> (options: ReadOptions)
        ensures
            options == default_read_options(),
    {
        ReadOptions {
            skip_layer_image_data: None,
            skip_composite_image_data: None,
            skip_thumbnail: None,
            use_image_data: None,
            use_raw_data: None,
            throw_for_missing_features: None,
            strict: None,
            debug: None,
            total_memory_limit: Some(DEFAULT_TOTAL_MEMORY_LIMIT),
        }
    }
}

/// Settings for writing.
#[derive(Clone, Copy, Debug, PartialEq, Eq, Structural)]
pub struct WriteOptions {
    /// Cut the transparent border off every layer.
    pub trim_image_data: Option<bool>,
    /// Give the lowest layer a transparency channel even where it is opaque.
    pub no_background: Option<bool>,
    /// Write the large document format.
    pub psb: Option<bool>,
    /// Compress the channels of layers with ZIP instead of RLE.
    pub compress: Option<bool>,
}

impl Default for WriteOptions {
    fn default() -> (options: WriteOptions)
        ensures
            options == (WriteOptions {
                trim_image_data: None,
                no_background: None,
                psb: None,
                compress: None,
            }),
    {
        WriteOptions { trim_image_data: None, no_background: None, psb: None, compress: None }
    }
}

/// A bitmap of 8-bit RGBA pixels, row by row.
#[derive(Clone, Debug, PartialEq, Eq)]
pub struct PixelData {
    pub width: u32,
    pub height: u32,
    pub data: Vec<u8>,
}

/// The mathematical view of [`PixelData`].
#[verifier::ext_equal]
pub struct PixelDataView {
    pub width: u32,
    pub height: u32,
    pub data: Seq<u8>,
}

impl DeepView for PixelData {
    type V = PixelDataView;

    open spec fn deep_view(&self) -> PixelDataView {
        PixelDataView { width: self.width, height: self.height, data: self.data@ }
    }
}

impl PixelDataView {
    /// How many bytes the pixels take.
    pub open spec fn size(self) -> int {
        self.width * self.height * 4
    }

    /// There are at least as many bytes as the pixels take.
    pub open spec fn wf(self) -> bool {
        self.size() <= self.data.len()
    }
}

impl PixelData {
    /// A copy of the bitmap.
    pub fn duplicate(&self) -> (copy: PixelData)
        ensures
            copy.deep_view() == self.deep_view(),
    {
        let data: Vec<u8> = copy_bytes(&self.data);
        PixelData { width: self.width, height: self.height, data }
    }
}

/// A copy of some bytes.
pub fn copy_bytes(bytes: &[u8]) -> (copy: Vec<u8>)
    ensures
        copy@ == bytes@,
{
    vstd::slice::slice_to_vec(bytes)
}

/// A colour of a palette.
#[derive(Clone, Copy, Debug, PartialEq, Eq, Structural)]
pub struct PaletteColor {
    pub r: u8,
    pub g: u8,
    pub b: u8,
}

/// A colour of red, green and blue samples of 257 steps per 8-bit step, and an
/// opacity, which is not stored.
#[derive(Clone, Copy, Debug, PartialEq, Eq, Structural)]
pub struct Rgba {
    pub r: u16,
    pub g: u16,
    pub b: u16,
    pub a: u16,
}

/// A colour of red, green and blue samples of 257 steps per 8-bit step.
#[derive(Clone, Copy, Debug, PartialEq, Eq, Structural)]
pub struct Rgb {
    pub r: u16,
    pub g: u16,
    pub b: u16,
}

/// A colour of red, green and blue samples of 65535 steps for the whole range.
#[derive(Clone, Copy, Debug, PartialEq, Eq, Structural)]
pub struct Frgb {
    pub fr: u16,
    pub fg: u16,
    pub fb: u16,
}

/// A colour of lightness, in steps of 1/10000, and two opponent samples, in steps
/// of 1/12700, below zero of 1/12800.
#[derive(Clone, Copy, Debug, PartialEq, Eq, Structural)]
pub struct Lab {
    pub l: i16,
    pub a: i16,
    pub b: i16,
}

/// A colour of hue, saturation and brightness of 65535 steps for the whole range.
#[derive(Clone, Copy, Debug, PartialEq, Eq, Structural)]
pub struct Hsb {
    pub h: u16,
    pub s: u16,
    pub b: u16,
}

/// A colour of four ink samples of 257 steps per 8-bit step.
#[derive(Clone, Copy, Debug, PartialEq, Eq, Structural)]
pub struct Cmyk {
    pub c: u16,
    pub m: u16,
    pub y: u16,
    pub k: u16,
}

/// A gray of 10000 steps for the whole range.
#[derive(Clone, Copy, Debug, PartialEq, Eq, Structural)]
pub struct Grayscale {
    pub k: u16,
}

/// A colour in one of the colour spaces of the format, in its stored samples.
#[derive(Clone, Copy, Debug, PartialEq, Eq, Structural)]
pub enum Color {
    Rgba(Rgba),
    Rgb(Rgb),
    Frgb(Frgb),
    Lab(Lab),
    Hsb(Hsb),
    Cmyk(Cmyk),
    Grayscale(Grayscale),
}

impl DeepView for Color {
    type V = Color;

    open spec fn deep_view(&self) -> Color {
        *self
    }
}

/// A block of additional information: its four-character key as a big-endian
/// number, and its payload.
#[derive(Clone, Debug, PartialEq, Eq)]
pub struct InfoBlock {
    pub key: u32,
    pub data: Vec<u8>,
}

/// The mathematical view of [`InfoBlock`].
#[verifier::ext_equal]
pub struct InfoBlockView {
    pub key: u32,
    pub data: Seq<u8>,
}

impl DeepView for InfoBlock {
    type V = InfoBlockView;

    open spec fn deep_view(&self) -> InfoBlockView {
        InfoBlockView { key: self.key, data: self.data@ }
    }
}

/// An image resource: its number and its payload.
#[derive(Clone, Debug, PartialEq, Eq)]
pub struct ResourceBlock {
    pub id: u16,
    pub data: Vec<u8>,
}

/// The mathematical view of [`ResourceBlock`].
#[verifier::ext_equal]
pub struct ResourceBlockView {
    pub id: u16,
    pub data: Seq<u8>,
}

impl DeepView for ResourceBlock {
    type V = ResourceBlockView;

    open spec fn deep_view(&self) -> ResourceBlockView {
        ResourceBlockView { id: self.id, data: self.data@ }
    }
}

/// The part that a layer record plays in a group.
#[derive(Clone, Debug, PartialEq, Eq)]
pub struct SectionDivider {
    pub divider_type: SectionDividerType,
    pub key: Option<String>,
    pub sub_type: Option<u32>,
}

/// The mathematical view of [`SectionDivider`].
#[verifier::ext_equal]
pub struct SectionDividerView {
    pub divider_type: SectionDividerType,
    pub key: Option<Seq<char>>,
    pub sub_type: Option<u32>,
}

impl DeepView for SectionDivider {
    type V = SectionDividerView;

    open spec fn deep_view(&self) -> SectionDividerView {
        SectionDividerView {
            divider_type: self.divider_type,
            key: match self.key {
                Some(key) => Some(key@),
                None => None,
            },
            sub_type: self.sub_type,
        }
    }
}

/// For one channel, the ranges of samples of a layer and of what lies below it
/// that are blended.
#[derive(Clone, Copy, Debug, PartialEq, Eq, Structural)]
pub struct BlendingRange {
    pub source_range: u32,
    pub dest_range: u32,
}

/// The ranges of samples that are blended. A range is four samples, held as a
/// big-endian number.
#[derive(Clone, Debug, PartialEq, Eq)]
pub struct BlendingRanges {
    pub composite_gray_blend_source: u32,
    pub composite_graph_blend_destination_range: u32,
    pub ranges: Vec<BlendingRange>,
}

/// The mathematical view of [`BlendingRanges`].
#[verifier::ext_equal]
pub struct BlendingRangesView {
    pub composite_gray_blend_source: u32,
    pub composite_graph_blend_destination_range: u32,
    pub ranges: Seq<BlendingRange>,
}

impl DeepView for BlendingRanges {
    type V = BlendingRangesView;

    open spec fn deep_view(&self) -> BlendingRangesView {
        BlendingRangesView {
            composite_gray_blend_source: self.composite_gray_blend_source,
            composite_graph_blend_destination_range: self.composite_graph_blend_destination_range,
            ranges: self.ranges@,
        }
    }
}

/// A mask of a layer.
#[derive(Clone, Debug, PartialEq, Eq)]
pub struct LayerMaskData {
    pub top: Option<i32>,
    pub left: Option<i32>,
    pub bottom: Option<i32>,
    pub right: Option<i32>,
    pub default_color: Option<u8>,
    pub disabled: Option<bool>,
    pub position_relative_to_layer: Option<bool>,
    pub from_vector_data: Option<bool>,
    pub user_mask_density: Option<u8>,
    pub user_mask_feather: Option<u64>,
    pub vector_mask_density: Option<u8>,
    pub vector_mask_feather: Option<u64>,
    pub canvas: Option<PixelData>,
    pub image_data: Option<PixelData>,
}

/// The mathematical view of [`LayerMaskData`].
#[verifier::ext_equal]
pub struct LayerMaskView {
    pub top: Option<i32>,
    pub left: Option<i32>,
    pub bottom: Option<i32>,
    pub right: Option<i32>,
    pub default_color: Option<u8>,
    pub disabled: Option<bool>,
    pub position_relative_to_layer: Option<bool>,
    pub from_vector_data: Option<bool>,
    pub user_mask_density: Option<u8>,
    pub user_mask_feather: Option<u64>,
    pub vector_mask_density: Option<u8>,
    pub vector_mask_feather: Option<u64>,
    pub canvas: Option<PixelDataView>,
    pub image_data: Option<PixelDataView>,
}

impl DeepView for LayerMaskData {
    type V = LayerMaskView;

    open spec fn deep_view(&self) -> LayerMaskView {
        LayerMaskView {
            top: self.top,
            left: self.left,
            bottom: self.bottom,
            right: self.right,
            default_color: self.default_color,
            disabled: self.disabled,
            position_relative_to_layer: self.position_relative_to_layer,
            from_vector_data: self.from_vector_data,
            user_mask_density: self.user_mask_density,
            user_mask_feather: self.user_mask_feather,
            vector_mask_density: self.vector_mask_density,
            vector_mask_feather: self.vector_mask_feather,
            canvas: self.canvas.deep_view(),
            image_data: self.image_data.deep_view(),
        }
    }
}

/// A mask about which nothing is said.
pub open spec fn empty_mask() -> LayerMaskView {
    LayerMaskView {
        top: None,
        left: None,
        bottom: None,
        right: None,
        default_color: None,
        disabled: None,
        position_relative_to_layer: None,
        from_vector_data: None,
        user_mask_density: None,
        user_mask_feather: None,
        vector_mask_density: None,
        vector_mask_feather: None,
        canvas: None,
        image_data: None,
    }
}

impl Default for LayerMaskData {
    fn default() -> (mask: LayerMaskData)
        ensures
            mask.deep_view() == empty_mask(),
    {
        LayerMaskData {
            top: None,
            left: None,
            bottom: None,
            right: None,
            default_color: None,
            disabled: None,
            position_relative_to_layer: None,
            from_vector_data: None,
            user_mask_density: None,
            user_mask_feather: None,
            vector_mask_density: None,
            vector_mask_feather: None,
            canvas: None,
            image_data: None,
        }
    }
}

/// What is known of a layer, or of the whole document, besides its pixels.
#[derive(Clone, Debug, PartialEq, Eq)]
pub struct LayerAdditionalInfo {
    pub name: Option<String>,
    pub mask: Option<LayerMaskData>,
    pub real_mask: Option<LayerMaskData>,
    pub blending_ranges: Option<BlendingRanges>,
    pub section_divider: Option<SectionDivider>,
    /// The other blocks, in the order in which they are stored.
    pub blocks: Vec<InfoBlock>,
}

/// The mathematical view of [`LayerAdditionalInfo`].
#[verifier::ext_equal]
pub struct AdditionalInfoView {
    pub name: Option<Seq<char>>,
    pub mask: Option<LayerMaskView>,
    pub real_mask: Option<LayerMaskView>,
    pub blending_ranges: Option<BlendingRangesView>,
    pub section_divider: Option<SectionDividerView>,
    pub blocks: Seq<InfoBlockView>,
}

impl DeepView for LayerAdditionalInfo {
    type V = AdditionalInfoView;

    open spec fn deep_view(&self) -> AdditionalInfoView {
        AdditionalInfoView {
            name: match self.name {
                Some(name) => Some(name@),
                None => None,
            },
            mask: self.mask.deep_view(),
            real_mask: self.real_mask.deep_view(),
            blending_ranges: self.blending_ranges.deep_view(),
            section_divider: self.section_divider.deep_view(),
            blocks: self.blocks.deep_view(),
        }
    }
}

/// Nothing is known.
pub open spec fn empty_info() -> AdditionalInfoView {
    AdditionalInfoView {
        name: None,
        mask: None,
        real_mask: None,
        blending_ranges: None,
        section_divider: None,
        blocks: Seq::empty(),
    }
}

impl Default for LayerAdditionalInfo {
    fn default() -> (info: LayerAdditionalInfo)
        ensures
            info.deep_view() == empty_info(),
    {
        let info: LayerAdditionalInfo = LayerAdditionalInfo {
            name: None,
            mask: None,
            real_mask: None,
            blending_ranges: None,
            section_divider: None,
            blocks: Vec::new(),
        };
        assert(info.blocks.deep_view() =~= Seq::<InfoBlockView>::empty());
        info
    }
}

/// A channel of a layer as it is stored.
#[derive(Clone, Debug, PartialEq, Eq)]
pub struct LayerRawDataChannel {
    pub id: ChannelId,
    pub compression: Compression,
    pub data: Option<Vec<u8>>,
}

/// The mathematical view of [`LayerRawDataChannel`].
#[verifier::ext_equal]
pub struct RawChannelView {
    pub id: ChannelId,
    pub compression: Compression,
    pub data: Option<Seq<u8>>,
}

impl DeepView for LayerRawDataChannel {
    type V = RawChannelView;

    open spec fn deep_view(&self) -> RawChannelView {
        RawChannelView {
            id: self.id,
            compression: self.compression,
            data: match self.data {
                Some(data) => Some(data@),
                None => None,
            },
        }
    }
}

/// The channels of a layer as they are stored.
#[derive(Clone, Debug, PartialEq, Eq)]
pub struct LayerRawData {
    pub color_mode: ColorMode,
    pub bits_per_channel: u16,
    pub channels: Vec<LayerRawDataChannel>,
    pub large: bool,
}

/// The mathematical view of [`LayerRawData`].
#[verifier::ext_equal]
pub struct RawDataView {
    pub color_mode: ColorMode,
    pub bits_per_channel: u16,
    pub channels: Seq<RawChannelView>,
    pub large: bool,
}

impl DeepView for LayerRawData {
    type V = RawDataView;

    open spec fn deep_view(&self) -> RawDataView {
        RawDataView {
            color_mode: self.color_mode,
            bits_per_channel: self.bits_per_channel,
            channels: self.channels.deep_view(),
            large: self.large,
        }
    }
}

/// A layer, or a group where it has children.
#[derive(Debug, PartialEq, Eq)]
pub struct Layer {
    pub top: Option<i32>,
    pub left: Option<i32>,
    pub bottom: Option<i32>,
    pub right: Option<i32>,
    pub blend_mode: Option<BlendMode>,
    pub opacity: Option<u8>,
    pub transparency_protected: Option<bool>,
    pub effects_open: Option<bool>,
    pub hidden: Option<bool>,
    pub clipping: Option<bool>,
    pub opened: Option<bool>,
    pub canvas: Option<PixelData>,
    pub image_data: Option<PixelData>,
    pub raw_data: Option<LayerRawData>,
    pub children: Option<Vec<Layer>>,
    pub additional_info: LayerAdditionalInfo,
}

/// The mathematical view of [`Layer`].
#[verifier::ext_equal]
pub struct LayerView {
    pub top: Option<i32>,
    pub left: Option<i32>,
    pub bottom: Option<i32>,
    pub right: Option<i32>,
    pub blend_mode: Option<BlendMode>,
    pub opacity: Option<u8>,
    pub transparency_protected: Option<bool>,
    pub effects_open: Option<bool>,
    pub hidden: Option<bool>,
    pub clipping: Option<bool>,
    pub opened: Option<bool>,
    pub canvas: Option<PixelDataView>,
    pub image_data: Option<PixelDataView>,
    pub raw_data: Option<RawDataView>,
    pub children: Option<Seq<LayerView>>,
    pub additional_info: AdditionalInfoView,
}

/// The view of a layer.
pub open spec fn layer_view(l: Layer) -> LayerView
    decreases l,
{
    LayerView {
        top: l.top,
        left: l.left,
        bottom: l.bottom,
        right: l.right,
        blend_mode: l.blend_mode,
        opacity: l.opacity,
        transparency_protected: l.transparency_protected,
        effects_open: l.effects_open,
        hidden: l.hidden,
        clipping: l.clipping,
        opened: l.opened,
        canvas: l.canvas.deep_view(),
        image_data: l.image_data.deep_view(),
        raw_data: l.raw_data.deep_view(),
        children: match l.children {
            None => None,
            Some(children) => Some(
                Seq::new(
                    children@.len(),
                    |i: int|
                        if 0 <= i < children@.len() {
                            layer_view(children@[i])
                        } else {
                            arbitrary()
                        },
                ),
            ),
        },
        additional_info: l.additional_info.deep_view(),
    }
}

impl DeepView for Layer {
    type V = LayerView;

    open spec fn deep_view(&self) -> LayerView {
        layer_view(*self)
    }
}

/// A layer about which nothing is said.
pub open spec fn empty_layer() -> LayerView {
    LayerView {
        top: None,
        left: None,
        bottom: None,
        right: None,
        blend_mode: None,
        opacity: None,
        transparency_protected: None,
        effects_open: None,
        hidden: None,
        clipping: None,
        opened: None,
        canvas: None,
        image_data: None,
        raw_data: None,
        children: None,
        additional_info: empty_info(),
    }
}

impl Default for Layer {
    fn default() -> (layer: Layer)
        ensures
            layer.deep_view() == empty_layer(),
    {
        Layer {
            top: None,
            left: None,
            bottom: None,
            right: None,
            blend_mode: None,
            opacity: None,
            transparency_protected: None,
            effects_open: None,
            hidden: None,
            clipping: None,
            opened: None,
            canvas: None,
            image_data: None,
            raw_data: None,
            children: None,
            additional_info: LayerAdditionalInfo::default(),
        }
    }
}

/// The global layer mask: the colour it is shown in, and how.
#[derive(Clone, Copy, Debug, PartialEq, Eq, Structural)]
pub struct GlobalLayerMaskInfo {
    pub overlay_color_space: u16,
    pub color_space1: u16,
    pub color_space2: u16,
    pub color_space3: u16,
    pub color_space4: u16,
    pub opacity: u16,
    pub kind: u8,
}

impl DeepView for GlobalLayerMaskInfo {
    type V = GlobalLayerMaskInfo;

    open spec fn deep_view(&self) -> GlobalLayerMaskInfo {
        *self
    }
}

/// The rectangle of a pattern.
#[derive(Clone, Copy, Debug, PartialEq, Eq, Structural)]
pub struct PatternBounds {
    pub x: u32,
    pub y: u32,
    pub w: u32,
    pub h: u32,
}

/// A pattern: RGBA pixels with a name, an identifier and an origin.
#[derive(Clone, Debug, PartialEq, Eq)]
pub struct PatternInfo {
    pub name: String,
    pub id: String,
    pub x: i16,
    pub y: i16,
    pub bounds: PatternBounds,
    pub data: Vec<u8>,
}

/// The mathematical view of [`PatternInfo`].
#[verifier::ext_equal]
pub struct PatternView {
    pub name: Seq<char>,
    pub id: Seq<char>,
    pub x: i16,
    pub y: i16,
    pub bounds: PatternBounds,
    pub data: Seq<u8>,
}

impl DeepView for PatternInfo {
    type V = PatternView;

    open spec fn deep_view(&self) -> PatternView {
        PatternView {
            name: self.name@,
            id: self.id@,
            x: self.x,
            y: self.y,
            bounds: self.bounds,
            data: self.data@,
        }
    }
}

impl PatternView {
    /// The pixels of the pattern.
    pub open spec fn image(self) -> PixelDataView {
        PixelDataView { width: self.bounds.w, height: self.bounds.h, data: self.data }
    }
}

/// The composite image of a document as it is stored, and what the document said
/// of it before: whether it is in the large document format, and whether the image
/// has a transparency channel.
#[derive(Clone, Debug, PartialEq, Eq)]
pub struct CompositeRawData {
    pub large: bool,
    pub global_alpha: bool,
    pub data: Vec<u8>,
}

/// The mathematical view of [`CompositeRawData`].
#[verifier::ext_equal]
pub struct CompositeRawView {
    pub large: bool,
    pub global_alpha: bool,
    pub data: Seq<u8>,
}

impl DeepView for CompositeRawData {
    type V = CompositeRawView;

    open spec fn deep_view(&self) -> CompositeRawView {
        CompositeRawView {
            large: self.large,
            global_alpha: self.global_alpha,
            data: self.data@,
        }
    }
}

/// A document.
#[derive(Debug, PartialEq, Eq)]
pub struct Psd {
    pub width: u32,
    pub height: u32,
    pub channels: Option<u16>,
    pub bits_per_channel: Option<u16>,
    pub color_mode: Option<ColorMode>,
    pub palette: Option<Vec<PaletteColor>>,
    pub children: Option<Vec<Layer>>,
    pub image_data: Option<PixelData>,
    pub canvas: Option<PixelData>,
    /// The composite image where it is kept as it is stored.
    pub raw_composite_data: Option<CompositeRawData>,
    pub image_resources: Option<Vec<ResourceBlock>>,
    pub global_layer_mask_info: Option<GlobalLayerMaskInfo>,
    pub additional_info: LayerAdditionalInfo,
}

/// The mathematical view of [`Psd`].
#[verifier::ext_equal]
pub struct PsdView {
    pub width: u32,
    pub height: u32,
    pub channels: Option<u16>,
    pub bits_per_channel: Option<u16>,
    pub color_mode: Option<ColorMode>,
    pub palette: Option<Seq<PaletteColor>>,
    pub children: Option<Seq<LayerView>>,
    pub image_data: Option<PixelDataView>,
    pub canvas: Option<PixelDataView>,
    pub raw_composite_data: Option<CompositeRawView>,
    pub image_resources: Option<Seq<ResourceBlockView>>,
    pub global_layer_mask_info: Option<GlobalLayerMaskInfo>,
    pub additional_info: AdditionalInfoView,
}

impl DeepView for Psd {
    type V = PsdView;

    open spec fn deep_view(&self) -> PsdView {
        PsdView {
            width: self.width,
            height: self.height,
            channels: self.channels,
            bits_per_channel: self.bits_per_channel,
            color_mode: self.color_mode,
            palette: match self.palette {
                Some(palette) => Some(palette@),
                None => None,
            },
            children: self.children.deep_view(),
            image_data: self.image_data.deep_view(),
            canvas: self.canvas.deep_view(),
            raw_composite_data: self.raw_composite_data.deep_view(),
            image_resources: self.image_resources.deep_view(),
            global_layer_mask_info: self.global_layer_mask_info,
            additional_info: self.additional_info.deep_view(),
        }
    }
}

/// A document about which nothing is said.
pub open spec fn empty_psd() -> PsdView {
    PsdView {
        width: 0,
        height: 0,
        channels: None,
        bits_per_channel: None,
        color_mode: None,
        palette: None,
        children: None,
        image_data: None,
        canvas: None,
        raw_composite_data: None,
        image_resources: None,
        global_layer_mask_info: None,
        additional_info: empty_info(),
    }
}

impl Default for Psd {
    fn default() -> (psd: Psd)
        ensures
            psd.deep_view() == empty_psd(),
    {
        Psd {
            width: 0,
            height: 0,
            channels: None,
            bits_per_channel: None,
            color_mode: None,
            palette: None,
            children: None,
            image_data: None,
            canvas: None,
            raw_composite_data: None,
            image_resources: None,
            global_layer_mask_info: None,
            additional_info: LayerAdditionalInfo::default(),
        }
    }
}

/// The children in the view of a layer are the views of its children.
pub proof fn lemma_layer_children(l: Layer)
    ensures
        layer_view(l).children == l.children.deep_view(),
{
    match l.children {
        None => {},
        Some(children) => {
            assert(layer_view(l).children->Some_0 =~= children.deep_view());
        },
    }
}

fn duplicate_pixels(pixels: &Option<PixelData>) -> (copy: Option<PixelData>)
    ensures
        copy.deep_view() == pixels.deep_view(),
{
    match pixels {
        Some(p) => Some(p.duplicate()),
        None => None,
    }
}

impl LayerMaskData {
    /// A copy of the mask.
    pub fn duplicate(&self) -> (copy: LayerMaskData)
        ensures
            copy.deep_view() == self.deep_view(),
    {
        LayerMaskData {
            top: self.top,
            left: self.left,
            bottom: self.bottom,
            right: self.right,
            default_color: self.default_color,
            disabled: self.disabled,
            position_relative_to_layer: self.position_relative_to_layer,
            from_vector_data: self.from_vector_data,
            user_mask_density: self.user_mask_density,
            user_mask_feather: self.user_mask_feather,
            vector_mask_density: self.vector_mask_density,
            vector_mask_feather: self.vector_mask_feather,
            canvas: duplicate_pixels(&self.canvas),
            image_data: duplicate_pixels(&self.image_data),
        }
    }
}

fn duplicate_mask(mask: &Option<LayerMaskData>) -> (copy: Option<LayerMaskData>)
    ensures
        copy.deep_view() == mask.deep_view(),
{
    match mask {
        Some(m) => Some(m.duplicate()),
        None => None,
    }
}

impl BlendingRanges {
    /// A copy of the ranges.
    pub fn duplicate(&self) -> (copy: BlendingRanges)
        ensures
            copy.deep_view() == self.deep_view(),
    {
        BlendingRanges {
            composite_gray_blend_source: self.composite_gray_blend_source,
            composite_graph_blend_destination_range: self.composite_graph_blend_destination_range,
            ranges: vstd::slice::slice_to_vec(self.ranges.as_slice()),
        }
    }
}

impl SectionDivider {
    /// A copy of the divider.
    pub fn duplicate(&self) -> (copy: SectionDivider)
        ensures
            copy.deep_view() == self.deep_view(),
    {
        SectionDivider {
            divider_type: self.divider_type,
            key: match &self.key {
                Some(key) => Some(crate::text::owned_text(key.as_str())),
                None => None,
            },
            sub_type: self.sub_type,
        }
    }
}

fn duplicate_blocks(blocks: &Vec<InfoBlock>) -> (copy: Vec<InfoBlock>)
    ensures
        copy.deep_view() == blocks.deep_view(),
{
    let mut copy: Vec<InfoBlock> = Vec::new();
    let mut i: usize = 0;
    while i < blocks.len()
        invariant
            i <= blocks@.len(),
            copy.deep_view() == blocks.deep_view().take(i as int),
        decreases blocks@.len() - i,
    {
        let ghost before = copy.deep_view();
        copy.push(InfoBlock { key: blocks[i].key, data: copy_bytes(&blocks[i].data) });
        i += 1;
        assert(copy.deep_view() =~= before.push(blocks@[i - 1].deep_view()));
        assert(copy.deep_view() =~= blocks.deep_view().take(i as int));
    }
    assert(copy.deep_view() =~= blocks.deep_view());
    copy
}

impl LayerAdditionalInfo {
    /// A copy of what is known.
    pub fn duplicate(&self) -> (copy: LayerAdditionalInfo)
        ensures
            copy.deep_view() == self.deep_view(),
    {
        LayerAdditionalInfo {
            name: match &self.name {
                Some(name) => Some(crate::text::owned_text(name.as_str())),
                None => None,
            },
            mask: duplicate_mask(&self.mask),
            real_mask: duplicate_mask(&self.real_mask),
            blending_ranges: match &self.blending_ranges {
                Some(ranges) => Some(ranges.duplicate()),
                None => None,
            },
            section_divider: match &self.section_divider {
                Some(divider) => Some(divider.duplicate()),
                None => None,
            },
            blocks: duplicate_blocks(&self.blocks),
        }
    }
}

impl LayerRawData {
    /// A copy of the channels.
    pub fn duplicate(&self) -> (copy: LayerRawData)
        ensures
            copy.deep_view() == self.deep_view(),
    {
        let mut channels: Vec<LayerRawDataChannel> = Vec::new();
        let mut i: usize = 0;
        while i < self.channels.len()
            invariant
                i <= self.channels@.len(),
                channels.deep_view() == self.channels.deep_view().take(i as int),
            decreases self.channels@.len() - i,
        {
            let ghost before = channels.deep_view();
            let channel: LayerRawDataChannel = LayerRawDataChannel {
                id: self.channels[i].id,
                compression: self.channels[i].compression,
                data: match &self.channels[i].data {
                    Some(data) => Some(copy_bytes(data)),
                    None => None,
                },
            };
            channels.push(channel);
            i += 1;
            assert(channels.deep_view() =~= before.push(self.channels@[i - 1].deep_view()));
            assert(channels.deep_view() =~= self.channels.deep_view().take(i as int));
        }
        assert(channels.deep_view() =~= self.channels.deep_view());
        LayerRawData {
            color_mode: self.color_mode,
            bits_per_channel: self.bits_per_channel,
            channels,
            large: self.large,
        }
    }
}

impl Layer {
    /// A copy of the layer without its children.
    pub fn duplicate_without_children(&self) -> (copy: Layer)
        ensures
            copy.deep_view() == (LayerView { children: None, ..self.deep_view() }),
    {
        Layer {
            top: self.top,
            left: self.left,
            bottom: self.bottom,
            right: self.right,
            blend_mode: self.blend_mode,
            opacity: self.opacity,
            transparency_protected: self.transparency_protected,
            effects_open: self.effects_open,
            hidden: self.hidden,
            clipping: self.clipping,
            opened: self.opened,
            canvas: duplicate_pixels(&self.canvas),
            image_data: duplicate_pixels(&self.image_data),
            raw_data: match &self.raw_data {
                Some(raw) => Some(raw.duplicate()),
                None => None,
            },
            children: None,
            additional_info: self.additional_info.duplicate(),
        }
    }
}

} // verus!
