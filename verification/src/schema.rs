//! The scene model read from an Alight Motion project file: the scene, its
//! media and its layers, as far as the library's logic reads them.
//!
//! Animated transforms, keyframes and other floating-point payloads of a layer
//! are not held here: the decisions the library makes never read them.
use vstd::prelude::*;

verus! {

/// Canvas width and height, in pixels, of a scene whose file gives none.
pub fn default_canvas_size() -> (r: u32)
    ensures
        r == 1280,
{
    1280
}

/// Frames per second of a scene whose file gives none.
pub fn default_fps() -> (r: u32)
    ensures
        r == 60,
{
    60
}

/// Background color (`#AARRGGBB`, opaque black) of a scene whose file gives none.
pub fn default_bgcolor() -> (r: String)
    ensures
        r@ == "#ff000000"@,
{
    String::from_str("#ff000000")
}

/// Root scene node: project metadata, media and layers.
#[derive(Debug)]
pub struct AmScene {
    /// Project title.
    pub title: String,
    /// Canvas width in pixels.
    pub width: u32,
    /// Canvas height in pixels.
    pub height: u32,
    /// Export width in pixels.
    pub export_width: u32,
    /// Export height in pixels.
    pub export_height: u32,
    /// Frames per second.
    pub fps: u32,
    /// Total duration in milliseconds.
    pub total_time: u32,
    /// Background color in `#AARRGGBB` form.
    pub bgcolor: String,
    /// Format version; negative for some builds.
    pub amver: i32,
    /// Time remapping strategy.
    pub retime: String,
    /// Precompose mode.
    pub precompose: String,
    /// Media resources.
    pub media: Vec<AmMedia>,
    /// Layers, bottom first.
    pub layers: Vec<AmLayer>,
}

/// A media resource of the project.
#[derive(Debug, Clone, PartialEq, Eq)]
pub struct AmMedia {
    /// Resource URI (e.g. `amproj:filename.png`).
    pub uri: String,
    /// Physical file name.
    pub filename: String,
    /// MIME type.
    pub media_type: String,
    /// Original width in pixels.
    pub width: u32,
    /// Original height in pixels.
    pub height: u32,
    /// File size in bytes.
    pub size: u32,
    /// SHA1 signature.
    pub sig: String,
}

/// A layer of a scene.
#[derive(Debug)]
pub enum AmLayer {
    /// Visible shape layer.
    Shape(AmShape),
    /// Null object used for grouping.
    Nullobj(AmNullObj),
    /// Embedded sub-scene (pre-composition).
    EmbedScene(AmEmbedScene),
    /// Timeline bookmark (not drawn).
    Bookmark(AmBookmark),
    /// Text layer.
    Text(AmText),
    /// Audio layer.
    Audio(AmAudio),
    /// Camera layer.
    Camera(AmCamera),
    /// Image layer.
    Image(AmImage),
    /// Video layer.
    Video(AmVideo),
}

/// Timeline bookmark.
#[derive(Debug, Clone, PartialEq, Eq)]
pub struct AmBookmark {
    /// Unique identifier.
    pub id: u64,
    /// Bookmark label.
    pub label: String,
    /// Position in milliseconds.
    pub start_time: i32,
    /// End in milliseconds.
    pub end_time: i32,
}

/// Properties common to all layers.
#[derive(Debug, Clone, PartialEq, Eq)]
pub struct AmLayerBase {
    /// Unique identifier.
    pub id: u64,
    /// Layer label.
    pub label: String,
    /// In-point in milliseconds.
    pub start_time: i32,
    /// Out-point in milliseconds.
    pub end_time: i32,
    /// Parent layer id (0 when there is none).
    pub parent: u64,
    /// Alternative out-point.
    pub out_time: Option<i32>,
}

/// Stroke color element.
#[derive(Debug, Clone, PartialEq, Eq)]
pub struct AmStrokeColor {
    /// Color value in `#AARRGGBB` form.
    pub value: String,
}

/// SVG path element of a freeform shape.
#[derive(Debug, Clone, PartialEq, Eq)]
pub struct AmPathElement {
    /// SVG path data (e.g. `M 0 0 L 100 100`).
    pub d: String,
}

/// An effect applied to a layer, identified by its type id.
#[derive(Debug, Clone, PartialEq, Eq)]
pub struct AmEffect {
    /// Effect type id (e.g. `com.alightcreative.effects.transform2`).
    pub id: String,
    /// Whether the effect is applied locally.
    pub locally_applied: bool,
}

/// Shape layer.
#[derive(Debug, Clone)]
pub struct AmShape {
    /// Unique identifier.
    pub id: u64,
    /// Layer label.
    pub label: String,
    /// In-point in milliseconds.
    pub start_time: i32,
    /// Out-point in milliseconds.
    pub end_time: i32,
    /// Parent layer id.
    pub parent: u64,
    /// Fill type (`color`, `media`, `gradient`).
    pub fill_type: String,
    /// Fill image URI.
    pub fill_image: String,
    /// Shape type (e.g. `.rect`).
    pub shape_type: String,
    /// Blending mode name.
    pub blending: String,
    /// Hidden in the editor.
    pub hidden: bool,
    /// Effects applied to the shape.
    pub effects: Vec<AmEffect>,
}

/// Text layer.
#[derive(Debug, Clone)]
pub struct AmText {
    /// Unique identifier.
    pub id: u64,
    /// Layer label.
    pub label: String,
    /// In-point in milliseconds.
    pub start_time: i32,
    /// Out-point in milliseconds.
    pub end_time: i32,
    /// Parent layer id.
    pub parent: u64,
    /// Text content.
    pub content: String,
    /// Font specification.
    pub font: String,
    /// Alignment.
    pub align: String,
    /// Effects applied to the text.
    pub effects: Vec<AmEffect>,
}

/// Audio layer.
#[derive(Debug, Clone)]
pub struct AmAudio {
    /// Unique identifier.
    pub id: u64,
    /// Layer label.
    pub label: String,
    /// In-point in milliseconds.
    pub start_time: i32,
    /// Out-point in milliseconds.
    pub end_time: i32,
    /// Parent layer id.
    pub parent: u64,
    /// Audio source URI.
    pub source: String,
}

/// Camera layer.
#[derive(Debug, Clone)]
pub struct AmCamera {
    /// Unique identifier.
    pub id: u64,
    /// Layer label.
    pub label: String,
    /// In-point in milliseconds.
    pub start_time: i32,
    /// Out-point in milliseconds.
    pub end_time: i32,
    /// Parent layer id.
    pub parent: u64,
}

/// Image layer.
#[derive(Debug, Clone)]
pub struct AmImage {
    /// Unique identifier.
    pub id: u64,
    /// Layer label.
    pub label: String,
    /// In-point in milliseconds.
    pub start_time: i32,
    /// Out-point in milliseconds.
    pub end_time: i32,
    /// Parent layer id.
    pub parent: u64,
    /// Fill image URI.
    pub fill_image: String,
    /// Effects applied to the image.
    pub effects: Vec<AmEffect>,
}

/// Video layer.
#[derive(Debug, Clone)]
pub struct AmVideo {
    /// Unique identifier.
    pub id: u64,
    /// Layer label.
    pub label: String,
    /// In-point in milliseconds.
    pub start_time: i32,
    /// Out-point in milliseconds.
    pub end_time: i32,
    /// Parent layer id.
    pub parent: u64,
    /// Video source URI.
    pub source: String,
    /// Effects applied to the video.
    pub effects: Vec<AmEffect>,
}

/// Null object (invisible parent controller).
#[derive(Debug, Clone)]
pub struct AmNullObj {
    /// Unique identifier.
    pub id: u64,
    /// Layer label.
    pub label: String,
    /// In-point in milliseconds.
    pub start_time: i32,
    /// Out-point in milliseconds.
    pub end_time: i32,
    /// Parent layer id.
    pub parent: u64,
    /// Object type (e.g. `perspective`).
    pub obj_type: String,
    /// Effects applied to the object.
    pub effects: Vec<AmEffect>,
}

/// Embedded sub-scene.
#[derive(Debug)]
pub struct AmEmbedScene {
    /// Unique identifier.
    pub id: u64,
    /// Layer label.
    pub label: String,
    /// In-point in milliseconds.
    pub start_time: i32,
    /// Out-point in milliseconds.
    pub end_time: i32,
    /// Parent layer id.
    pub parent: u64,
    /// Clip start inside the nested scene.
    pub in_time: Option<i32>,
    /// Clip end inside the nested scene.
    pub out_time: Option<i32>,
    /// Effects applied to the embed.
    pub effects: Vec<AmEffect>,
    /// The nested scene.
    pub scene: Box<AmScene>,
}

} // verus!
