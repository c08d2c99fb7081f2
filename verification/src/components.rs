//! Identity and spawn-selection data attached to scene layers: layer names,
//! coarse element kinds, and the filter that decides which layers are spawned.
use vstd::prelude::*;
use crate::text::str_eq;

verus! {

/// The display name of a layer.
#[derive(Debug, Clone)]
pub struct AmLayerName(pub String);

impl AmLayerName {
    /// A layer name holding `name`.
    pub fn new(name: &str) -> (r: Self)
        ensures
            r.0@ == name@,
    {
        AmLayerName(String::from_str(name))
    }

    /// The name as text.
    pub fn as_str(&self) -> (r: &str)
        ensures
            r@ == self.0@,
    {
        self.0.as_str()
    }
}

/// The coarse kind of a spawned scene element.
#[derive(Debug, Clone, Copy, PartialEq, Eq, Hash, Structural)]
pub enum AmElementType {
    Shape,
    Text,
    Image,
    Null,
    EmbedScene,
}

/// The name under which an element kind is shown.
pub open spec fn element_type_name(t: AmElementType) -> Seq<char> {
    match t {
        AmElementType::Shape => seq!['S', 'h', 'a', 'p', 'e'],
        AmElementType::Text => seq!['T', 'e', 'x', 't'],
        AmElementType::Image => seq!['I', 'm', 'a', 'g', 'e'],
        AmElementType::Null => seq!['N', 'u', 'l', 'l'],
        AmElementType::EmbedScene => seq!['E', 'm', 'b', 'e', 'd', 'S', 'c', 'e', 'n', 'e'],
    }
}

impl AmElementType {
    /// The kind's name, as it is shown in logs.
    pub fn name(&self) -> (r: String)
        ensures
            r@ == element_type_name(*self),
    {
        match self {
            AmElementType::Shape => {
                let r = String::from_str("Shape");
                proof { reveal_strlit("Shape"); }
                r
            },
            AmElementType::Text => {
                let r = String::from_str("Text");
                proof { reveal_strlit("Text"); }
                r
            },
            AmElementType::Image => {
                let r = String::from_str("Image");
                proof { reveal_strlit("Image"); }
                r
            },
            AmElementType::Null => {
                let r = String::from_str("Null");
                proof { reveal_strlit("Null"); }
                r
            },
            AmElementType::EmbedScene => {
                let r = String::from_str("EmbedScene");
                proof { reveal_strlit("EmbedScene"); }
                r
            },
        }
    }
}

/// Which layers of a scene are spawned, by name.
#[derive(Debug, Clone)]
pub enum LayerFilter {
    /// Every layer is spawned.
    AllLayers,
    /// Only the layers named in the list are spawned.
    AllowList(Vec<String>),
    /// Every layer but those named in the list is spawned.
    BlockList(Vec<String>),
}

impl Default for LayerFilter {
    fn default() -> (r: Self)
        ensures
            r is AllLayers,
    {
        LayerFilter::AllLayers
    }
}

/// Whether some name of the list is `name`.
pub open spec fn names_contain(list: Seq<String>, name: Seq<char>) -> bool {
    exists|i: int| 0 <= i < list.len() && (#[trigger] list[i])@ == name
}

fn list_contains(list: &Vec<String>, name: &str) -> (r: bool)
    ensures
        r == names_contain(list@, name@),
{
    let mut i: usize = 0;
    while i < list.len()
        invariant
            i <= list@.len(),
            forall|k: int| 0 <= k < i ==> (#[trigger] list@[k])@ != name@,
        decreases list.len() - i,
    {
        if str_eq(list[i].as_str(), name) {
            return true;
        }
        i = i + 1;
    }
    false
}

impl LayerFilter {
    /// Whether the layer named `layer_name` passes the filter.
    pub fn should_spawn(&self, layer_name: &str) -> (r: bool)
        ensures
            r == match self {
                LayerFilter::AllLayers => true,
                LayerFilter::AllowList(list) => names_contain(list@, layer_name@),
                LayerFilter::BlockList(list) => !names_contain(list@, layer_name@),
            },
    {
        match self {
            LayerFilter::AllLayers => true,
            LayerFilter::AllowList(list) => list_contains(list, layer_name),
            LayerFilter::BlockList(list) => !list_contains(list, layer_name),
        }
    }
}

/// Whether a shape is drawn from its fill image: only a media fill with an
/// image is (a color fill ignores a stale image reference).
pub open spec fn fills_from_image(fill_type: Seq<char>, fill_image: Seq<char>) -> bool {
    fill_type == "media"@ && fill_image.len() > 0
}

/// How a sprite shape is filled: the image it shows, whether that image is
/// media, and whether it carries the shape's fill color. A media fill with an
/// image shows the image and no fill color; any other shape shows no image
/// and keeps its fill color, if it has one.
pub fn sprite_fill(fill_type: &str, fill_image: &str, has_fill_color: bool) -> (r: (String, bool, bool))
    ensures
        fills_from_image(fill_type@, fill_image@) ==> r.0@ == fill_image@ && r.1 && !r.2,
        !fills_from_image(fill_type@, fill_image@) ==> r.0@ == Seq::<char>::empty() && !r.1 && r.2
            == has_fill_color,
{
    if str_eq(fill_type, "media") && !fill_image.is_empty() {
        (String::from_str(fill_image), true, false)
    } else {
        let none = String::new();
        (none, false, has_fill_color)
    }
}

/// A color fill never shows an image, whatever image reference the shape
/// still holds, and keeps its fill color; a media fill with an image shows
/// exactly that image.
pub proof fn law_sprite_fill_modes(fill_image: Seq<char>)
    ensures
        !fills_from_image("color"@, fill_image),
        fill_image.len() > 0 ==> fills_from_image("media"@, fill_image),
        !fills_from_image("media"@, Seq::empty()),
{
    reveal_strlit("color");
    reveal_strlit("media");
    assert("color"@[0] != "media"@[0]);
}

} // verus!
