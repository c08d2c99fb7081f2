//! Scene validation: which effects and layer kinds of a scene the renderer
//! supports, and how many layers of each kind the scene holds.
//!
//! The registry of known effects is handed in by the caller; an effect whose id
//! is not in it is reported as unsupported, with a short label taken from the
//! end of its id.
use vstd::prelude::*;
use crate::schema::{AmEffect, AmLayer, AmScene};
use crate::text::{after_last_dot, after_last_dot_of};

verus! {

/// How well the renderer supports an effect.
#[derive(Debug, Clone, Copy, PartialEq, Eq, Structural)]
pub enum SupportLevel {
    /// Rendered as authored.
    Full,
    /// Rendered with some limitations.
    Partial,
    /// Not rendered.
    Unsupported,
}

/// An entry of the effect registry.
#[derive(Debug, Clone)]
pub struct EffectDef {
    /// Effect type id.
    pub id: String,
    /// Display name.
    pub display_name_zh: String,
    /// Support level.
    pub support_level: SupportLevel,
}

/// A supported effect used in the scene.
#[derive(Debug, Clone)]
pub struct EffectUsage {
    /// Effect type id.
    pub effect_id: String,
    /// Display name from the registry.
    pub display_name: String,
    /// Number of uses in the scene.
    pub usage_count: u32,
    /// Support level from the registry.
    pub level: SupportLevel,
}

/// A use of an effect that the registry does not know.
#[derive(Debug, Clone)]
pub struct UnsupportedEffect {
    /// Effect type id.
    pub effect_id: String,
    /// Short label: the part of the id after its last `.`.
    pub effect_label: String,
    /// Label of the layer that uses the effect.
    pub layer_label: String,
    /// Id of the layer that uses the effect.
    pub layer_id: u64,
}

/// A layer of a kind that is not rendered.
#[derive(Debug, Clone)]
pub struct UnsupportedLayer {
    /// Layer label.
    pub label: String,
    /// Name of the layer kind.
    pub layer_type: String,
    /// Layer id.
    pub id: u64,
}

/// Layer counts of a scene, nested scenes included.
#[derive(Debug, Clone, Copy, PartialEq, Eq)]
pub struct SceneStats {
    /// All layers.
    pub total_layers: u32,
    /// Shape layers.
    pub shape_count: u32,
    /// Text layers.
    pub text_count: u32,
    /// Image layers.
    pub image_count: u32,
    /// Null objects.
    pub null_count: u32,
    /// Embedded scenes.
    pub embed_count: u32,
    /// Audio layers.
    pub audio_count: u32,
    /// Video layers.
    pub video_count: u32,
    /// Camera layers.
    pub camera_count: u32,
    /// Bookmarks.
    pub bookmark_count: u32,
}

/// The result of validating a scene.
#[derive(Debug, Clone)]
pub struct ValidationReport {
    /// Supported effects in use, in registry order.
    pub supported_effects_used: Vec<EffectUsage>,
    /// Uses of unknown effects, in scene order.
    pub unsupported_effects: Vec<UnsupportedEffect>,
    /// Layers of kinds that are not rendered, in scene order.
    pub unsupported_layers: Vec<UnsupportedLayer>,
    /// Warnings about potential issues.
    pub warnings: Vec<String>,
    /// Layer counts.
    pub stats: SceneStats,
}

impl View for EffectUsage {
    type V = (Seq<char>, Seq<char>, nat, SupportLevel);

    open spec fn view(&self) -> Self::V {
        (self.effect_id@, self.display_name@, self.usage_count as nat, self.level)
    }
}

impl View for UnsupportedEffect {
    type V = (Seq<char>, Seq<char>, Seq<char>, u64);

    open spec fn view(&self) -> Self::V {
        (self.effect_id@, self.effect_label@, self.layer_label@, self.layer_id)
    }
}

impl View for UnsupportedLayer {
    type V = (Seq<char>, Seq<char>, u64);

    open spec fn view(&self) -> Self::V {
        (self.label@, self.layer_type@, self.id)
    }
}

/// The kind of a layer.
#[derive(Debug, Clone, Copy, PartialEq, Eq, Structural)]
pub enum LayerKind {
    Shape,
    Nullobj,
    EmbedScene,
    Bookmark,
    Text,
    Audio,
    Camera,
    Image,
    Video,
}

pub open spec fn kind_of(l: AmLayer) -> LayerKind {
    match l {
        AmLayer::Shape(_) => LayerKind::Shape,
        AmLayer::Nullobj(_) => LayerKind::Nullobj,
        AmLayer::EmbedScene(_) => LayerKind::EmbedScene,
        AmLayer::Bookmark(_) => LayerKind::Bookmark,
        AmLayer::Text(_) => LayerKind::Text,
        AmLayer::Audio(_) => LayerKind::Audio,
        AmLayer::Camera(_) => LayerKind::Camera,
        AmLayer::Image(_) => LayerKind::Image,
        AmLayer::Video(_) => LayerKind::Video,
    }
}

pub open spec fn layer_id(l: AmLayer) -> u64 {
    match l {
        AmLayer::Shape(x) => x.id,
        AmLayer::Nullobj(x) => x.id,
        AmLayer::EmbedScene(x) => x.id,
        AmLayer::Bookmark(x) => x.id,
        AmLayer::Text(x) => x.id,
        AmLayer::Audio(x) => x.id,
        AmLayer::Camera(x) => x.id,
        AmLayer::Image(x) => x.id,
        AmLayer::Video(x) => x.id,
    }
}

pub open spec fn layer_label(l: AmLayer) -> Seq<char> {
    match l {
        AmLayer::Shape(x) => x.label@,
        AmLayer::Nullobj(x) => x.label@,
        AmLayer::EmbedScene(x) => x.label@,
        AmLayer::Bookmark(x) => x.label@,
        AmLayer::Text(x) => x.label@,
        AmLayer::Audio(x) => x.label@,
        AmLayer::Camera(x) => x.label@,
        AmLayer::Image(x) => x.label@,
        AmLayer::Video(x) => x.label@,
    }
}

/// The effects a layer carries itself (audio layers, cameras and bookmarks
/// carry none).
pub open spec fn own_effects(l: AmLayer) -> Seq<AmEffect> {
    match l {
        AmLayer::Shape(x) => x.effects@,
        AmLayer::Nullobj(x) => x.effects@,
        AmLayer::Text(x) => x.effects@,
        AmLayer::Image(x) => x.effects@,
        AmLayer::Video(x) => x.effects@,
        AmLayer::EmbedScene(x) => x.effects@,
        _ => Seq::empty(),
    }
}

/// The layers nested under a layer: those of an embedded scene.
pub open spec fn nested_layers(l: AmLayer) -> Seq<AmLayer> {
    match l {
        AmLayer::EmbedScene(e) => e.scene.layers@,
        _ => Seq::empty(),
    }
}

/// All layers of a layer list in depth-first order: each layer, then the
/// layers of the scene it embeds.
pub open spec fn preorder(layers: Seq<AmLayer>) -> Seq<AmLayer>
    decreases layers,
{
    if layers.len() == 0 {
        Seq::empty()
    } else {
        let last = layers.last();
        let inner = match last {
            AmLayer::EmbedScene(e) => preorder(e.scene.layers@),
            _ => Seq::empty(),
        };
        preorder(layers.drop_last()) + seq![last] + inner
    }
}

/// Number of layers of kind `k`.
pub open spec fn count_kind(flat: Seq<AmLayer>, k: LayerKind) -> nat
    decreases flat.len(),
{
    if flat.len() == 0 {
        0
    } else {
        count_kind(flat.drop_last(), k) + if kind_of(flat.last()) == k {
            1nat
        } else {
            0nat
        }
    }
}

/// A use of an effect: effect id, label and id of the layer that uses it.
pub type EffectSite = (Seq<char>, Seq<char>, u64);

pub open spec fn layer_sites(l: AmLayer) -> Seq<EffectSite> {
    own_effects(l).map_values(|e: AmEffect| (e.id@, layer_label(l), layer_id(l)))
}

/// Every use of an effect in a list of layers, in order.
pub open spec fn effect_sites(flat: Seq<AmLayer>) -> Seq<EffectSite>
    decreases flat.len(),
{
    if flat.len() == 0 {
        Seq::empty()
    } else {
        effect_sites(flat.drop_last()) + layer_sites(flat.last())
    }
}

/// Whether the registry holds an effect with this id.
pub open spec fn is_registered(registry: Seq<EffectDef>, id: Seq<char>) -> bool {
    exists|i: int| 0 <= i < registry.len() && (#[trigger] registry[i]).id@ == id
}

/// The report entries for the uses of unknown effects.
pub open spec fn unsupported_entries(sites: Seq<EffectSite>, registry: Seq<EffectDef>) -> Seq<
    (Seq<char>, Seq<char>, Seq<char>, u64),
> {
    sites.filter(|s: EffectSite| !is_registered(registry, s.0)).map_values(
        |s: EffectSite| (s.0, after_last_dot(s.0), s.1, s.2),
    )
}

/// The ids of the uses of known effects.
pub open spec fn registered_ids(sites: Seq<EffectSite>, registry: Seq<EffectDef>) -> Seq<Seq<char>> {
    sites.filter(|s: EffectSite| is_registered(registry, s.0)).map_values(|s: EffectSite| s.0)
}

/// Number of uses of the effect with this id.
pub open spec fn usage_count(sites: Seq<EffectSite>, id: Seq<char>) -> nat
    decreases sites.len(),
{
    if sites.len() == 0 {
        0
    } else {
        usage_count(sites.drop_last(), id) + if sites.last().0 == id {
            1nat
        } else {
            0nat
        }
    }
}

/// Number of times `id` occurs in `ids`.
pub open spec fn count_id(ids: Seq<Seq<char>>, id: Seq<char>) -> nat
    decreases ids.len(),
{
    if ids.len() == 0 {
        0
    } else {
        count_id(ids.drop_last(), id) + if ids.last() == id {
            1nat
        } else {
            0nat
        }
    }
}

/// Name of a layer kind that is not rendered, if the layer is of one.
pub open spec fn unsupported_kind_name(l: AmLayer) -> Option<Seq<char>> {
    match l {
        AmLayer::Audio(_) => Some("Audio (音频)"@),
        AmLayer::Video(_) => Some("Video (视频)"@),
        AmLayer::Camera(_) => Some("Camera (相机)"@),
        _ => None,
    }
}

/// The report entries for the layers of kinds that are not rendered.
pub open spec fn unsupported_layer_entries(flat: Seq<AmLayer>) -> Seq<(Seq<char>, Seq<char>, u64)> {
    flat.filter(|l: AmLayer| unsupported_kind_name(l) is Some).map_values(
        |l: AmLayer| (layer_label(l), unsupported_kind_name(l)->0, layer_id(l)),
    )
}

/// The report entries for the known effects in use, in registry order.
pub open spec fn supported_usages(registry: Seq<EffectDef>, sites: Seq<EffectSite>) -> Seq<
    (Seq<char>, Seq<char>, nat, SupportLevel),
> {
    registry.filter(|d: EffectDef| usage_count(sites, d.id@) > 0).map_values(
        |d: EffectDef| (d.id@, d.display_name_zh@, usage_count(sites, d.id@), d.support_level),
    )
}

/// `after` counts, on top of `before`, the layers of `flat`.
pub open spec fn stats_added(before: SceneStats, after: SceneStats, flat: Seq<AmLayer>) -> bool {
    &&& after.total_layers == before.total_layers + flat.len()
    &&& after.shape_count == before.shape_count + count_kind(flat, LayerKind::Shape)
    &&& after.text_count == before.text_count + count_kind(flat, LayerKind::Text)
    &&& after.image_count == before.image_count + count_kind(flat, LayerKind::Image)
    &&& after.null_count == before.null_count + count_kind(flat, LayerKind::Nullobj)
    &&& after.embed_count == before.embed_count + count_kind(flat, LayerKind::EmbedScene)
    &&& after.audio_count == before.audio_count + count_kind(flat, LayerKind::Audio)
    &&& after.video_count == before.video_count + count_kind(flat, LayerKind::Video)
    &&& after.camera_count == before.camera_count + count_kind(flat, LayerKind::Camera)
    &&& after.bookmark_count == before.bookmark_count + count_kind(flat, LayerKind::Bookmark)
}

/// No per-kind count exceeds the total.
pub open spec fn stats_bounded(s: SceneStats) -> bool {
    &&& s.shape_count <= s.total_layers
    &&& s.text_count <= s.total_layers
    &&& s.image_count <= s.total_layers
    &&& s.null_count <= s.total_layers
    &&& s.embed_count <= s.total_layers
    &&& s.audio_count <= s.total_layers
    &&& s.video_count <= s.total_layers
    &&& s.camera_count <= s.total_layers
    &&& s.bookmark_count <= s.total_layers
}

pub open spec fn zero_stats() -> SceneStats {
    SceneStats {
        total_layers: 0,
        shape_count: 0,
        text_count: 0,
        image_count: 0,
        null_count: 0,
        embed_count: 0,
        audio_count: 0,
        video_count: 0,
        camera_count: 0,
        bookmark_count: 0,
    }
}

// ---------------------------------------------------------------------------
// Lemmas on the model

proof fn lemma_preorder_prefix(s: Seq<AmLayer>, i: int)
    requires
        0 <= i < s.len(),
    ensures
        preorder(s.take(i + 1)) == preorder(s.take(i)) + seq![s[i]] + preorder(nested_layers(s[i])),
        preorder(s.take(i + 1)).len() <= preorder(s).len(),
    decreases s.len(),
{
    assert(s.take(i + 1).drop_last() =~= s.take(i));
    if i + 1 < s.len() {
        lemma_preorder_prefix(s.drop_last(), i);
        assert(s.drop_last().take(i + 1) =~= s.take(i + 1));
    } else {
        assert(s.take(i + 1) =~= s);
    }
    match s[i] {
        AmLayer::EmbedScene(e) => {},
        _ => {
            assert(preorder(Seq::<AmLayer>::empty()) =~= Seq::<AmLayer>::empty());
        },
    }
}

proof fn lemma_count_kind_add(a: Seq<AmLayer>, b: Seq<AmLayer>, k: LayerKind)
    ensures
        count_kind(a + b, k) == count_kind(a, k) + count_kind(b, k),
    decreases b.len(),
{
    if b.len() == 0 {
        assert(a + b =~= a);
    } else {
        lemma_count_kind_add(a, b.drop_last(), k);
        assert((a + b).drop_last() =~= a + b.drop_last());
    }
}

proof fn lemma_count_kind_le(a: Seq<AmLayer>, k: LayerKind)
    ensures
        count_kind(a, k) <= a.len(),
    decreases a.len(),
{
    if a.len() > 0 {
        lemma_count_kind_le(a.drop_last(), k);
    }
}

proof fn lemma_effect_sites_add(a: Seq<AmLayer>, b: Seq<AmLayer>)
    ensures
        effect_sites(a + b) == effect_sites(a) + effect_sites(b),
    decreases b.len(),
{
    if b.len() == 0 {
        assert(a + b =~= a);
        assert(effect_sites(a) + effect_sites(b) =~= effect_sites(a));
    } else {
        lemma_effect_sites_add(a, b.drop_last());
        assert((a + b).drop_last() =~= a + b.drop_last());
        assert((a + b).last() == b.last());
        assert(effect_sites(a + b) =~= effect_sites(a) + effect_sites(b));
    }
}

proof fn lemma_map_values_add<A, B>(a: Seq<A>, b: Seq<A>, f: spec_fn(A) -> B)
    ensures
        (a + b).map_values(f) == a.map_values(f) + b.map_values(f),
{
    assert((a + b).map_values(f) =~= a.map_values(f) + b.map_values(f));
}

proof fn lemma_filter_map_add<A, B>(a: Seq<A>, b: Seq<A>, p: spec_fn(A) -> bool, f: spec_fn(A) -> B)
    ensures
        (a + b).filter(p).map_values(f) == a.filter(p).map_values(f) + b.filter(p).map_values(f),
{
    broadcast use Seq::filter_distributes_over_add;
    lemma_map_values_add(a.filter(p), b.filter(p), f);
}

proof fn lemma_unsupported_entries_push(
    sites: Seq<EffectSite>,
    x: EffectSite,
    registry: Seq<EffectDef>,
)
    ensures
        unsupported_entries(sites.push(x), registry) == if is_registered(registry, x.0) {
            unsupported_entries(sites, registry)
        } else {
            unsupported_entries(sites, registry).push((x.0, after_last_dot(x.0), x.1, x.2))
        },
{
    broadcast use Seq::lemma_filter_push, Seq::lemma_push_map_commute;
    let p = |s: EffectSite| !is_registered(registry, s.0);
    let f = |s: EffectSite| (s.0, after_last_dot(s.0), s.1, s.2);
    sites.lemma_filter_push(x, p);
    if p(x) {
        sites.filter(p).lemma_push_map_commute(f, x);
    }
}

proof fn lemma_registered_ids_push(sites: Seq<EffectSite>, x: EffectSite, registry: Seq<EffectDef>)
    ensures
        registered_ids(sites.push(x), registry) == if is_registered(registry, x.0) {
            registered_ids(sites, registry).push(x.0)
        } else {
            registered_ids(sites, registry)
        },
{
    broadcast use Seq::lemma_filter_push, Seq::lemma_push_map_commute;
    let p = |s: EffectSite| is_registered(registry, s.0);
    let f = |s: EffectSite| s.0;
    sites.lemma_filter_push(x, p);
    if p(x) {
        sites.filter(p).lemma_push_map_commute(f, x);
    }
}

proof fn lemma_unsupported_layer_entries_push(flat: Seq<AmLayer>, l: AmLayer)
    ensures
        unsupported_layer_entries(flat.push(l)) == if unsupported_kind_name(l) is Some {
            unsupported_layer_entries(flat).push(
                (layer_label(l), unsupported_kind_name(l)->0, layer_id(l)),
            )
        } else {
            unsupported_layer_entries(flat)
        },
{
    broadcast use Seq::lemma_filter_push, Seq::lemma_push_map_commute;
    let p = |l: AmLayer| unsupported_kind_name(l) is Some;
    let f = |l: AmLayer| (layer_label(l), unsupported_kind_name(l)->0, layer_id(l));
    flat.lemma_filter_push(l, p);
    if p(l) {
        flat.filter(p).lemma_push_map_commute(f, l);
    }
}

proof fn lemma_usage_count_registered(
    sites: Seq<EffectSite>,
    registry: Seq<EffectDef>,
    id: Seq<char>,
)
    requires
        is_registered(registry, id),
    ensures
        usage_count(sites, id) == count_id(registered_ids(sites, registry), id),
    decreases sites.len(),
{
    if sites.len() > 0 {
        let x = sites.last();
        lemma_usage_count_registered(sites.drop_last(), registry, id);
        assert(sites.drop_last().push(x) =~= sites);
        lemma_registered_ids_push(sites.drop_last(), x, registry);
        let ids0 = registered_ids(sites.drop_last(), registry);
        if is_registered(registry, x.0) {
            assert(ids0.push(x.0).drop_last() =~= ids0);
        }
    } else {
        assert(registered_ids(sites, registry) =~= Seq::<Seq<char>>::empty());
    }
}

proof fn lemma_supported_usages_push(registry: Seq<EffectDef>, d: EffectDef, sites: Seq<EffectSite>)
    ensures
        supported_usages(registry.push(d), sites) == if usage_count(sites, d.id@) > 0 {
            supported_usages(registry, sites).push(
                (d.id@, d.display_name_zh@, usage_count(sites, d.id@), d.support_level),
            )
        } else {
            supported_usages(registry, sites)
        },
{
    broadcast use Seq::lemma_filter_push, Seq::lemma_push_map_commute;
    let p = |d: EffectDef| usage_count(sites, d.id@) > 0;
    let f = |d: EffectDef| (d.id@, d.display_name_zh@, usage_count(sites, d.id@), d.support_level);
    registry.lemma_filter_push(d, p);
    if p(d) {
        registry.filter(p).lemma_push_map_commute(f, d);
    }
}

proof fn lemma_effect_sites_single(l: AmLayer)
    ensures
        effect_sites(seq![l]) == layer_sites(l),
{
    let e = Seq::<AmLayer>::empty();
    assert(seq![l].drop_last() =~= e);
    assert(seq![l].last() == l);
    assert(effect_sites(e) == Seq::<EffectSite>::empty());
    assert(effect_sites(seq![l]) =~= layer_sites(l));
}

proof fn lemma_count_kind_single(l: AmLayer, k: LayerKind)
    ensures
        count_kind(seq![l], k) == if kind_of(l) == k {
            1nat
        } else {
            0nat
        },
{
    let e = Seq::<AmLayer>::empty();
    assert(seq![l].drop_last() =~= e);
    assert(seq![l].last() == l);
    assert(count_kind(e, k) == 0);
}

proof fn lemma_count_id_le_filter(sites: Seq<EffectSite>, registry: Seq<EffectDef>, id: Seq<char>)
    ensures
        count_id(registered_ids(sites, registry), id) <= sites.len(),
    decreases sites.len(),
{
    if sites.len() > 0 {
        let x = sites.last();
        lemma_count_id_le_filter(sites.drop_last(), registry, id);
        assert(sites.drop_last().push(x) =~= sites);
        lemma_registered_ids_push(sites.drop_last(), x, registry);
        let ids0 = registered_ids(sites.drop_last(), registry);
        if is_registered(registry, x.0) {
            assert(ids0.push(x.0).drop_last() =~= ids0);
        }
    } else {
        assert(registered_ids(sites, registry) =~= Seq::<Seq<char>>::empty());
    }
}


// ---------------------------------------------------------------------------
// Validation

impl Default for SceneStats {
    fn default() -> (r: Self)
        ensures
            r == zero_stats(),
    {
        SceneStats {
            total_layers: 0,
            shape_count: 0,
            text_count: 0,
            image_count: 0,
            null_count: 0,
            embed_count: 0,
            audio_count: 0,
            video_count: 0,
            camera_count: 0,
            bookmark_count: 0,
        }
    }
}

impl Default for ValidationReport {
    fn default() -> (r: Self)
        ensures
            r.stats == zero_stats(),
            r.supported_effects_used@.len() == 0,
            r.unsupported_effects@.len() == 0,
            r.unsupported_layers@.len() == 0,
            r.warnings@.len() == 0,
    {
        ValidationReport {
            supported_effects_used: Vec::new(),
            unsupported_effects: Vec::new(),
            unsupported_layers: Vec::new(),
            warnings: Vec::new(),
            stats: SceneStats::default(),
        }
    }
}

pub open spec fn view_unsupported_effects(v: Seq<UnsupportedEffect>) -> Seq<
    (Seq<char>, Seq<char>, Seq<char>, u64),
> {
    v.map_values(|u: UnsupportedEffect| u@)
}

pub open spec fn view_unsupported_layers(v: Seq<UnsupportedLayer>) -> Seq<(Seq<char>, Seq<char>, u64)> {
    v.map_values(|u: UnsupportedLayer| u@)
}

pub open spec fn view_usages(v: Seq<EffectUsage>) -> Seq<(Seq<char>, Seq<char>, nat, SupportLevel)> {
    v.map_values(|u: EffectUsage| u@)
}

pub open spec fn view_strings(v: Seq<String>) -> Seq<Seq<char>> {
    v.map_values(|s: String| s@)
}

/// Whether the registry holds an effect with the id `id`.
fn find_registered(registry: &[EffectDef], id: &String) -> (r: bool)
    ensures
        r == is_registered(registry@, id@),
{
    let mut j: usize = 0;
    while j < registry.len()
        invariant
            j <= registry@.len(),
            forall|k: int| 0 <= k < j ==> (#[trigger] registry@[k]).id@ != id@,
        decreases registry.len() - j,
    {
        if registry[j].id == *id {
            return true;
        }
        j = j + 1;
    }
    false
}

/// Number of strings of `used` equal to `id`.
fn count_equal(used: &Vec<String>, id: &String) -> (r: u32)
    requires
        count_id(view_strings(used@), id@) <= u32::MAX,
    ensures
        r == count_id(view_strings(used@), id@),
{
    let mut n: u32 = 0;
    let mut k: usize = 0;
    while k < used.len()
        invariant
            k <= used@.len(),
            n == count_id(view_strings(used@.take(k as int)), id@),
            count_id(view_strings(used@), id@) <= u32::MAX,
        decreases used.len() - k,
    {
        proof {
            assert(view_strings(used@.take(k + 1)).drop_last() =~= view_strings(used@.take(k as int)));
            lemma_count_id_prefix(view_strings(used@), id@, k + 1);
            assert(view_strings(used@.take(k + 1)) =~= view_strings(used@).take(k + 1));
        }
        if used[k] == *id {
            n = n + 1;
        }
        k = k + 1;
    }
    assert(used@.take(used@.len() as int) =~= used@);
    n
}

proof fn lemma_count_id_prefix(ids: Seq<Seq<char>>, id: Seq<char>, i: int)
    requires
        0 <= i <= ids.len(),
    ensures
        count_id(ids.take(i), id) <= count_id(ids, id),
    decreases ids.len(),
{
    if i < ids.len() {
        assert(ids.drop_last().take(i) =~= ids.take(i));
        lemma_count_id_prefix(ids.drop_last(), id, i);
    } else {
        assert(ids.take(i) =~= ids);
    }
}

impl ValidationReport {
    /// Validates a scene against an effect registry.
    ///
    /// Every layer, nested ones included, is counted by kind; every use of an
    /// effect not in the registry, and every audio, video or camera layer, gets an entry;
    /// each registered effect in use gets one entry with its number of uses.
    pub fn validate(scene: &AmScene, registry: &[EffectDef]) -> (report: Self)
        requires
            preorder(scene.layers@).len() <= u32::MAX,
            effect_sites(preorder(scene.layers@)).len() <= u32::MAX,
        ensures
            stats_added(zero_stats(), report.stats, preorder(scene.layers@)),
            view_unsupported_effects(report.unsupported_effects@) == unsupported_entries(
                effect_sites(preorder(scene.layers@)),
                registry@,
            ),
            view_unsupported_layers(report.unsupported_layers@) == unsupported_layer_entries(
                preorder(scene.layers@),
            ),
            view_usages(report.supported_effects_used@) == supported_usages(
                registry@,
                effect_sites(preorder(scene.layers@)),
            ),
            report.warnings@.len() == 0,
    {
        let mut report = Self::default();
        let mut used: Vec<String> = Vec::new();
        proof {
            assert(view_unsupported_effects(report.unsupported_effects@) =~= Seq::empty());
            assert(view_unsupported_layers(report.unsupported_layers@) =~= Seq::empty());
            assert(view_strings(used@) =~= Seq::empty());
        }
        report.validate_layers_recursive(&scene.layers, registry, &mut used);
        let ghost flat = preorder(scene.layers@);
        let ghost sites = effect_sites(flat);
        proof {
            assert(view_unsupported_effects(report.unsupported_effects@) =~= unsupported_entries(
                sites,
                registry@,
            ));
            assert(view_unsupported_layers(report.unsupported_layers@) =~= unsupported_layer_entries(
                flat,
            ));
            assert(view_strings(used@) =~= registered_ids(sites, registry@));
        }
        let mut supported: Vec<EffectUsage> = Vec::new();
        let mut j: usize = 0;
        while j < registry.len()
            invariant
                j <= registry@.len(),
                view_strings(used@) == registered_ids(sites, registry@),
                sites.len() <= u32::MAX,
                view_usages(supported@) == supported_usages(registry@.take(j as int), sites),
            decreases registry.len() - j,
        {
            let def = &registry[j];
            proof {
                assert(is_registered(registry@, def.id@)) by {
                    assert(registry@[j as int] == *def);
                }
                lemma_usage_count_registered(sites, registry@, def.id@);
                lemma_count_id_le_filter(sites, registry@, def.id@);
                assert(registry@.take(j + 1) =~= registry@.take(j as int).push(*def));
                lemma_supported_usages_push(registry@.take(j as int), *def, sites);
            }
            let count = count_equal(&used, &def.id);
            if count > 0 {
                let u = EffectUsage {
                    effect_id: def.id.clone(),
                    display_name: def.display_name_zh.clone(),
                    usage_count: count,
                    level: def.support_level,
                };
                let ghost prev = supported@;
                supported.push(u);
                proof {
                    assert(view_usages(supported@) =~= view_usages(prev).push(u@));
                }
            }
            j = j + 1;
        }
        proof {
            assert(registry@.take(registry@.len() as int) =~= registry@);
        }
        report.supported_effects_used = supported;
        report
    }

    /// Counts and checks the layers of `layers` and, depth first, of the scenes
    /// they embed.
    fn validate_layers_recursive(
        &mut self,
        layers: &Vec<AmLayer>,
        registry: &[EffectDef],
        used: &mut Vec<String>,
    )
        requires
            old(self).stats.total_layers + preorder(layers@).len() <= u32::MAX,
            stats_bounded(old(self).stats),
        ensures
            stats_added(old(self).stats, final(self).stats, preorder(layers@)),
            stats_bounded(final(self).stats),
            view_unsupported_effects(final(self).unsupported_effects@) == view_unsupported_effects(
                old(self).unsupported_effects@,
            ) + unsupported_entries(effect_sites(preorder(layers@)), registry@),
            view_unsupported_layers(final(self).unsupported_layers@) == view_unsupported_layers(
                old(self).unsupported_layers@,
            ) + unsupported_layer_entries(preorder(layers@)),
            view_strings(final(used)@) == view_strings(old(used)@) + registered_ids(
                effect_sites(preorder(layers@)),
                registry@,
            ),
            final(self).supported_effects_used == old(self).supported_effects_used,
            final(self).warnings == old(self).warnings,
        decreases layers@,
    {
        let ghost s0 = self.stats;
        let ghost ue0 = view_unsupported_effects(self.unsupported_effects@);
        let ghost ul0 = view_unsupported_layers(self.unsupported_layers@);
        let ghost u0 = view_strings(used@);
        let ghost sup0 = self.supported_effects_used;
        let ghost w0 = self.warnings;
        let mut i: usize = 0;
        proof {
            assert(layers@.take(0) =~= Seq::<AmLayer>::empty());
            assert(preorder(layers@.take(0)) =~= Seq::<AmLayer>::empty());
            assert(effect_sites(Seq::<AmLayer>::empty()) =~= Seq::<EffectSite>::empty());
            assert(unsupported_entries(Seq::<EffectSite>::empty(), registry@) =~= Seq::empty());
            assert(registered_ids(Seq::<EffectSite>::empty(), registry@) =~= Seq::empty());
            assert(unsupported_layer_entries(Seq::<AmLayer>::empty()) =~= Seq::empty());
            assert(ue0 + Seq::empty() =~= ue0);
            assert(ul0 + Seq::empty() =~= ul0);
            assert(u0 + Seq::empty() =~= u0);
        }
        while i < layers.len()
            invariant
                i <= layers@.len(),
                s0.total_layers + preorder(layers@).len() <= u32::MAX,
                stats_bounded(s0),
                stats_bounded(self.stats),
                stats_added(s0, self.stats, preorder(layers@.take(i as int))),
                view_unsupported_effects(self.unsupported_effects@) == ue0 + unsupported_entries(
                    effect_sites(preorder(layers@.take(i as int))),
                    registry@,
                ),
                view_unsupported_layers(self.unsupported_layers@) == ul0 + unsupported_layer_entries(
                    preorder(layers@.take(i as int)),
                ),
                view_strings(used@) == u0 + registered_ids(
                    effect_sites(preorder(layers@.take(i as int))),
                    registry@,
                ),
                self.supported_effects_used == sup0,
                self.warnings == w0,
            decreases layers.len() - i,
        {
            let ghost flat_i = preorder(layers@.take(i as int));
            let ghost l = layers@[i as int];
            let ghost inner = preorder(nested_layers(l));
            proof {
                lemma_preorder_prefix(layers@, i as int);
            }
            let ghost mid_stats = self.stats;
            self.stats.total_layers = self.stats.total_layers + 1;
            match &layers[i] {
                AmLayer::Shape(shape) => {
                    self.stats.shape_count = self.stats.shape_count + 1;
                    self.validate_effects(&shape.effects, shape.label.as_str(), shape.id, registry, used);
                },
                AmLayer::Text(text) => {
                    self.stats.text_count = self.stats.text_count + 1;
                    self.validate_effects(&text.effects, text.label.as_str(), text.id, registry, used);
                },
                AmLayer::Image(image) => {
                    self.stats.image_count = self.stats.image_count + 1;
                    self.validate_effects(&image.effects, image.label.as_str(), image.id, registry, used);
                },
                AmLayer::Nullobj(null) => {
                    self.stats.null_count = self.stats.null_count + 1;
                    self.validate_effects(&null.effects, null.label.as_str(), null.id, registry, used);
                },
                AmLayer::EmbedScene(embed) => {
                    self.stats.embed_count = self.stats.embed_count + 1;
                    self.validate_effects(&embed.effects, embed.label.as_str(), embed.id, registry, used);
                    self.validate_layers_recursive(&embed.scene.layers, registry, used);
                },
                AmLayer::Audio(audio) => {
                    self.stats.audio_count = self.stats.audio_count + 1;
                    let entry = UnsupportedLayer {
                        label: audio.label.clone(),
                        layer_type: String::from_str("Audio (音频)"),
                        id: audio.id,
                    };
                    let ghost prev = self.unsupported_layers@;
                    self.unsupported_layers.push(entry);
                    proof {
                        assert(view_unsupported_layers(self.unsupported_layers@) =~= view_unsupported_layers(
                            prev,
                        ).push(entry@));
                    }
                },
                AmLayer::Video(video) => {
                    self.stats.video_count = self.stats.video_count + 1;
                    self.validate_effects(&video.effects, video.label.as_str(), video.id, registry, used);
                    let entry = UnsupportedLayer {
                        label: video.label.clone(),
                        layer_type: String::from_str("Video (视频)"),
                        id: video.id,
                    };
                    let ghost prev = self.unsupported_layers@;
                    self.unsupported_layers.push(entry);
                    proof {
                        assert(view_unsupported_layers(self.unsupported_layers@) =~= view_unsupported_layers(
                            prev,
                        ).push(entry@));
                    }
                },
                AmLayer::Camera(camera) => {
                    self.stats.camera_count = self.stats.camera_count + 1;
                    let entry = UnsupportedLayer {
                        label: camera.label.clone(),
                        layer_type: String::from_str("Camera (相机)"),
                        id: camera.id,
                    };
                    let ghost prev = self.unsupported_layers@;
                    self.unsupported_layers.push(entry);
                    proof {
                        assert(view_unsupported_layers(self.unsupported_layers@) =~= view_unsupported_layers(
                            prev,
                        ).push(entry@));
                    }
                },
                AmLayer::Bookmark(_) => {
                    self.stats.bookmark_count = self.stats.bookmark_count + 1;
                },
            }
            proof {
                lemma_step(flat_i, l, inner, registry@);
                lemma_count_kind_le(inner, LayerKind::Shape);
                assert(ul0 + unsupported_layer_entries(flat_i + seq![l] + inner) =~= ul0
                    + unsupported_layer_entries(flat_i) + unsupported_layer_entries(seq![l])
                    + unsupported_layer_entries(inner));
                assert(layers@.take(i + 1) =~= layers@.take(i as int).push(l));
            }
            i = i + 1;
        }
        proof {
            assert(layers@.take(layers@.len() as int) =~= layers@);
        }
    }

    /// Records, for each effect of a layer, its use (known effect) or an
    /// unsupported-effect entry (unknown effect).
    fn validate_effects(
        &mut self,
        effects: &Vec<AmEffect>,
        layer_label: &str,
        layer_id: u64,
        registry: &[EffectDef],
        used: &mut Vec<String>,
    )
        ensures
            view_unsupported_effects(final(self).unsupported_effects@) == view_unsupported_effects(
                old(self).unsupported_effects@,
            ) + unsupported_entries(sites_of(effects@, layer_label@, layer_id), registry@),
            view_strings(final(used)@) == view_strings(old(used)@) + registered_ids(
                sites_of(effects@, layer_label@, layer_id),
                registry@,
            ),
            final(self).unsupported_layers == old(self).unsupported_layers,
            final(self).stats == old(self).stats,
            final(self).supported_effects_used == old(self).supported_effects_used,
            final(self).warnings == old(self).warnings,
    {
        let ghost ue0 = view_unsupported_effects(self.unsupported_effects@);
        let ghost u0 = view_strings(used@);
        let ghost sites = sites_of(effects@, layer_label@, layer_id);
        let mut k: usize = 0;
        proof {
            assert(sites.take(0) =~= Seq::<EffectSite>::empty());
            assert(unsupported_entries(Seq::<EffectSite>::empty(), registry@) =~= Seq::empty());
            assert(registered_ids(Seq::<EffectSite>::empty(), registry@) =~= Seq::empty());
            assert(ue0 + Seq::empty() =~= ue0);
            assert(u0 + Seq::empty() =~= u0);
        }
        while k < effects.len()
            invariant
                k <= effects@.len(),
                sites == sites_of(effects@, layer_label@, layer_id),
                view_unsupported_effects(self.unsupported_effects@) == ue0 + unsupported_entries(
                    sites.take(k as int),
                    registry@,
                ),
                view_strings(used@) == u0 + registered_ids(sites.take(k as int), registry@),
                self.unsupported_layers == old(self).unsupported_layers,
                self.stats == old(self).stats,
                self.supported_effects_used == old(self).supported_effects_used,
                self.warnings == old(self).warnings,
            decreases effects.len() - k,
        {
            let effect = &effects[k];
            let ghost x = sites[k as int];
            proof {
                assert(sites.take(k + 1) =~= sites.take(k as int).push(x));
                assert(x == (effect.id@, layer_label@, layer_id));
                lemma_unsupported_entries_push(sites.take(k as int), x, registry@);
                lemma_registered_ids_push(sites.take(k as int), x, registry@);
            }
            if find_registered(registry, &effect.id) {
                let ghost prev = used@;
                used.push(effect.id.clone());
                proof {
                    assert(view_strings(used@) =~= view_strings(prev).push(effect.id@));
                }
            } else {
                let entry = UnsupportedEffect {
                    effect_id: effect.id.clone(),
                    effect_label: after_last_dot_of(effect.id.as_str()),
                    layer_label: String::from_str(layer_label),
                    layer_id,
                };
                let ghost prev = self.unsupported_effects@;
                self.unsupported_effects.push(entry);
                proof {
                    assert(view_unsupported_effects(self.unsupported_effects@) =~= view_unsupported_effects(
                        prev,
                    ).push(entry@));
                }
            }
            k = k + 1;
        }
        proof {
            assert(sites.take(effects@.len() as int) =~= sites);
        }
    }
}

/// The uses of `effects` on a layer with this label and id.
pub open spec fn sites_of(effects: Seq<AmEffect>, label: Seq<char>, id: u64) -> Seq<EffectSite> {
    effects.map_values(|e: AmEffect| (e.id@, label, id))
}

/// One step of the depth-first walk: the model after `flat` and the layer `l`
/// with its nested layers `inner` adds up from its parts.
proof fn lemma_step(flat: Seq<AmLayer>, l: AmLayer, inner: Seq<AmLayer>, registry: Seq<EffectDef>)
    ensures
        effect_sites(flat + seq![l] + inner) == effect_sites(flat) + layer_sites(l) + effect_sites(inner),
        unsupported_entries(effect_sites(flat + seq![l] + inner), registry) == unsupported_entries(
            effect_sites(flat),
            registry,
        ) + unsupported_entries(layer_sites(l), registry) + unsupported_entries(effect_sites(inner), registry),
        registered_ids(effect_sites(flat + seq![l] + inner), registry) == registered_ids(
            effect_sites(flat),
            registry,
        ) + registered_ids(layer_sites(l), registry) + registered_ids(effect_sites(inner), registry),
        unsupported_layer_entries(flat + seq![l] + inner) == unsupported_layer_entries(flat)
            + unsupported_layer_entries(seq![l]) + unsupported_layer_entries(inner),
        forall|k: LayerKind| #[trigger] count_kind(flat + seq![l] + inner, k) == count_kind(flat, k)
            + count_kind(seq![l], k) + count_kind(inner, k),
        forall|k: LayerKind| #[trigger] count_kind(seq![l], k) == if kind_of(l) == k {
            1nat
        } else {
            0nat
        },
        unsupported_layer_entries(seq![l]) == if unsupported_kind_name(l) is Some {
            seq![(layer_label(l), unsupported_kind_name(l)->0, layer_id(l))]
        } else {
            Seq::empty()
        },
{
    assert forall|k: LayerKind| #[trigger] count_kind(seq![l], k) == if kind_of(l) == k {
        1nat
    } else {
        0nat
    } by {
        lemma_count_kind_single(l, k);
    }
    lemma_unsupported_layer_entries_push(Seq::<AmLayer>::empty(), l);
    assert(Seq::<AmLayer>::empty().push(l) =~= seq![l]);
    assert(unsupported_layer_entries(Seq::<AmLayer>::empty()) =~= Seq::empty());
    assert(Seq::<(Seq<char>, Seq<char>, u64)>::empty().push(
        (layer_label(l), unsupported_kind_name(l)->0, layer_id(l)),
    ) =~= seq![(layer_label(l), unsupported_kind_name(l)->0, layer_id(l))]);
    lemma_effect_sites_add(flat + seq![l], inner);
    lemma_effect_sites_add(flat, seq![l]);
    lemma_effect_sites_single(l);
    let a = effect_sites(flat);
    let b = layer_sites(l);
    let c = effect_sites(inner);
    let p1 = |s: EffectSite| !is_registered(registry, s.0);
    let f1 = |s: EffectSite| (s.0, after_last_dot(s.0), s.1, s.2);
    lemma_filter_map_add(a + b, c, p1, f1);
    lemma_filter_map_add(a, b, p1, f1);
    let p2 = |s: EffectSite| is_registered(registry, s.0);
    let f2 = |s: EffectSite| s.0;
    lemma_filter_map_add(a + b, c, p2, f2);
    lemma_filter_map_add(a, b, p2, f2);
    let p3 = |l: AmLayer| unsupported_kind_name(l) is Some;
    let f3 = |l: AmLayer| (layer_label(l), unsupported_kind_name(l)->0, layer_id(l));
    lemma_filter_map_add(flat + seq![l], inner, p3, f3);
    lemma_filter_map_add(flat, seq![l], p3, f3);
    assert forall|k: LayerKind| #[trigger] count_kind(flat + seq![l] + inner, k) == count_kind(flat, k)
        + count_kind(seq![l], k) + count_kind(inner, k) by {
        lemma_count_kind_add(flat + seq![l], inner, k);
        lemma_count_kind_add(flat, seq![l], k);
    }
}


// ---------------------------------------------------------------------------
// Laws

/// Every layer is of exactly one kind: the total number of layers is the sum
/// of the per-kind counts.
pub proof fn law_total_is_sum_of_kinds(flat: Seq<AmLayer>)
    ensures
        flat.len() == count_kind(flat, LayerKind::Shape) + count_kind(flat, LayerKind::Nullobj)
            + count_kind(flat, LayerKind::EmbedScene) + count_kind(flat, LayerKind::Bookmark)
            + count_kind(flat, LayerKind::Text) + count_kind(flat, LayerKind::Audio) + count_kind(
            flat,
            LayerKind::Camera,
        ) + count_kind(flat, LayerKind::Image) + count_kind(flat, LayerKind::Video),
    decreases flat.len(),
{
    if flat.len() > 0 {
        law_total_is_sum_of_kinds(flat.drop_last());
    }
}

/// Sum of the use counts of the known-effect entries.
pub open spec fn sum_usage_counts(entries: Seq<(Seq<char>, Seq<char>, nat, SupportLevel)>) -> nat
    decreases entries.len(),
{
    if entries.len() == 0 {
        0
    } else {
        sum_usage_counts(entries.drop_last()) + entries.last().2
    }
}

/// Sum, over the registry, of the number of uses of each entry's id.
pub open spec fn total_usage(registry: Seq<EffectDef>, sites: Seq<EffectSite>) -> nat
    decreases registry.len(),
{
    if registry.len() == 0 {
        0
    } else {
        total_usage(registry.drop_last(), sites) + usage_count(sites, registry.last().id@)
    }
}

/// Number of registry entries with this id.
pub open spec fn defs_with_id(registry: Seq<EffectDef>, id: Seq<char>) -> nat
    decreases registry.len(),
{
    if registry.len() == 0 {
        0
    } else {
        defs_with_id(registry.drop_last(), id) + if registry.last().id@ == id {
            1nat
        } else {
            0nat
        }
    }
}

/// No two registry entries share an id.
pub open spec fn registry_ids_distinct(registry: Seq<EffectDef>) -> bool {
    forall|i: int, j: int|
        0 <= i < registry.len() && 0 <= j < registry.len() && i != j ==> (#[trigger] registry[i]).id@
            != (#[trigger] registry[j]).id@
}

proof fn lemma_sum_supported(registry: Seq<EffectDef>, sites: Seq<EffectSite>)
    ensures
        sum_usage_counts(supported_usages(registry, sites)) == total_usage(registry, sites),
    decreases registry.len(),
{
    if registry.len() > 0 {
        let d = registry.last();
        lemma_sum_supported(registry.drop_last(), sites);
        assert(registry.drop_last().push(d) =~= registry);
        lemma_supported_usages_push(registry.drop_last(), d, sites);
        let prev = supported_usages(registry.drop_last(), sites);
        let e = (d.id@, d.display_name_zh@, usage_count(sites, d.id@), d.support_level);
        if usage_count(sites, d.id@) > 0 {
            assert(prev.push(e).drop_last() =~= prev);
        }
    } else {
        assert(supported_usages(registry, sites) =~= Seq::empty());
    }
}

proof fn lemma_total_usage_push(registry: Seq<EffectDef>, sites: Seq<EffectSite>, x: EffectSite)
    ensures
        total_usage(registry, sites.push(x)) == total_usage(registry, sites) + defs_with_id(
            registry,
            x.0,
        ),
    decreases registry.len(),
{
    if registry.len() > 0 {
        lemma_total_usage_push(registry.drop_last(), sites, x);
        assert(sites.push(x).drop_last() =~= sites);
    }
}

proof fn lemma_defs_with_id_distinct(registry: Seq<EffectDef>, id: Seq<char>)
    requires
        registry_ids_distinct(registry),
    ensures
        defs_with_id(registry, id) == if is_registered(registry, id) {
            1nat
        } else {
            0nat
        },
    decreases registry.len(),
{
    if registry.len() > 0 {
        let r0 = registry.drop_last();
        assert(registry_ids_distinct(r0)) by {
            assert forall|i: int, j: int|
                0 <= i < r0.len() && 0 <= j < r0.len() && i != j implies (#[trigger] r0[i]).id@
                    != (#[trigger] r0[j]).id@ by {
                assert(r0[i] == registry[i] && r0[j] == registry[j]);
            }
        }
        lemma_defs_with_id_distinct(r0, id);
        if registry.last().id@ == id {
            if is_registered(r0, id) {
                let i = choose|i: int| 0 <= i < r0.len() && (#[trigger] r0[i]).id@ == id;
                assert(registry[i] == r0[i]);
                assert(registry[registry.len() - 1] == registry.last());
            }
            assert(registry[registry.len() - 1] == registry.last());
        } else {
            if is_registered(registry, id) {
                let i = choose|i: int| 0 <= i < registry.len() && (#[trigger] registry[i]).id@ == id;
                assert(i != registry.len() - 1);
                assert(r0[i] == registry[i]);
            }
            if is_registered(r0, id) {
                let i = choose|i: int| 0 <= i < r0.len() && (#[trigger] r0[i]).id@ == id;
                assert(registry[i] == r0[i]);
            }
        }
    }
}

proof fn lemma_total_usage_is_registered_count(registry: Seq<EffectDef>, sites: Seq<EffectSite>)
    requires
        registry_ids_distinct(registry),
    ensures
        total_usage(registry, sites) == registered_ids(sites, registry).len(),
    decreases sites.len(),
{
    if sites.len() == 0 {
        assert(registered_ids(sites, registry) =~= Seq::empty());
        lemma_total_usage_zero(registry, sites);
    } else {
        let x = sites.last();
        let s0 = sites.drop_last();
        assert(s0.push(x) =~= sites);
        lemma_total_usage_is_registered_count(registry, s0);
        lemma_total_usage_push(registry, s0, x);
        lemma_defs_with_id_distinct(registry, x.0);
        lemma_registered_ids_push(s0, x, registry);
    }
}

proof fn lemma_total_usage_zero(registry: Seq<EffectDef>, sites: Seq<EffectSite>)
    requires
        sites.len() == 0,
    ensures
        total_usage(registry, sites) == 0,
    decreases registry.len(),
{
    if registry.len() > 0 {
        lemma_total_usage_zero(registry.drop_last(), sites);
    }
}

/// With a registry whose ids are distinct, every use of an effect in the scene
/// is accounted for exactly once: either in the use count of its known-effect
/// entry or as an unsupported-effect entry.
pub proof fn law_every_effect_use_accounted(registry: Seq<EffectDef>, sites: Seq<EffectSite>)
    requires
        registry_ids_distinct(registry),
    ensures
        sum_usage_counts(supported_usages(registry, sites)) + unsupported_entries(
            sites,
            registry,
        ).len() == sites.len(),
    decreases sites.len(),
{
    lemma_sum_supported(registry, sites);
    lemma_total_usage_is_registered_count(registry, sites);
    lemma_registered_plus_unsupported(registry, sites);
}

proof fn lemma_registered_plus_unsupported(registry: Seq<EffectDef>, sites: Seq<EffectSite>)
    ensures
        registered_ids(sites, registry).len() + unsupported_entries(sites, registry).len()
            == sites.len(),
    decreases sites.len(),
{
    if sites.len() == 0 {
        assert(registered_ids(sites, registry) =~= Seq::empty());
        assert(unsupported_entries(sites, registry) =~= Seq::empty());
    } else {
        let x = sites.last();
        let s0 = sites.drop_last();
        assert(s0.push(x) =~= sites);
        lemma_registered_plus_unsupported(registry, s0);
        lemma_registered_ids_push(s0, x, registry);
        lemma_unsupported_entries_push(s0, x, registry);
    }
}

/// The report classifies effects by the registry: every unsupported-effect entry
/// names an id the registry lacks, and every known-effect entry names an id the
/// registry holds and has been used at least once.
pub proof fn law_entries_follow_registry(registry: Seq<EffectDef>, sites: Seq<EffectSite>)
    ensures
        forall|i: int|
            0 <= i < unsupported_entries(sites, registry).len() ==> !is_registered(
                registry,
                (#[trigger] unsupported_entries(sites, registry)[i]).0,
            ),
        forall|i: int|
            0 <= i < supported_usages(registry, sites).len() ==> is_registered(
                registry,
                (#[trigger] supported_usages(registry, sites)[i]).0,
            ) && supported_usages(registry, sites)[i].2 > 0,
{
    broadcast use Seq::lemma_filter_pred, Seq::lemma_filter_contains_rev;
    let p1 = |s: EffectSite| !is_registered(registry, s.0);
    let f1 = |s: EffectSite| (s.0, after_last_dot(s.0), s.1, s.2);
    assert forall|i: int| 0 <= i < unsupported_entries(sites, registry).len() implies !is_registered(
        registry,
        (#[trigger] unsupported_entries(sites, registry)[i]).0,
    ) by {
        sites.lemma_filter_pred(p1, i);
    }
    let p2 = |d: EffectDef| usage_count(sites, d.id@) > 0;
    assert forall|i: int| 0 <= i < supported_usages(registry, sites).len() implies is_registered(
        registry,
        (#[trigger] supported_usages(registry, sites)[i]).0,
    ) && supported_usages(registry, sites)[i].2 > 0 by {
        registry.lemma_filter_pred(p2, i);
        let d = registry.filter(p2)[i];
        assert(registry.filter(p2).contains(d));
        broadcast use vstd::seq_lib::group_filter_ensures;
        let k = choose|k: int| 0 <= k < registry.len() && registry[k] == d;
        assert(registry[k].id@ == d.id@);
    }
}

proof fn lemma_supported_ids(registry: Seq<EffectDef>, sites: Seq<EffectSite>)
    requires
        forall|i: int, j: int| 0 <= i < j < registry.len() ==> registry[i].id@ != registry[j].id@,
    ensures
        ({
            let u = supported_usages(registry, sites);
            &&& forall|a: int, b: int| 0 <= a < b < u.len() ==> (#[trigger] u[a]).0 != (#[trigger] u[b]).0
            &&& forall|a: int| 0 <= a < u.len() ==> exists|i: int| 0 <= i < registry.len() && (#[trigger] u[a]).0 == registry[i].id@
        }),
    decreases registry.len(),
{
    if registry.len() == 0 {
        assert(supported_usages(registry, sites).len() == 0) by {
            assert(registry.filter(|d: EffectDef| usage_count(sites, d.id@) > 0) =~= Seq::<EffectDef>::empty()) by {
                registry.filter_lemma(|d: EffectDef| usage_count(sites, d.id@) > 0);
            }
        }
    } else {
        let r0 = registry.drop_last();
        let d = registry.last();
        assert(r0.push(d) =~= registry);
        lemma_supported_ids(r0, sites);
        lemma_supported_usages_push(r0, d, sites);
        let u0 = supported_usages(r0, sites);
        let u = supported_usages(registry, sites);
        assert forall|a: int| 0 <= a < u0.len() implies (#[trigger] u0[a]).0 != d.id@ by {
            let i = choose|i: int| 0 <= i < r0.len() && u0[a].0 == r0[i].id@;
            assert(registry[i] == r0[i]);
            assert(registry[registry.len() - 1] == d);
        }
        if usage_count(sites, d.id@) > 0 {
            assert forall|a: int, b: int| 0 <= a < b < u.len() implies (#[trigger] u[a]).0 != (#[trigger] u[b]).0 by {
                assert(u[a] == u0[a]);
                if b < u0.len() {
                    assert(u[b] == u0[b]);
                }
            }
            assert forall|a: int| 0 <= a < u.len() implies exists|i: int| 0 <= i < registry.len() && (#[trigger] u[a]).0 == registry[i].id@ by {
                if a < u0.len() {
                    assert(u[a] == u0[a]);
                    let i = choose|i: int| 0 <= i < r0.len() && u0[a].0 == r0[i].id@;
                    assert(registry[i] == r0[i]);
                } else {
                    assert(u[a].0 == registry[registry.len() - 1].id@);
                }
            }
        } else {
            assert forall|a: int| 0 <= a < u.len() implies exists|i: int| 0 <= i < registry.len() && (#[trigger] u[a]).0 == registry[i].id@ by {
                let i = choose|i: int| 0 <= i < r0.len() && u0[a].0 == r0[i].id@;
                assert(registry[i] == r0[i]);
            }
        }
    }
}

/// With a registry whose ids are distinct, the known-effect entries of a
/// report name distinct effects.
pub proof fn law_supported_ids_distinct(registry: Seq<EffectDef>, sites: Seq<EffectSite>)
    requires
        forall|i: int, j: int| 0 <= i < j < registry.len() ==> registry[i].id@ != registry[j].id@,
    ensures
        forall|a: int, b: int|
            0 <= a < b < supported_usages(registry, sites).len() ==> (#[trigger] supported_usages(registry, sites)[a]).0
                != (#[trigger] supported_usages(registry, sites)[b]).0,
{
    lemma_supported_ids(registry, sites);
}

/// The layer kinds reported as not rendered are exactly audio, video and
/// camera layers.
pub proof fn law_unsupported_kinds(l: AmLayer)
    ensures
        (unsupported_kind_name(l) is Some) == (kind_of(l) == LayerKind::Audio || kind_of(l)
            == LayerKind::Video || kind_of(l) == LayerKind::Camera),
{
}

/// Every effect a layer carries is checked, embedded scenes included: the
/// uses recorded for a layer are its effects, in order, with its label and
/// id.
pub proof fn law_every_effect_checked(l: AmLayer, effects: Seq<AmEffect>, k: int)
    requires
        match l {
            AmLayer::Shape(x) => x.effects@ == effects,
            AmLayer::Nullobj(x) => x.effects@ == effects,
            AmLayer::Text(x) => x.effects@ == effects,
            AmLayer::Image(x) => x.effects@ == effects,
            AmLayer::Video(x) => x.effects@ == effects,
            AmLayer::EmbedScene(x) => x.effects@ == effects,
            _ => effects.len() == 0,
        },
    ensures
        layer_sites(l).len() == effects.len(),
        0 <= k < effects.len() ==> layer_sites(l)[k] == (effects[k].id@, layer_label(l), layer_id(l)),
{
}

} // verus!
