//! Decisions taken from a layer's effect list by effect id.
use vstd::prelude::*;
use crate::schema::AmEffect;
use crate::text::str_eq;

verus! {

/// Id of the second-generation transform effect.
pub open spec fn transform2_id() -> Seq<char> {
    "com.alightcreative.effects.transform2"@
}

/// Id of the first-generation transform effect.
pub open spec fn transform_v1_id() -> Seq<char> {
    "com.alightcreative.effects.transform"@
}

/// Id of the stretch-segment effect.
pub open spec fn stretch_segment_id() -> Seq<char> {
    "com.alightcreative.effects.stretchsegment"@
}

/// Id of the linear repeat effect.
pub open spec fn repeat_line_id() -> Seq<char> {
    "com.alightcreative.effects.repeat.line"@
}

/// Whether an effect id names one of the two transform effects.
pub fn is_transform_effect(id: &str) -> (r: bool)
    ensures
        r == (id@ == transform2_id() || id@ == transform_v1_id()),
{
    str_eq(id, "com.alightcreative.effects.transform2") || str_eq(
        id,
        "com.alightcreative.effects.transform",
    )
}

/// Whether the first linear repeat of the list comes after a stretch segment
/// (the repeat then copies the stretched element).
pub open spec fn repeat_after_stretch(ids: Seq<Seq<char>>) -> bool {
    exists|i: int|
        #![trigger ids[i]]
        0 <= i < ids.len() && ids[i] == repeat_line_id() && (forall|k: int|
            0 <= k < i ==> ids[k] != repeat_line_id()) && (exists|j: int|
            0 <= j < i && ids[j] == stretch_segment_id())
}

/// The effect ids of a list of effects.
pub open spec fn effect_ids(effects: Seq<AmEffect>) -> Seq<Seq<char>> {
    effects.map_values(|e: AmEffect| e.id@)
}

/// Returns whether the first `repeat.line` effect appears after a
/// `stretchsegment`: the repeat then takes the stretched mesh as its source.
pub fn linear_repeat_after_stretch_segment(effects: &[AmEffect]) -> (r: bool)
    ensures
        r == repeat_after_stretch(effect_ids(effects@)),
{
    let ghost ids = effect_ids(effects@);
    let mut seen_stretch_segment = false;
    let mut k: usize = 0;
    while k < effects.len()
        invariant
            k <= effects@.len(),
            ids == effect_ids(effects@),
            forall|m: int| 0 <= m < k ==> ids[m] != repeat_line_id(),
            seen_stretch_segment == exists|j: int| 0 <= j < k && ids[j] == stretch_segment_id(),
        decreases effects.len() - k,
    {
        let id = effects[k].id.as_str();
        assert(ids[k as int] == id@);
        if str_eq(id, "com.alightcreative.effects.stretchsegment") {
            proof {
                reveal_strlit("com.alightcreative.effects.stretchsegment");
                reveal_strlit("com.alightcreative.effects.repeat.line");
                assert(stretch_segment_id().len() != repeat_line_id().len());
            }
            seen_stretch_segment = true;
        } else if str_eq(id, "com.alightcreative.effects.repeat.line") {
            assert(ids[k as int] == repeat_line_id());
            return seen_stretch_segment;
        }
        k = k + 1;
    }
    false
}

} // verus!
