//! What a validation report says when it is shown: how many effects in use
//! are fully and partly supported, the uses of each unknown effect taken
//! together, and the closing verdict.
use vstd::prelude::*;
use crate::text::str_eq;
use crate::validation::{EffectUsage, SupportLevel, UnsupportedEffect, ValidationReport};

verus! {

/// The uses of one unknown effect id.
#[derive(Debug, Clone)]
pub struct UnsupportedEffectGroup {
    /// The effect id.
    pub effect_id: String,
    /// Index, among the report's unknown-effect uses, of the first use.
    pub first_use: usize,
    /// Number of uses.
    pub usage_count: usize,
}

/// The closing line of a shown report.
#[derive(Debug, Clone, Copy, PartialEq, Eq, Structural)]
pub enum ReportVerdict {
    /// Nothing unsupported, no effect with limitations.
    FullySupported,
    /// Nothing unsupported, some effects with limitations.
    SupportedWithPartial,
    /// Some effects or layers will be skipped.
    IssuesSkipped,
}

/// The figures a shown report is made of.
#[derive(Debug, Clone)]
pub struct ReportSummary {
    /// Effects in use that are fully supported.
    pub full_count: usize,
    /// Effects in use that are partly supported.
    pub partial_count: usize,
    /// Uses of unknown effects, one group per id, in order of first use.
    pub unsupported_groups: Vec<UnsupportedEffectGroup>,
    /// Unknown-effect uses and unsupported layers together.
    pub total_issues: usize,
    /// The closing verdict.
    pub verdict: ReportVerdict,
}

/// Number of entries of `levels` equal to `l`.
pub open spec fn level_count(levels: Seq<SupportLevel>, l: SupportLevel) -> nat
    decreases levels.len(),
{
    if levels.len() == 0 {
        0
    } else {
        level_count(levels.drop_last(), l) + if levels.last() == l {
            1nat
        } else {
            0nat
        }
    }
}

/// The support levels of a list of usages.
pub open spec fn usage_levels(u: Seq<EffectUsage>) -> Seq<SupportLevel> {
    u.map_values(|e: EffectUsage| e.level)
}

/// The effect ids of a list of unknown-effect uses.
pub open spec fn unsupported_ids(u: Seq<UnsupportedEffect>) -> Seq<Seq<char>> {
    u.map_values(|e: UnsupportedEffect| e.effect_id@)
}

/// Number of entries of `ids` equal to `id`.
pub open spec fn occurrences(ids: Seq<Seq<char>>, id: Seq<char>) -> nat
    decreases ids.len(),
{
    if ids.len() == 0 {
        0
    } else {
        occurrences(ids.drop_last(), id) + if ids.last() == id {
            1nat
        } else {
            0nat
        }
    }
}

/// The distinct entries of `ids`, in order of first occurrence.
pub open spec fn distinct_in_order(ids: Seq<Seq<char>>) -> Seq<Seq<char>>
    decreases ids.len(),
{
    if ids.len() == 0 {
        Seq::empty()
    } else if ids.drop_last().contains(ids.last()) {
        distinct_in_order(ids.drop_last())
    } else {
        distinct_in_order(ids.drop_last()).push(ids.last())
    }
}

/// `k` is the index of the first entry of `ids` equal to `id`.
pub open spec fn is_first_index(ids: Seq<Seq<char>>, id: Seq<char>, k: int) -> bool {
    &&& 0 <= k < ids.len()
    &&& ids[k] == id
    &&& forall|j: int| 0 <= j < k ==> ids[j] != id
}

/// The verdict for a report with these numbers of unknown-effect uses,
/// unsupported layers and partly supported effects.
pub open spec fn verdict_for(n_effects: nat, n_layers: nat, partial: nat) -> ReportVerdict {
    if n_effects == 0 && n_layers == 0 {
        if partial > 0 {
            ReportVerdict::SupportedWithPartial
        } else {
            ReportVerdict::FullySupported
        }
    } else {
        ReportVerdict::IssuesSkipped
    }
}

proof fn lemma_distinct_contains(ids: Seq<Seq<char>>)
    ensures
        forall|x: Seq<char>| #[trigger] distinct_in_order(ids).contains(x) == ids.contains(x),
    decreases ids.len(),
{
    if ids.len() > 0 {
        let s0 = ids.drop_last();
        lemma_distinct_contains(s0);
        assert forall|x: Seq<char>| #[trigger] distinct_in_order(ids).contains(x) == ids.contains(x) by {
            if ids.contains(x) {
                let k = choose|k: int| 0 <= k < ids.len() && ids[k] == x;
                if k < ids.len() - 1 {
                    assert(s0[k] == x);
                    assert(s0.contains(x));
                    assert(distinct_in_order(s0).contains(x));
                    if !s0.contains(ids.last()) {
                        let d0 = distinct_in_order(s0);
                        let k2 = choose|k2: int| 0 <= k2 < d0.len() && d0[k2] == x;
                        assert(d0.push(ids.last())[k2] == x);
                    }
                } else {
                    if s0.contains(ids.last()) {
                        assert(distinct_in_order(s0).contains(x));
                    } else {
                        let d0 = distinct_in_order(s0);
                        assert(d0.push(ids.last())[d0.len() as int] == x);
                    }
                }
            }
            if distinct_in_order(ids).contains(x) {
                if s0.contains(ids.last()) {
                    assert(distinct_in_order(s0).contains(x));
                    let k = choose|k: int| 0 <= k < s0.len() && s0[k] == x;
                    assert(ids[k] == x);
                } else {
                    let d0 = distinct_in_order(s0);
                    let k = choose|k: int| 0 <= k < d0.len() + 1 && d0.push(ids.last())[k] == x;
                    if k < d0.len() {
                        assert(d0[k] == x);
                        assert(d0.contains(x));
                        let k2 = choose|k2: int| 0 <= k2 < s0.len() && s0[k2] == x;
                        assert(ids[k2] == x);
                    } else {
                        assert(ids[ids.len() - 1] == x);
                    }
                }
            }
        }
    }
}

proof fn lemma_take_step(ids: Seq<Seq<char>>, i: int)
    requires
        0 <= i < ids.len(),
    ensures
        ids.take(i + 1).drop_last() == ids.take(i),
        ids.take(i + 1).last() == ids[i],
{
    assert(ids.take(i + 1).drop_last() =~= ids.take(i));
}

impl ValidationReport {
    /// The figures of the report as it is shown: the counts of fully and
    /// partly supported effects in use, the unknown-effect uses grouped by id
    /// in order of first use, the number of issues, and the verdict.
    pub fn summary(&self) -> (s: ReportSummary)
        requires
            self.unsupported_effects@.len() + self.unsupported_layers@.len() <= usize::MAX,
        ensures
            s.full_count == level_count(usage_levels(self.supported_effects_used@), SupportLevel::Full),
            s.partial_count == level_count(
                usage_levels(self.supported_effects_used@),
                SupportLevel::Partial,
            ),
            s.total_issues == self.unsupported_effects@.len() + self.unsupported_layers@.len(),
            s.verdict == verdict_for(
                self.unsupported_effects@.len(),
                self.unsupported_layers@.len(),
                s.partial_count as nat,
            ),
            s.unsupported_groups@.len() == distinct_in_order(
                unsupported_ids(self.unsupported_effects@),
            ).len(),
            forall|k: int|
                0 <= k < s.unsupported_groups@.len() ==> {
                    let ids = unsupported_ids(self.unsupported_effects@);
                    let g = #[trigger] s.unsupported_groups@[k];
                    &&& g.effect_id@ == distinct_in_order(ids)[k]
                    &&& g.usage_count == occurrences(ids, g.effect_id@)
                    &&& is_first_index(ids, g.effect_id@, g.first_use as int)
                },
    {
        let (full_count, partial_count) = count_levels(&self.supported_effects_used);
        let unsupported_groups = group_unsupported(&self.unsupported_effects);
        let total_issues = self.unsupported_effects.len() + self.unsupported_layers.len();
        let verdict = if self.unsupported_effects.len() == 0 && self.unsupported_layers.len() == 0 {
            if partial_count > 0 {
                ReportVerdict::SupportedWithPartial
            } else {
                ReportVerdict::FullySupported
            }
        } else {
            ReportVerdict::IssuesSkipped
        };
        ReportSummary { full_count, partial_count, unsupported_groups, total_issues, verdict }
    }
}

fn count_levels(usages: &Vec<EffectUsage>) -> (r: (usize, usize))
    ensures
        r.0 == level_count(usage_levels(usages@), SupportLevel::Full),
        r.1 == level_count(usage_levels(usages@), SupportLevel::Partial),
{
    let ghost lv = usage_levels(usages@);
    let mut full: usize = 0;
    let mut partial: usize = 0;
    let mut i: usize = 0;
    while i < usages.len()
        invariant
            i <= usages@.len(),
            lv == usage_levels(usages@),
            full == level_count(lv.take(i as int), SupportLevel::Full),
            partial == level_count(lv.take(i as int), SupportLevel::Partial),
            full <= i,
            partial <= i,
        decreases usages.len() - i,
    {
        proof {
            assert(lv.take(i + 1).drop_last() =~= lv.take(i as int));
            assert(lv.take(i + 1).last() == usages@[i as int].level);
        }
        match usages[i].level {
            SupportLevel::Full => {
                full = full + 1;
            },
            SupportLevel::Partial => {
                partial = partial + 1;
            },
            SupportLevel::Unsupported => {},
        }
        i = i + 1;
    }
    proof {
        assert(lv.take(usages@.len() as int) =~= lv);
    }
    (full, partial)
}

proof fn lemma_occurrences_absent(ids: Seq<Seq<char>>, x: Seq<char>)
    requires
        !ids.contains(x),
    ensures
        occurrences(ids, x) == 0,
    decreases ids.len(),
{
    if ids.len() > 0 {
        assert(ids[ids.len() - 1] == ids.last());
        assert forall|k: int| 0 <= k < ids.drop_last().len() implies ids.drop_last()[k] != x by {
            assert(ids.drop_last()[k] == ids[k]);
        }
        lemma_occurrences_absent(ids.drop_last(), x);
    }
}

fn find_group(groups: &Vec<UnsupportedEffectGroup>, id: &str) -> (r: Option<usize>)
    ensures
        r matches Some(j) ==> j < groups@.len() && groups@[j as int].effect_id@ == id@,
        r is None ==> forall|k: int| 0 <= k < groups@.len() ==> (#[trigger] groups@[k]).effect_id@ != id@,
{
    let mut j: usize = 0;
    while j < groups.len()
        invariant
            j <= groups@.len(),
            forall|k: int| 0 <= k < j ==> (#[trigger] groups@[k]).effect_id@ != id@,
        decreases groups.len() - j,
    {
        if str_eq(groups[j].effect_id.as_str(), id) {
            return Some(j);
        }
        j = j + 1;
    }
    None
}

fn group_unsupported(effects: &Vec<UnsupportedEffect>) -> (groups: Vec<UnsupportedEffectGroup>)
    ensures
        groups@.len() == distinct_in_order(unsupported_ids(effects@)).len(),
        forall|k: int|
            0 <= k < groups@.len() ==> {
                let ids = unsupported_ids(effects@);
                let g = #[trigger] groups@[k];
                &&& g.effect_id@ == distinct_in_order(ids)[k]
                &&& g.usage_count == occurrences(ids, g.effect_id@)
                &&& is_first_index(ids, g.effect_id@, g.first_use as int)
            },
{
    let ghost ids = unsupported_ids(effects@);
    let mut groups: Vec<UnsupportedEffectGroup> = Vec::new();
    let mut i: usize = 0;
    proof {
        assert(ids.take(0) =~= Seq::<Seq<char>>::empty());
    }
    while i < effects.len()
        invariant
            i <= effects@.len(),
            ids == unsupported_ids(effects@),
            ids.len() == effects@.len(),
            groups@.len() == distinct_in_order(ids.take(i as int)).len(),
            forall|a: int, b: int|
                0 <= a < b < groups@.len() ==> (#[trigger] groups@[a]).effect_id@ != (
                #[trigger] groups@[b]).effect_id@,
            forall|k: int|
                0 <= k < groups@.len() ==> {
                    let g = #[trigger] groups@[k];
                    &&& g.effect_id@ == distinct_in_order(ids.take(i as int))[k]
                    &&& g.usage_count == occurrences(ids.take(i as int), g.effect_id@)
                    &&& g.usage_count <= i
                    &&& is_first_index(ids.take(i as int), g.effect_id@, g.first_use as int)
                },
        decreases effects.len() - i,
    {
        let id = &effects[i].effect_id;
        let ghost pre = ids.take(i as int);
        let ghost post = ids.take(i + 1);
        let ghost g0 = groups@;
        proof {
            lemma_take_step(ids, i as int);
            assert(ids[i as int] == id@);
            lemma_distinct_contains(pre);
            assert forall|k: int| 0 <= k < pre.len() implies #[trigger] post[k] == pre[k] by {}
        }
        match find_group(&groups, id.as_str()) {
            Some(j) => {
                let g = UnsupportedEffectGroup {
                    effect_id: groups[j].effect_id.clone(),
                    first_use: groups[j].first_use,
                    usage_count: groups[j].usage_count + 1,
                };
                groups.set(j, g);
                proof {
                    assert(distinct_in_order(pre)[j as int] == id@);
                    assert(distinct_in_order(pre).contains(id@));
                    assert(pre.contains(id@));
                    assert(distinct_in_order(post) == distinct_in_order(pre));
                    assert forall|k: int| 0 <= k < groups@.len() implies {
                        let g = #[trigger] groups@[k];
                        &&& g.effect_id@ == distinct_in_order(post)[k]
                        &&& g.usage_count == occurrences(post, g.effect_id@)
                        &&& g.usage_count <= i + 1
                        &&& is_first_index(post, g.effect_id@, g.first_use as int)
                    } by {
                        if k != j {
                            assert(groups@[k] == g0[k]);
                            if k < j {
                                assert(g0[k].effect_id@ != g0[j as int].effect_id@);
                            } else {
                                assert(g0[j as int].effect_id@ != g0[k].effect_id@);
                            }
                        }
                    }
                    assert forall|a: int, b: int|
                        0 <= a < b < groups@.len() implies (#[trigger] groups@[a]).effect_id@ != (
                        #[trigger] groups@[b]).effect_id@ by {
                        assert(groups@[a].effect_id@ == g0[a].effect_id@);
                        assert(groups@[b].effect_id@ == g0[b].effect_id@);
                    }
                }
            },
            None => {
                let g = UnsupportedEffectGroup { effect_id: id.clone(), first_use: i, usage_count: 1 };
                groups.push(g);
                proof {
                    if distinct_in_order(pre).contains(id@) {
                        let k = choose|k: int| 0 <= k < distinct_in_order(pre).len()
                            && distinct_in_order(pre)[k] == id@;
                        assert(g0[k].effect_id@ == id@);
                    }
                    assert(!pre.contains(id@));
                    lemma_occurrences_absent(pre, id@);
                    assert(distinct_in_order(post) == distinct_in_order(pre).push(id@));
                    assert forall|k: int| 0 <= k < groups@.len() implies {
                        let g = #[trigger] groups@[k];
                        &&& g.effect_id@ == distinct_in_order(post)[k]
                        &&& g.usage_count == occurrences(post, g.effect_id@)
                        &&& g.usage_count <= i + 1
                        &&& is_first_index(post, g.effect_id@, g.first_use as int)
                    } by {
                        if k < g0.len() {
                            assert(groups@[k] == g0[k]);
                            assert(g0[k].effect_id@ != id@);
                        } else {
                            assert(groups@[k].effect_id@ == id@);
                            assert forall|j2: int| 0 <= j2 < i implies post[j2] != id@ by {
                                assert(post[j2] == pre[j2]);
                            }
                        }
                    }
                    assert forall|a: int, b: int|
                        0 <= a < b < groups@.len() implies (#[trigger] groups@[a]).effect_id@ != (
                        #[trigger] groups@[b]).effect_id@ by {
                        if b == g0.len() {
                            assert(groups@[a] == g0[a]);
                        } else {
                            assert(groups@[a] == g0[a] && groups@[b] == g0[b]);
                        }
                    }
                }
            },
        }
        i = i + 1;
    }
    proof {
        assert(ids.take(effects@.len() as int) =~= ids);
    }
    groups
}

/// Total uses, in `ids`, of the entries of `d`.
pub open spec fn group_total(d: Seq<Seq<char>>, ids: Seq<Seq<char>>) -> nat
    decreases d.len(),
{
    if d.len() == 0 {
        0
    } else {
        group_total(d.drop_last(), ids) + occurrences(ids, d.last())
    }
}

proof fn lemma_occurrences_push(s: Seq<Seq<char>>, x: Seq<char>, y: Seq<char>)
    ensures
        occurrences(s.push(x), y) == occurrences(s, y) + if x == y {
            1nat
        } else {
            0nat
        },
{
    assert(s.push(x).drop_last() =~= s);
}

proof fn lemma_distinct_no_dup(ids: Seq<Seq<char>>)
    ensures
        forall|i: int, j: int|
            0 <= i < j < distinct_in_order(ids).len() ==> #[trigger] distinct_in_order(ids)[i]
                != #[trigger] distinct_in_order(ids)[j],
    decreases ids.len(),
{
    if ids.len() > 0 {
        let s0 = ids.drop_last();
        lemma_distinct_no_dup(s0);
        lemma_distinct_contains(s0);
        let d0 = distinct_in_order(s0);
        if !s0.contains(ids.last()) {
            assert(!d0.contains(ids.last()));
            let d = d0.push(ids.last());
            assert forall|i: int, j: int| 0 <= i < j < d.len() implies #[trigger] d[i] != #[trigger] d[j] by {
                if j == d0.len() {
                    assert(d[i] == d0[i]);
                } else {
                    assert(d[i] == d0[i] && d[j] == d0[j]);
                }
            }
        }
    }
}

proof fn lemma_occurrences_once(d: Seq<Seq<char>>, x: Seq<char>)
    requires
        d.contains(x),
        forall|i: int, j: int| 0 <= i < j < d.len() ==> #[trigger] d[i] != #[trigger] d[j],
    ensures
        occurrences(d, x) == 1,
    decreases d.len(),
{
    let d0 = d.drop_last();
    assert forall|i: int, j: int| 0 <= i < j < d0.len() implies #[trigger] d0[i] != #[trigger] d0[j] by {
        assert(d0[i] == d[i] && d0[j] == d[j]);
    }
    if d.last() == x {
        assert forall|k: int| 0 <= k < d0.len() implies d0[k] != x by {
            assert(d0[k] == d[k]);
            assert(d[k] != d[d.len() - 1]);
        }
        lemma_occurrences_absent(d0, x);
    } else {
        let k = choose|k: int| 0 <= k < d.len() && d[k] == x;
        assert(d0[k] == x);
        lemma_occurrences_once(d0, x);
    }
}

proof fn lemma_group_total_push(d: Seq<Seq<char>>, s: Seq<Seq<char>>, x: Seq<char>)
    ensures
        group_total(d, s.push(x)) == group_total(d, s) + occurrences(d, x),
    decreases d.len(),
{
    if d.len() > 0 {
        lemma_group_total_push(d.drop_last(), s, x);
        lemma_occurrences_push(s, x, d.last());
    }
}

/// Grouping by id loses no use: the uses counted over the groups of the
/// distinct ids add up to all uses.
pub proof fn law_groups_cover_every_use(ids: Seq<Seq<char>>)
    ensures
        group_total(distinct_in_order(ids), ids) == ids.len(),
    decreases ids.len(),
{
    if ids.len() > 0 {
        let s0 = ids.drop_last();
        let x = ids.last();
        law_groups_cover_every_use(s0);
        lemma_distinct_contains(s0);
        lemma_distinct_no_dup(s0);
        let d0 = distinct_in_order(s0);
        assert(s0.push(x) =~= ids);
        lemma_group_total_push(d0, s0, x);
        if s0.contains(x) {
            assert(d0.contains(x));
            lemma_occurrences_once(d0, x);
        } else {
            assert(!d0.contains(x));
            lemma_occurrences_absent(d0, x);
            lemma_occurrences_absent(s0, x);
            lemma_occurrences_push(s0, x, x);
            assert(d0.push(x).drop_last() =~= d0);
        }
    }
}


/// The verdict says whether anything is skipped: issues are reported exactly
/// when some effect use or layer is unsupported; otherwise partial support
/// is reported exactly when some effect in use is partly supported.
pub proof fn law_verdict(n_effects: nat, n_layers: nat, partial: nat)
    ensures
        (verdict_for(n_effects, n_layers, partial) == ReportVerdict::IssuesSkipped) == (n_effects > 0
            || n_layers > 0),
        (verdict_for(n_effects, n_layers, partial) == ReportVerdict::SupportedWithPartial) == (
        n_effects == 0 && n_layers == 0 && partial > 0),
        (verdict_for(n_effects, n_layers, partial) == ReportVerdict::FullySupported) == (n_effects
            == 0 && n_layers == 0 && partial == 0),
{
}

/// Every effect in use has exactly one support level: the counts per level
/// add up to the number of effects, and adding an effect raises the count
/// of its own level by one and no other.
pub proof fn law_level_counts(levels: Seq<SupportLevel>, l: SupportLevel, other: SupportLevel)
    ensures
        level_count(levels, SupportLevel::Full) + level_count(levels, SupportLevel::Partial)
            + level_count(levels, SupportLevel::Unsupported) == levels.len(),
        level_count(levels.push(l), l) == level_count(levels, l) + 1,
        other != l ==> level_count(levels.push(l), other) == level_count(levels, other),
    decreases levels.len(),
{
    assert(levels.push(l).drop_last() =~= levels);
    if levels.len() > 0 {
        law_level_counts(levels.drop_last(), l, other);
    }
}

} // verus!
