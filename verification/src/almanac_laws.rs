//! Proved laws of the range-translation pipeline.
//!
//! The laws relate the interval form of translation
//! ([`stage_translate_ranges`], [`pipeline_translate_ranges`]) to the
//! scalar form ([`stage_translate`], [`pipeline_translate`]): an identity
//! stage leaves every interval unchanged, and over stages with disjoint,
//! covering rules the intervals that come out of a pipeline hold exactly
//! the scalar images of the values that went in — so the smallest output
//! start equals the smallest achievable scalar translation.

use vstd::prelude::*;

use crate::almanac::clip_translate;
use crate::almanac::min_range_start;
use crate::almanac::overlaps;
use crate::almanac::pipeline_translate;
use crate::almanac::pipeline_translate_ranges;
use crate::almanac::pipeline_wf;
use crate::almanac::range_has;
use crate::almanac::range_wf;
use crate::almanac::ranges_contain;
use crate::almanac::ranges_nonempty;
use crate::almanac::ranges_wf;
use crate::almanac::rule_contains;
use crate::almanac::rule_image;
use crate::almanac::rule_wf;
use crate::almanac::rules_cover;
use crate::almanac::rules_wf;
use crate::almanac::sources_disjoint;
use crate::almanac::stage_covers;
use crate::almanac::stage_translate;
use crate::almanac::stage_translate_range;
use crate::almanac::stage_translate_ranges;
use crate::almanac::ResourceRange;
use crate::almanac::ResourceTranslationRule;

verus! {

/// A value lies in a concatenation of interval sequences exactly when it
/// lies in one of the two parts.
proof fn lemma_contain_concat(a: Seq<ResourceRange>, b: Seq<ResourceRange>, v: u64)
    ensures
        ranges_contain(a + b, v) <==> (ranges_contain(a, v) || ranges_contain(b, v)),
{
    if ranges_contain(a + b, v) {
        let i = choose|i: int| 0 <= i < (a + b).len() && range_has((a + b)[i], v);
        if i < a.len() {
            assert(a[i] == (a + b)[i]);
            assert(ranges_contain(a, v));
        } else {
            assert(b[i - a.len()] == (a + b)[i]);
            assert(ranges_contain(b, v));
        }
    }
    if ranges_contain(a, v) {
        let i = choose|i: int| 0 <= i < a.len() && range_has(a[i], v);
        assert((a + b)[i] == a[i]);
        assert(ranges_contain(a + b, v));
    }
    if ranges_contain(b, v) {
        let i = choose|i: int| 0 <= i < b.len() && range_has(b[i], v);
        assert((a + b)[a.len() + i] == b[i]);
        assert(ranges_contain(a + b, v));
    }
}

/// Whatever one stage emits for one interval is well formed and non-empty.
proof fn lemma_stage_range_output_wf(rules: Seq<ResourceTranslationRule>, g: ResourceRange)
    requires
        rules_wf(rules),
        range_wf(g),
    ensures
        ranges_wf(stage_translate_range(rules, g)),
        ranges_nonempty(stage_translate_range(rules, g)),
    decreases rules.len(),
{
    if rules.len() > 0 {
        assert(rules.skip(1).len() == rules.len() - 1);
        assert(forall|i: int| 0 <= i < rules.skip(1).len() ==> rules.skip(1)[i] == rules[i + 1]);
        lemma_stage_range_output_wf(rules.skip(1), g);
    }
}

/// Whatever one stage emits is well formed and non-empty.
pub proof fn lemma_stage_output_wf(
    rules: Seq<ResourceTranslationRule>,
    ranges: Seq<ResourceRange>,
)
    requires
        rules_wf(rules),
        ranges_wf(ranges),
    ensures
        ranges_wf(stage_translate_ranges(rules, ranges)),
        ranges_nonempty(stage_translate_ranges(rules, ranges)),
    decreases ranges.len(),
{
    if ranges.len() > 0 {
        lemma_stage_range_output_wf(rules, ranges[0]);
        assert(forall|i: int|
            0 <= i < ranges.skip(1).len() ==> ranges.skip(1)[i] == ranges[i + 1]);
        lemma_stage_output_wf(rules, ranges.skip(1));
        let a = stage_translate_range(rules, ranges[0]);
        let b = stage_translate_ranges(rules, ranges.skip(1));
        assert(forall|i: int|
            0 <= i < (a + b).len() ==> (a + b)[i] == if i < a.len() {
                a[i]
            } else {
                b[i - a.len()]
            });
    }
}

/// An identity rule that covers a non-empty interval passes it through
/// unchanged as the single emitted piece.
pub proof fn lemma_identity_rule_range(r: ResourceTranslationRule, g: ResourceRange)
    requires
        rule_wf(r),
        range_wf(g),
        r.destination_from == r.source_from,
        g.len > 0,
        r.source_from <= g.from,
        g.from + g.len <= r.source_from + r.len,
    ensures
        stage_translate_range(seq![r], g) == seq![g],
{
    assert(overlaps(g, r));
    assert(clip_translate(g, r) == g);
    assert(seq![r].skip(1).len() == 0);
    assert(stage_translate_range(seq![r].skip(1), g) == Seq::<ResourceRange>::empty());
    assert(stage_translate_range(seq![r], g) =~= seq![g]);
}

/// A one-rule identity stage that covers every interval of a non-empty,
/// well-formed input set leaves the whole set unchanged.
pub proof fn lemma_identity_stage(r: ResourceTranslationRule, ranges: Seq<ResourceRange>)
    requires
        rule_wf(r),
        ranges_wf(ranges),
        ranges_nonempty(ranges),
        r.destination_from == r.source_from,
        forall|i: int|
            0 <= i < ranges.len() ==> r.source_from <= (#[trigger] ranges[i]).from && ranges[i].from
                + ranges[i].len <= r.source_from + r.len,
    ensures
        stage_translate_ranges(seq![r], ranges) == ranges,
    decreases ranges.len(),
{
    if ranges.len() == 0 {
        assert(stage_translate_ranges(seq![r], ranges) =~= ranges);
    } else {
        lemma_identity_rule_range(r, ranges[0]);
        assert(forall|i: int|
            0 <= i < ranges.skip(1).len() ==> ranges.skip(1)[i] == ranges[i + 1]);
        lemma_identity_stage(r, ranges.skip(1));
        assert(stage_translate_ranges(seq![r], ranges) =~= seq![ranges[0]] + ranges.skip(1));
        assert(seq![ranges[0]] + ranges.skip(1) =~= ranges);
    }
}

/// A pipeline whose every stage is a single identity rule covering every
/// input interval leaves the whole input set unchanged.  This is the
/// coverage-preservation law: such a pipeline loses nothing and moves
/// nothing.
pub proof fn lemma_identity_pipeline(
    stages: Seq<Seq<ResourceTranslationRule>>,
    ranges: Seq<ResourceRange>,
)
    requires
        ranges_wf(ranges),
        ranges_nonempty(ranges),
        forall|k: int| 0 <= k < stages.len() ==> (#[trigger] stages[k]).len() == 1,
        forall|k: int|
            0 <= k < stages.len() ==> rule_wf((#[trigger] stages[k])[0]) && stages[k][0].destination_from
                == stages[k][0].source_from,
        forall|k: int, i: int|
            0 <= k < stages.len() && 0 <= i < ranges.len() ==> (#[trigger] stages[k])[0].source_from
                <= (#[trigger] ranges[i]).from && ranges[i].from + ranges[i].len
                <= stages[k][0].source_from + stages[k][0].len,
    ensures
        pipeline_translate_ranges(stages, ranges) == ranges,
    decreases stages.len(),
{
    if stages.len() > 0 {
        assert(stages[0] =~= seq![stages[0][0]]);
        lemma_identity_stage(stages[0][0], ranges);
        assert(forall|k: int|
            0 <= k < stages.skip(1).len() ==> stages.skip(1)[k] == stages[k + 1]);
        lemma_identity_pipeline(stages.skip(1), ranges);
    }
}

/// With pairwise disjoint source ranges, whichever rule contains a value
/// is the rule that translates it.
proof fn lemma_disjoint_translate(rules: Seq<ResourceTranslationRule>, j: int, v: u64)
    requires
        sources_disjoint(rules),
        0 <= j < rules.len(),
        rule_contains(rules[j], v),
    ensures
        stage_translate(rules, v) == rule_image(rules[j], v),
    decreases rules.len(),
{
    if j == 0 {
    } else {
        assert(!(rule_contains(rules[0], v) && rule_contains(rules[j], v)));
        assert forall|j2: int, k2: int, v2: u64|
            0 <= j2 < k2 < rules.skip(1).len() implies !(#[trigger] rule_contains(
            rules.skip(1)[j2],
            v2,
        ) && #[trigger] rule_contains(rules.skip(1)[k2], v2)) by {
            assert(rules.skip(1)[j2] == rules[j2 + 1]);
            assert(rules.skip(1)[k2] == rules[k2 + 1]);
            assert(!(rule_contains(rules[j2 + 1], v2) && rule_contains(rules[k2 + 1], v2)));
        }
        assert(rules.skip(1)[j - 1] == rules[j]);
        lemma_disjoint_translate(rules.skip(1), j - 1, v);
    }
}

/// The pieces one stage emits for one interval hold exactly the images of
/// the interval's values that some rule covers.
proof fn lemma_stage_range_values(
    rules: Seq<ResourceTranslationRule>,
    g: ResourceRange,
    w: u64,
)
    requires
        rules_wf(rules),
        range_wf(g),
    ensures
        ranges_contain(stage_translate_range(rules, g), w) <==> (exists|j: int, v: u64|
            0 <= j < rules.len() && range_has(g, v) && #[trigger] rule_contains(rules[j], v) && w
                == rule_image(rules[j], v)),
    decreases rules.len(),
{
    if rules.len() == 0 {
    } else {
        let r0 = rules[0];
        let rest = stage_translate_range(rules.skip(1), g);
        lemma_stage_range_values(rules.skip(1), g, w);
        assert(forall|x: int| 0 <= x < rules.skip(1).len() ==> rules.skip(1)[x] == rules[x + 1]);
        if overlaps(g, r0) {
            let clip = clip_translate(g, r0);
            lemma_contain_concat(seq![clip], rest, w);
            assert(stage_translate_range(rules, g) == seq![clip] + rest);
            if ranges_contain(stage_translate_range(rules, g), w) {
                if ranges_contain(seq![clip], w) {
                    let i = choose|i: int| 0 <= i < 1 && range_has(seq![clip][i], w);
                    assert(range_has(clip, w));
                    let lo = crate::almanac::overlap_lo(g, r0);
                    let hi = crate::almanac::overlap_hi(g, r0);
                    let vi: int = w - r0.destination_from + r0.source_from;
                    assert(lo <= vi < hi);
                    let v = vi as u64;
                    assert(range_has(g, v));
                    assert(rule_contains(rules[0], v));
                    assert(w == rule_image(rules[0], v));
                } else {
                    let (j2, v2) = choose|j2: int, v2: u64|
                        0 <= j2 < rules.skip(1).len() && range_has(g, v2) && #[trigger] rule_contains(
                            rules.skip(1)[j2],
                            v2,
                        ) && w == rule_image(rules.skip(1)[j2], v2);
                    assert(rule_contains(rules[j2 + 1], v2));
                }
            }
            if exists|j: int, v: u64|
                0 <= j < rules.len() && range_has(g, v) && #[trigger] rule_contains(rules[j], v)
                    && w == rule_image(rules[j], v) {
                let (j, v) = choose|j: int, v: u64|
                    0 <= j < rules.len() && range_has(g, v) && #[trigger] rule_contains(
                        rules[j],
                        v,
                    ) && w == rule_image(rules[j], v);
                if j == 0 {
                    let lo = crate::almanac::overlap_lo(g, r0);
                    let hi = crate::almanac::overlap_hi(g, r0);
                    assert(lo <= v < hi);
                    assert(range_has(clip, w));
                    assert(seq![clip][0] == clip);
                    assert(ranges_contain(seq![clip], w));
                } else {
                    assert(rule_contains(rules.skip(1)[j - 1], v));
                    assert(ranges_contain(rest, w));
                }
            }
        } else {
            assert(stage_translate_range(rules, g) == rest);
            if exists|j: int, v: u64|
                0 <= j < rules.len() && range_has(g, v) && #[trigger] rule_contains(rules[j], v)
                    && w == rule_image(rules[j], v) {
                let (j, v) = choose|j: int, v: u64|
                    0 <= j < rules.len() && range_has(g, v) && #[trigger] rule_contains(
                        rules[j],
                        v,
                    ) && w == rule_image(rules[j], v);
                if j == 0 {
                    let lo = crate::almanac::overlap_lo(g, r0);
                    let hi = crate::almanac::overlap_hi(g, r0);
                    assert(lo <= v < hi);
                    assert(false);
                } else {
                    assert(rule_contains(rules.skip(1)[j - 1], v));
                    assert(ranges_contain(rest, w));
                }
            }
            if ranges_contain(rest, w) {
                let (j2, v2) = choose|j2: int, v2: u64|
                    0 <= j2 < rules.skip(1).len() && range_has(g, v2) && #[trigger] rule_contains(
                        rules.skip(1)[j2],
                        v2,
                    ) && w == rule_image(rules.skip(1)[j2], v2);
                assert(rule_contains(rules[j2 + 1], v2));
            }
        }
    }
}

/// What one stage emits for a whole set of intervals holds exactly the
/// rule-images of the covered values of the set.
proof fn lemma_stage_values_raw(
    rules: Seq<ResourceTranslationRule>,
    ranges: Seq<ResourceRange>,
    w: u64,
)
    requires
        rules_wf(rules),
        ranges_wf(ranges),
    ensures
        ranges_contain(stage_translate_ranges(rules, ranges), w) <==> (exists|j: int, v: u64|
            0 <= j < rules.len() && ranges_contain(ranges, v) && #[trigger] rule_contains(
                rules[j],
                v,
            ) && w == rule_image(rules[j], v)),
    decreases ranges.len(),
{
    if ranges.len() == 0 {
    } else {
        let g = ranges[0];
        let part = stage_translate_range(rules, g);
        let rest = stage_translate_ranges(rules, ranges.skip(1));
        assert(stage_translate_ranges(rules, ranges) == part + rest);
        assert(forall|x: int| 0 <= x < ranges.skip(1).len() ==> ranges.skip(1)[x] == ranges[x + 1]);
        lemma_contain_concat(part, rest, w);
        lemma_stage_range_values(rules, g, w);
        lemma_stage_values_raw(rules, ranges.skip(1), w);
        if ranges_contain(stage_translate_ranges(rules, ranges), w) {
            if ranges_contain(part, w) {
                let (j, v) = choose|j: int, v: u64|
                    0 <= j < rules.len() && range_has(g, v) && #[trigger] rule_contains(
                        rules[j],
                        v,
                    ) && w == rule_image(rules[j], v);
                assert(ranges[0] == g);
                assert(ranges_contain(ranges, v));
            } else {
                let (j, v) = choose|j: int, v: u64|
                    0 <= j < rules.len() && ranges_contain(ranges.skip(1), v)
                        && #[trigger] rule_contains(rules[j], v) && w == rule_image(rules[j], v);
                let i = choose|i: int| 0 <= i < ranges.skip(1).len() && range_has(
                    #[trigger] ranges.skip(1)[i],
                    v,
                );
                assert(range_has(ranges[i + 1], v));
                assert(ranges_contain(ranges, v));
            }
        }
        if exists|j: int, v: u64|
            0 <= j < rules.len() && ranges_contain(ranges, v) && #[trigger] rule_contains(
                rules[j],
                v,
            ) && w == rule_image(rules[j], v) {
            let (j, v) = choose|j: int, v: u64|
                0 <= j < rules.len() && ranges_contain(ranges, v) && #[trigger] rule_contains(
                    rules[j],
                    v,
                ) && w == rule_image(rules[j], v);
            let i = choose|i: int| 0 <= i < ranges.len() && range_has(#[trigger] ranges[i], v);
            if i == 0 {
                assert(range_has(g, v));
                assert(ranges_contain(part, w));
            } else {
                assert(ranges.skip(1)[i - 1] == ranges[i]);
                assert(ranges_contain(ranges.skip(1), v));
                assert(ranges_contain(rest, w));
            }
        }
    }
}

/// Over a stage of disjoint rules that cover the input set, the emitted
/// intervals hold exactly the scalar translations of the input values.
pub proof fn lemma_stage_value_correspondence(
    rules: Seq<ResourceTranslationRule>,
    ranges: Seq<ResourceRange>,
)
    requires
        rules_wf(rules),
        ranges_wf(ranges),
        sources_disjoint(rules),
        stage_covers(rules, ranges),
    ensures
        forall|w: u64|
            #[trigger] ranges_contain(stage_translate_ranges(rules, ranges), w) <==> (exists|
                v: u64,
            |
                ranges_contain(ranges, v) && #[trigger] stage_translate(rules, v) == w),
{
    assert forall|w: u64|
        #[trigger] ranges_contain(stage_translate_ranges(rules, ranges), w) <==> (exists|v: u64|
            ranges_contain(ranges, v) && #[trigger] stage_translate(rules, v) == w) by {
        lemma_stage_values_raw(rules, ranges, w);
        if ranges_contain(stage_translate_ranges(rules, ranges), w) {
            let (j, v) = choose|j: int, v: u64|
                0 <= j < rules.len() && ranges_contain(ranges, v) && #[trigger] rule_contains(
                    rules[j],
                    v,
                ) && w == rule_image(rules[j], v);
            lemma_disjoint_translate(rules, j, v);
            assert(ranges_contain(ranges, v) && stage_translate(rules, v) == w);
        }
        if exists|v: u64| ranges_contain(ranges, v) && #[trigger] stage_translate(rules, v) == w {
            let v = choose|v: u64|
                ranges_contain(ranges, v) && #[trigger] stage_translate(rules, v) == w;
            assert(rules_cover(rules, v));
            let j = choose|j: int| 0 <= j < rules.len() && rule_contains(#[trigger] rules[j], v);
            lemma_disjoint_translate(rules, j, v);
            assert(w == rule_image(rules[j], v));
            assert(ranges_contain(stage_translate_ranges(rules, ranges), w));
        }
    }
}

/// Every stage of the pipeline has disjoint rules that cover whatever the
/// earlier stages hand it.
pub open spec fn pipeline_ok(
    stages: Seq<Seq<ResourceTranslationRule>>,
    ranges: Seq<ResourceRange>,
) -> bool {
    forall|k: int|
        0 <= k < stages.len() ==> sources_disjoint(#[trigger] stages[k]) && stage_covers(
            stages[k],
            pipeline_translate_ranges(stages.take(k), ranges),
        )
}

/// Whatever a pipeline emits is well formed; with at least one stage, or
/// a non-empty-interval input, it is also free of zero-length intervals.
pub proof fn lemma_pipeline_output_wf(
    stages: Seq<Seq<ResourceTranslationRule>>,
    ranges: Seq<ResourceRange>,
)
    requires
        pipeline_wf(stages),
        ranges_wf(ranges),
        ranges_nonempty(ranges),
    ensures
        ranges_wf(pipeline_translate_ranges(stages, ranges)),
        ranges_nonempty(pipeline_translate_ranges(stages, ranges)),
    decreases stages.len(),
{
    if stages.len() > 0 {
        lemma_stage_output_wf(stages[0], ranges);
        assert(forall|x: int| 0 <= x < stages.skip(1).len() ==> stages.skip(1)[x] == stages[x + 1]);
        lemma_pipeline_output_wf(stages.skip(1), stage_translate_ranges(stages[0], ranges));
    }
}

/// Over a pipeline of disjoint, covering stages, the final intervals hold
/// exactly the scalar pipeline translations of the input values.
pub proof fn lemma_pipeline_value_correspondence(
    stages: Seq<Seq<ResourceTranslationRule>>,
    ranges: Seq<ResourceRange>,
)
    requires
        pipeline_wf(stages),
        ranges_wf(ranges),
        pipeline_ok(stages, ranges),
    ensures
        forall|w: u64|
            #[trigger] ranges_contain(pipeline_translate_ranges(stages, ranges), w) <==> (exists|
                v: u64,
            |
                ranges_contain(ranges, v) && #[trigger] pipeline_translate(stages, v) == w),
    decreases stages.len(),
{
    if stages.len() == 0 {
        assert forall|w: u64|
            #[trigger] ranges_contain(pipeline_translate_ranges(stages, ranges), w) <==> (exists|
                v: u64,
            |
                ranges_contain(ranges, v) && #[trigger] pipeline_translate(stages, v) == w) by {
            if ranges_contain(ranges, w) {
                assert(ranges_contain(ranges, w) && pipeline_translate(stages, w) == w);
            }
        }
    } else {
        let s0 = stages[0];
        let out0 = stage_translate_ranges(s0, ranges);
        assert(pipeline_translate_ranges(stages.take(0), ranges) == ranges);
        assert(sources_disjoint(s0) && stage_covers(s0, ranges));
        lemma_stage_value_correspondence(s0, ranges);
        lemma_stage_output_wf(s0, ranges);
        assert(forall|x: int| 0 <= x < stages.skip(1).len() ==> stages.skip(1)[x] == stages[x + 1]);
        assert forall|k: int| 0 <= k < stages.skip(1).len() implies sources_disjoint(
            #[trigger] stages.skip(1)[k],
        ) && stage_covers(
            stages.skip(1)[k],
            pipeline_translate_ranges(stages.skip(1).take(k), out0),
        ) by {
            assert(stages.skip(1)[k] == stages[k + 1]);
            assert(stages.take(k + 1).skip(1) =~= stages.skip(1).take(k));
            assert(stages.take(k + 1)[0] == stages[0]);
            assert(pipeline_translate_ranges(stages.take(k + 1), ranges)
                == pipeline_translate_ranges(stages.skip(1).take(k), out0));
            assert(sources_disjoint(stages[k + 1]) && stage_covers(
                stages[k + 1],
                pipeline_translate_ranges(stages.take(k + 1), ranges),
            ));
        }
        lemma_pipeline_value_correspondence(stages.skip(1), out0);
        let final_out = pipeline_translate_ranges(stages, ranges);
        assert(final_out == pipeline_translate_ranges(stages.skip(1), out0));
        assert forall|w: u64| #[trigger] ranges_contain(final_out, w) <==> (exists|v: u64|
            ranges_contain(ranges, v) && #[trigger] pipeline_translate(stages, v) == w) by {
            if ranges_contain(final_out, w) {
                let u = choose|u: u64|
                    ranges_contain(out0, u) && #[trigger] pipeline_translate(stages.skip(1), u)
                        == w;
                assert(ranges_contain(stage_translate_ranges(s0, ranges), u));
                let v = choose|v: u64|
                    ranges_contain(ranges, v) && #[trigger] stage_translate(s0, v) == u;
                assert(pipeline_translate(stages, v) == pipeline_translate(
                    stages.skip(1),
                    stage_translate(s0, v),
                ));
                assert(ranges_contain(ranges, v) && pipeline_translate(stages, v) == w);
            }
            if exists|v: u64|
                ranges_contain(ranges, v) && #[trigger] pipeline_translate(stages, v) == w {
                let v = choose|v: u64|
                    ranges_contain(ranges, v) && #[trigger] pipeline_translate(stages, v) == w;
                let u = stage_translate(s0, v);
                assert(ranges_contain(ranges, v) && stage_translate(s0, v) == u);
                assert(ranges_contain(stage_translate_ranges(s0, ranges), u));
                assert(ranges_contain(out0, u) && pipeline_translate(stages.skip(1), u) == w);
                assert(ranges_contain(pipeline_translate_ranges(stages.skip(1), out0), w));
            }
        }
    }
}

/// Pipeline order is respected exactly as configured: a two-stage
/// pipeline translates a scalar by the first stage and then the second,
/// never the other way round.
pub proof fn lemma_two_stage_order(
    a: Seq<ResourceTranslationRule>,
    b: Seq<ResourceTranslationRule>,
    v: u64,
)
    ensures
        pipeline_translate(seq![a, b], v) == stage_translate(b, stage_translate(a, v)),
{
    let stages = seq![a, b];
    reveal_with_fuel(pipeline_translate, 4);
    assert(stages[0] == a);
    assert(stages.skip(1) =~= seq![b]);
    assert(seq![b].skip(1) =~= Seq::<Seq<ResourceTranslationRule>>::empty());
    assert(seq![b][0] == b);
}

/// Pipeline order is respected for interval sets as well: a two-stage
/// pipeline feeds the first stage's output to the second.
pub proof fn lemma_two_stage_order_ranges(
    a: Seq<ResourceTranslationRule>,
    b: Seq<ResourceTranslationRule>,
    ranges: Seq<ResourceRange>,
)
    ensures
        pipeline_translate_ranges(seq![a, b], ranges) == stage_translate_ranges(
            b,
            stage_translate_ranges(a, ranges),
        ),
{
    let stages = seq![a, b];
    reveal_with_fuel(pipeline_translate_ranges, 4);
    assert(stages[0] == a);
    assert(stages.skip(1) =~= seq![b]);
    assert(seq![b].skip(1) =~= Seq::<Seq<ResourceTranslationRule>>::empty());
    assert(seq![b][0] == b);
}

/// The smallest interval start of a non-empty sequence is one of the
/// starts and bounds all of them from below.
pub proof fn lemma_min_start_props(ranges: Seq<ResourceRange>)
    requires
        ranges.len() > 0,
    ensures
        exists|i: int|
            0 <= i < ranges.len() && (#[trigger] ranges[i]).from == min_range_start(ranges),
        forall|i: int|
            0 <= i < ranges.len() ==> min_range_start(ranges) <= (#[trigger] ranges[i]).from,
    decreases ranges.len(),
{
    if ranges.len() == 1 {
        assert(ranges[0].from == min_range_start(ranges));
    } else {
        lemma_min_start_props(ranges.skip(1));
        assert(forall|x: int| 0 <= x < ranges.skip(1).len() ==> ranges.skip(1)[x] == ranges[x + 1]);
        let m = min_range_start(ranges);
        if ranges[0].from <= min_range_start(ranges.skip(1)) {
            assert(ranges[0].from == m);
        } else {
            let i = choose|i: int|
                0 <= i < ranges.skip(1).len() && (#[trigger] ranges.skip(1)[i]).from
                    == min_range_start(ranges.skip(1));
            assert(ranges[i + 1].from == m);
        }
        assert forall|i: int|
            0 <= i < ranges.len() implies m <= (#[trigger] ranges[i]).from by {
            if i > 0 {
                assert(ranges.skip(1)[i - 1] == ranges[i]);
                assert(min_range_start(ranges.skip(1)) <= ranges.skip(1)[i - 1].from);
            }
        }
    }
}

/// The minimum-of-outputs law: over a pipeline of disjoint, covering
/// stages, the smallest start among the final intervals equals the
/// smallest location reachable by translating any single input value, and
/// every input value translates to at least that start.
pub proof fn lemma_pipeline_min_location(
    stages: Seq<Seq<ResourceTranslationRule>>,
    ranges: Seq<ResourceRange>,
)
    requires
        pipeline_wf(stages),
        ranges_wf(ranges),
        ranges_nonempty(ranges),
        ranges.len() > 0,
        pipeline_ok(stages, ranges),
    ensures
        pipeline_translate_ranges(stages, ranges).len() > 0,
        exists|v: u64|
            ranges_contain(ranges, v) && #[trigger] pipeline_translate(stages, v)
                == min_range_start(pipeline_translate_ranges(stages, ranges)),
        forall|v: u64|
            ranges_contain(ranges, v) ==> #[trigger] pipeline_translate(stages, v)
                >= min_range_start(pipeline_translate_ranges(stages, ranges)),
{
    let out = pipeline_translate_ranges(stages, ranges);
    lemma_pipeline_value_correspondence(stages, ranges);
    lemma_pipeline_output_wf(stages, ranges);
    let v0 = ranges[0].from;
    assert(range_has(ranges[0], v0));
    assert(ranges_contain(ranges, v0));
    let w0 = pipeline_translate(stages, v0);
    assert(ranges_contain(ranges, v0) && pipeline_translate(stages, v0) == w0);
    assert(ranges_contain(out, w0));
    assert(out.len() > 0);
    lemma_min_start_props(out);
    let m = min_range_start(out);
    let i = choose|i: int| 0 <= i < out.len() && (#[trigger] out[i]).from == m;
    assert(range_has(out[i], m));
    assert(ranges_contain(out, m));
    assert forall|v: u64| ranges_contain(ranges, v) implies #[trigger] pipeline_translate(
        stages,
        v,
    ) >= m by {
        let w = pipeline_translate(stages, v);
        assert(ranges_contain(ranges, v) && pipeline_translate(stages, v) == w);
        assert(ranges_contain(out, w));
        let k = choose|k: int| 0 <= k < out.len() && range_has(#[trigger] out[k], w);
        assert(m <= out[k].from);
    }
}

} // verus!
