//! Interval-based range translation: rules, stages and pipelines.
//!
//! A [`ResourceTranslationRule`] maps the half-open source range
//! `[source_from, source_from + len)` to the destination range
//! `[destination_from, destination_from + len)` by a constant offset.
//! A [`ResourceMap`] is one translation stage: an unordered collection of
//! rules with non-overlapping source ranges; values not covered by any
//! rule pass through unchanged.  An [`Almanac`] chains seven stages into a
//! pipeline, applied left to right, either to a single scalar value or to
//! whole intervals ([`ResourceRange`]), where an interval may be split and
//! uncovered portions are dropped.

use vstd::prelude::*;

verus! {

/// One fixed-offset translation rule from a source range to a destination
/// range of the same length.
#[derive(Clone, Copy, PartialEq, Eq, Structural, Debug)]
pub struct ResourceTranslationRule {
    pub destination_from: u64,
    pub source_from: u64,
    pub len: u64,
}

/// A half-open interval of resource identifiers `[from, from + len)`.
#[derive(Clone, Copy, PartialEq, Eq, Structural, Debug)]
pub struct ResourceRange {
    pub from: u64,
    pub len: u64,
}

/// Both endpoints of the rule's ranges stay representable in `u64`.
pub open spec fn rule_wf(r: ResourceTranslationRule) -> bool {
    &&& r.source_from + r.len <= u64::MAX
    &&& r.destination_from + r.len <= u64::MAX
}

/// The interval's upper endpoint stays representable in `u64`.
pub open spec fn range_wf(g: ResourceRange) -> bool {
    g.from + g.len <= u64::MAX
}

/// Whether `v` lies in the rule's source range.
pub open spec fn rule_contains(r: ResourceTranslationRule, v: u64) -> bool {
    r.source_from <= v < r.source_from + r.len
}

/// The image of a covered value under the rule's constant offset.
pub open spec fn rule_image(r: ResourceTranslationRule, v: u64) -> u64 {
    (r.destination_from + (v - r.source_from)) as u64
}

/// Every rule of the sequence is well formed.
pub open spec fn rules_wf(rules: Seq<ResourceTranslationRule>) -> bool {
    forall|i: int| 0 <= i < rules.len() ==> rule_wf(#[trigger] rules[i])
}

/// Every interval of the sequence is well formed.
pub open spec fn ranges_wf(ranges: Seq<ResourceRange>) -> bool {
    forall|i: int| 0 <= i < ranges.len() ==> range_wf(#[trigger] ranges[i])
}

/// Every interval of the sequence is non-empty.
pub open spec fn ranges_nonempty(ranges: Seq<ResourceRange>) -> bool {
    forall|i: int| 0 <= i < ranges.len() ==> (#[trigger] ranges[i]).len > 0
}

/// What one stage does to a scalar: the first rule whose source range
/// contains `v` translates it; with no such rule `v` passes through.
pub open spec fn stage_translate(rules: Seq<ResourceTranslationRule>, v: u64) -> u64
    decreases rules.len(),
{
    if rules.len() == 0 {
        v
    } else if rule_contains(rules[0], v) {
        rule_image(rules[0], v)
    } else {
        stage_translate(rules.skip(1), v)
    }
}

/// Start of the overlap of an interval and a rule's source range.
pub open spec fn overlap_lo(g: ResourceRange, r: ResourceTranslationRule) -> int {
    if g.from >= r.source_from {
        g.from as int
    } else {
        r.source_from as int
    }
}

/// End of the overlap of an interval and a rule's source range.
pub open spec fn overlap_hi(g: ResourceRange, r: ResourceTranslationRule) -> int {
    if g.from + g.len <= r.source_from + r.len {
        g.from + g.len
    } else {
        r.source_from + r.len
    }
}

/// Whether the interval and the rule's source range share at least one value.
pub open spec fn overlaps(g: ResourceRange, r: ResourceTranslationRule) -> bool {
    overlap_lo(g, r) < overlap_hi(g, r)
}

/// The translated image of the overlapping portion of `g` under rule `r`.
pub open spec fn clip_translate(g: ResourceRange, r: ResourceTranslationRule) -> ResourceRange {
    ResourceRange {
        from: (overlap_lo(g, r) - r.source_from + r.destination_from) as u64,
        len: (overlap_hi(g, r) - overlap_lo(g, r)) as u64,
    }
}

/// What one stage does to one interval: each rule that overlaps it emits
/// the translated overlap; touching-only pairs and uncovered portions
/// contribute nothing, so zero-length intervals are never emitted.
pub open spec fn stage_translate_range(
    rules: Seq<ResourceTranslationRule>,
    g: ResourceRange,
) -> Seq<ResourceRange>
    decreases rules.len(),
{
    if rules.len() == 0 {
        Seq::empty()
    } else {
        let rest = stage_translate_range(rules.skip(1), g);
        if overlaps(g, rules[0]) {
            seq![clip_translate(g, rules[0])] + rest
        } else {
            rest
        }
    }
}

/// What one stage does to a whole set of intervals, in input order.
pub open spec fn stage_translate_ranges(
    rules: Seq<ResourceTranslationRule>,
    ranges: Seq<ResourceRange>,
) -> Seq<ResourceRange>
    decreases ranges.len(),
{
    if ranges.len() == 0 {
        Seq::empty()
    } else {
        stage_translate_range(rules, ranges[0]) + stage_translate_ranges(rules, ranges.skip(1))
    }
}

/// Whether `v` lies in the interval `g`.
pub open spec fn range_has(g: ResourceRange, v: u64) -> bool {
    g.from <= v < g.from + g.len
}

/// Whether `v` lies in at least one interval of the sequence.
pub open spec fn ranges_contain(ranges: Seq<ResourceRange>, v: u64) -> bool {
    exists|i: int| 0 <= i < ranges.len() && range_has(#[trigger] ranges[i], v)
}

/// Whether some rule's source range contains `v`.
pub open spec fn rules_cover(rules: Seq<ResourceTranslationRule>, v: u64) -> bool {
    exists|j: int| 0 <= j < rules.len() && rule_contains(#[trigger] rules[j], v)
}

/// No value lies in the source ranges of two distinct rules.
pub open spec fn sources_disjoint(rules: Seq<ResourceTranslationRule>) -> bool {
    forall|j: int, k: int, v: u64|
        0 <= j < k < rules.len() ==> !(#[trigger] rule_contains(rules[j], v)
            && #[trigger] rule_contains(rules[k], v))
}

/// Every value of every interval lies in some rule's source range.
pub open spec fn stage_covers(
    rules: Seq<ResourceTranslationRule>,
    ranges: Seq<ResourceRange>,
) -> bool {
    forall|v: u64| ranges_contain(ranges, v) ==> rules_cover(rules, v)
}

/// The smallest `from` value among the intervals of a non-empty sequence.
pub open spec fn min_range_start(ranges: Seq<ResourceRange>) -> u64
    recommends
        ranges.len() > 0,
    decreases ranges.len(),
{
    if ranges.len() <= 1 {
        ranges[0].from
    } else {
        let rest = min_range_start(ranges.skip(1));
        if ranges[0].from <= rest {
            ranges[0].from
        } else {
            rest
        }
    }
}

impl ResourceTranslationRule {
    /// Whether `resource_id` lies in this rule's source range.
    pub fn has_resource(&self, resource_id: u64) -> (b: bool)
        ensures
            b == rule_contains(*self, resource_id),
    {
        resource_id >= self.source_from && resource_id - self.source_from < self.len
    }

    /// Translates a value of the source range by the rule's offset.
    pub fn translate(&self, resource_id: u64) -> (r: u64)
        requires
            rule_wf(*self),
            rule_contains(*self, resource_id),
        ensures
            r == rule_image(*self, resource_id),
    {
        self.destination_from + (resource_id - self.source_from)
    }
}

/// One translation stage: an unordered collection of rules whose source
/// ranges are assumed not to overlap.
pub struct ResourceMap {
    pub rules: Vec<ResourceTranslationRule>,
}

impl ResourceMap {
    /// Translates a scalar through this stage: the first rule whose source
    /// range contains the value applies; otherwise the value is unchanged.
    pub fn translate(&self, resource_id: u64) -> (r: u64)
        requires
            rules_wf(self.rules@),
        ensures
            r == stage_translate(self.rules@, resource_id),
    {
        let n = self.rules.len();
        proof {
            assert(self.rules@.skip(0) =~= self.rules@);
        }
        for i in 0..n
            invariant
                n == self.rules@.len(),
                rules_wf(self.rules@),
                stage_translate(self.rules@, resource_id) == stage_translate(
                    self.rules@.skip(i as int),
                    resource_id,
                ),
        {
            proof {
                assert(self.rules@.skip(i as int)[0] == self.rules@[i as int]);
                assert(self.rules@.skip(i as int).skip(1) =~= self.rules@.skip(i + 1));
            }
            if self.rules[i].has_resource(resource_id) {
                return self.rules[i].translate(resource_id);
            }
        }
        resource_id
    }

    /// Translates a set of intervals through this stage.  Every overlap of
    /// an input interval with a rule's source range is emitted translated;
    /// portions covered by no rule are dropped, and no zero-length interval
    /// is ever emitted.
    pub fn translate_ranges(&self, ranges: &Vec<ResourceRange>) -> (res: Vec<ResourceRange>)
        requires
            rules_wf(self.rules@),
            ranges_wf(ranges@),
        ensures
            res@ == stage_translate_ranges(self.rules@, ranges@),
            ranges_wf(res@),
            ranges_nonempty(res@),
    {
        let mut res: Vec<ResourceRange> = Vec::new();
        let n = ranges.len();
        for i in 0..n
            invariant
                n == ranges@.len(),
                rules_wf(self.rules@),
                ranges_wf(ranges@),
                res@ == stage_translate_ranges(self.rules@, ranges@.take(i as int)),
                ranges_wf(res@),
                ranges_nonempty(res@),
        {
            let g = ranges[i];
            let m = self.rules.len();
            let ghost res_before = res@;
            for j in 0..m
                invariant
                    m == self.rules@.len(),
                    rules_wf(self.rules@),
                    range_wf(g),
                    res@ == res_before + stage_translate_range(
                        self.rules@.take(j as int),
                        g,
                    ),
                    ranges_wf(res@),
                    ranges_nonempty(res@),
            {
                let rule = self.rules[j];
                let lo = if g.from >= rule.source_from {
                    g.from
                } else {
                    rule.source_from
                };
                proof {
                    lemma_stage_translate_range_take_step(self.rules@, g, j as int);
                }
                let hi_g = g.from + g.len;
                let hi_r = rule.source_from + rule.len;
                let hi = if hi_g <= hi_r {
                    hi_g
                } else {
                    hi_r
                };
                if lo < hi {
                    let out = ResourceRange {
                        from: lo - rule.source_from + rule.destination_from,
                        len: hi - lo,
                    };
                    res.push(out);
                }
            }
            proof {
                lemma_stage_translate_range_full(self.rules@, g);
                lemma_stage_translate_ranges_take_step(self.rules@, ranges@, i as int);
            }
        }
        proof {
            assert(ranges@.take(n as int) =~= ranges@);
        }
        res
    }
}

/// What a whole pipeline does to a scalar: the stages apply left to
/// right, the output of each feeding the next.
pub open spec fn pipeline_translate(stages: Seq<Seq<ResourceTranslationRule>>, v: u64) -> u64
    decreases stages.len(),
{
    if stages.len() == 0 {
        v
    } else {
        pipeline_translate(stages.skip(1), stage_translate(stages[0], v))
    }
}

/// What a whole pipeline does to a set of intervals: the stages apply
/// left to right, the output of each feeding the next.
pub open spec fn pipeline_translate_ranges(
    stages: Seq<Seq<ResourceTranslationRule>>,
    ranges: Seq<ResourceRange>,
) -> Seq<ResourceRange>
    decreases stages.len(),
{
    if stages.len() == 0 {
        ranges
    } else {
        pipeline_translate_ranges(stages.skip(1), stage_translate_ranges(stages[0], ranges))
    }
}

/// Every stage of the pipeline consists of well-formed rules.
pub open spec fn pipeline_wf(stages: Seq<Seq<ResourceTranslationRule>>) -> bool {
    forall|k: int| 0 <= k < stages.len() ==> rules_wf(#[trigger] stages[k])
}

/// A pipeline of seven translation stages together with the seed values
/// (or seed intervals) they are applied to.
pub struct Almanac<T> {
    pub seeds: Vec<T>,
    pub seed_to_soil: ResourceMap,
    pub soil_to_fertilizer: ResourceMap,
    pub fertilizer_to_water: ResourceMap,
    pub water_to_light: ResourceMap,
    pub light_to_temperature: ResourceMap,
    pub temperature_to_humidity: ResourceMap,
    pub humidity_to_location: ResourceMap,
}

impl<T> Almanac<T> {
    /// The stages of this almanac, in application order.
    pub open spec fn stages(&self) -> Seq<Seq<ResourceTranslationRule>> {
        seq![
            self.seed_to_soil.rules@,
            self.soil_to_fertilizer.rules@,
            self.fertilizer_to_water.rules@,
            self.water_to_light.rules@,
            self.light_to_temperature.rules@,
            self.temperature_to_humidity.rules@,
            self.humidity_to_location.rules@,
        ]
    }

    /// Every rule of every stage is well formed.
    pub open spec fn maps_wf(&self) -> bool {
        pipeline_wf(self.stages())
    }

    /// Translates one seed value through all seven stages in order.
    pub fn seed_to_location(&self, seed: u64) -> (r: u64)
        requires
            self.maps_wf(),
        ensures
            r == pipeline_translate(self.stages(), seed),
    {
        let v1 = self.seed_to_soil.translate(seed);
        let v2 = self.soil_to_fertilizer.translate(v1);
        let v3 = self.fertilizer_to_water.translate(v2);
        let v4 = self.water_to_light.translate(v3);
        let v5 = self.light_to_temperature.translate(v4);
        let v6 = self.temperature_to_humidity.translate(v5);
        let v7 = self.humidity_to_location.translate(v6);
        proof {
            lemma_pipeline_translate_unfold(self.stages(), seed);
        }
        v7
    }
}

/// Unrolls `pipeline_translate` over a seven-stage pipeline.
proof fn lemma_pipeline_translate_unfold(stages: Seq<Seq<ResourceTranslationRule>>, v: u64)
    requires
        stages.len() == 7,
    ensures
        pipeline_translate(stages, v) == stage_translate(
            stages[6],
            stage_translate(
                stages[5],
                stage_translate(
                    stages[4],
                    stage_translate(
                        stages[3],
                        stage_translate(
                            stages[2],
                            stage_translate(stages[1], stage_translate(stages[0], v)),
                        ),
                    ),
                ),
            ),
        ),
{
    reveal_with_fuel(pipeline_translate, 9);
    reveal_with_fuel(pipeline_translate_ranges, 9);
    let s1 = stages.skip(1);
    let s2 = stages.skip(2);
    let s3 = stages.skip(3);
    let s4 = stages.skip(4);
    let s5 = stages.skip(5);
    let s6 = stages.skip(6);
    let s7 = stages.skip(7);
    assert(s1.skip(1) =~= s2);
    assert(s2.skip(1) =~= s3);
    assert(s3.skip(1) =~= s4);
    assert(s4.skip(1) =~= s5);
    assert(s5.skip(1) =~= s6);
    assert(s6.skip(1) =~= s7);
    assert(s7.len() == 0);
    assert(s1[0] == stages[1]);
    assert(s2[0] == stages[2]);
    assert(s3[0] == stages[3]);
    assert(s4[0] == stages[4]);
    assert(s5[0] == stages[5]);
    assert(s6[0] == stages[6]);
}

impl Almanac<ResourceRange> {
    /// Translates every seed interval through all seven stages in order.
    pub fn get_location_ranges(&self) -> (res: Vec<ResourceRange>)
        requires
            self.maps_wf(),
            ranges_wf(self.seeds@),
        ensures
            res@ == pipeline_translate_ranges(self.stages(), self.seeds@),
            ranges_wf(res@),
            ranges_nonempty(res@),
    {
        let r1 = self.seed_to_soil.translate_ranges(&self.seeds);
        let r2 = self.soil_to_fertilizer.translate_ranges(&r1);
        let r3 = self.fertilizer_to_water.translate_ranges(&r2);
        let r4 = self.water_to_light.translate_ranges(&r3);
        let r5 = self.light_to_temperature.translate_ranges(&r4);
        let r6 = self.temperature_to_humidity.translate_ranges(&r5);
        let r7 = self.humidity_to_location.translate_ranges(&r6);
        proof {
            lemma_pipeline_translate_ranges_unfold(self.stages(), self.seeds@);
        }
        r7
    }
}

/// Unrolls `pipeline_translate_ranges` over a seven-stage pipeline.
proof fn lemma_pipeline_translate_ranges_unfold(
    stages: Seq<Seq<ResourceTranslationRule>>,
    ranges: Seq<ResourceRange>,
)
    requires
        stages.len() == 7,
    ensures
        pipeline_translate_ranges(stages, ranges) == stage_translate_ranges(
            stages[6],
            stage_translate_ranges(
                stages[5],
                stage_translate_ranges(
                    stages[4],
                    stage_translate_ranges(
                        stages[3],
                        stage_translate_ranges(
                            stages[2],
                            stage_translate_ranges(
                                stages[1],
                                stage_translate_ranges(stages[0], ranges),
                            ),
                        ),
                    ),
                ),
            ),
        ),
{
    reveal_with_fuel(pipeline_translate, 9);
    reveal_with_fuel(pipeline_translate_ranges, 9);
    let s1 = stages.skip(1);
    let s2 = stages.skip(2);
    let s3 = stages.skip(3);
    let s4 = stages.skip(4);
    let s5 = stages.skip(5);
    let s6 = stages.skip(6);
    let s7 = stages.skip(7);
    assert(s1.skip(1) =~= s2);
    assert(s2.skip(1) =~= s3);
    assert(s3.skip(1) =~= s4);
    assert(s4.skip(1) =~= s5);
    assert(s5.skip(1) =~= s6);
    assert(s6.skip(1) =~= s7);
    assert(s7.len() == 0);
    assert(s1[0] == stages[1]);
    assert(s2[0] == stages[2]);
    assert(s3[0] == stages[3]);
    assert(s4[0] == stages[4]);
    assert(s5[0] == stages[5]);
    assert(s6[0] == stages[6]);
}

/// Translating the one-rule-longer prefix appends at most one clipped
/// interval to what the shorter prefix yields.
proof fn lemma_stage_translate_range_take_step(
    rules: Seq<ResourceTranslationRule>,
    g: ResourceRange,
    j: int,
)
    requires
        0 <= j < rules.len(),
    ensures
        stage_translate_range(rules.take(j + 1), g) == if overlaps(g, rules[j]) {
            stage_translate_range(rules.take(j), g) + seq![clip_translate(g, rules[j])]
        } else {
            stage_translate_range(rules.take(j), g)
        },
    decreases j,
{
    if j == 0 {
        assert(rules.take(1).skip(1) =~= Seq::<ResourceTranslationRule>::empty());
        assert(rules.take(0) =~= Seq::<ResourceTranslationRule>::empty());
        assert(rules.take(1)[0] == rules[0]);
        assert(stage_translate_range(Seq::<ResourceTranslationRule>::empty(), g)
            == Seq::<ResourceRange>::empty());
        if overlaps(g, rules[0]) {
            assert(stage_translate_range(rules.take(1), g) =~= Seq::empty()
                + seq![clip_translate(g, rules[0])]);
        }
    } else {
        lemma_stage_translate_range_take_step(rules.skip(1), g, j - 1);
        assert(rules.take(j + 1).skip(1) =~= rules.skip(1).take(j));
        assert(rules.take(j).skip(1) =~= rules.skip(1).take(j - 1));
        assert(rules.take(j + 1)[0] == rules[0]);
        assert(rules.take(j)[0] == rules[0]);
        assert(rules.skip(1)[j - 1] == rules[j]);
        if overlaps(g, rules[j]) {
            if overlaps(g, rules[0]) {
                assert(seq![clip_translate(g, rules[0])] + (stage_translate_range(
                    rules.skip(1).take(j - 1),
                    g,
                ) + seq![clip_translate(g, rules[j])]) =~= (seq![clip_translate(g, rules[0])]
                    + stage_translate_range(rules.skip(1).take(j - 1), g)) + seq![
                    clip_translate(g, rules[j]),
                ]);
            }
        }
    }
}

/// The full rule sequence is its own length-long prefix.
proof fn lemma_stage_translate_range_full(rules: Seq<ResourceTranslationRule>, g: ResourceRange)
    ensures
        stage_translate_range(rules.take(rules.len() as int), g) == stage_translate_range(
            rules,
            g,
        ),
{
    assert(rules.take(rules.len() as int) =~= rules);
}

/// Translating the one-interval-longer prefix appends that interval's
/// translated pieces to what the shorter prefix yields.
proof fn lemma_stage_translate_ranges_take_step(
    rules: Seq<ResourceTranslationRule>,
    ranges: Seq<ResourceRange>,
    i: int,
)
    requires
        0 <= i < ranges.len(),
    ensures
        stage_translate_ranges(rules, ranges.take(i + 1)) == stage_translate_ranges(
            rules,
            ranges.take(i),
        ) + stage_translate_range(rules, ranges[i]),
    decreases i,
{
    if i == 0 {
        assert(ranges.take(1).skip(1) =~= Seq::<ResourceRange>::empty());
        assert(ranges.take(0) =~= Seq::<ResourceRange>::empty());
        assert(ranges.take(1)[0] == ranges[0]);
        assert(stage_translate_ranges(rules, Seq::<ResourceRange>::empty())
            == Seq::<ResourceRange>::empty());
        assert(stage_translate_ranges(rules, ranges.take(1)) =~= Seq::empty()
            + stage_translate_range(rules, ranges[0]));
    } else {
        lemma_stage_translate_ranges_take_step(rules, ranges.skip(1), i - 1);
        assert(ranges.take(i + 1).skip(1) =~= ranges.skip(1).take(i));
        assert(ranges.take(i).skip(1) =~= ranges.skip(1).take(i - 1));
        assert(ranges.take(i + 1)[0] == ranges[0]);
        assert(ranges.take(i)[0] == ranges[0]);
        assert(ranges.skip(1)[i - 1] == ranges[i]);
        assert(stage_translate_range(rules, ranges[0]) + (stage_translate_ranges(
            rules,
            ranges.skip(1).take(i - 1),
        ) + stage_translate_range(rules, ranges[i])) =~= (stage_translate_range(rules, ranges[0])
            + stage_translate_ranges(rules, ranges.skip(1).take(i - 1))) + stage_translate_range(
            rules,
            ranges[i],
        ));
    }
}


/// A rule line: three space-separated decimal numbers (destination start,
/// source start, length) whose parsed values form a well-formed rule.
pub open spec fn wf_rule_line(line: Seq<char>) -> bool {
    let toks = crate::text::split_by(line, seq![' ']);
    &&& toks.len() >= 3
    &&& crate::text::wf_u64_token(toks[0])
    &&& crate::text::wf_u64_token(toks[1])
    &&& crate::text::wf_u64_token(toks[2])
    &&& crate::text::dec_val(toks[1]) + crate::text::dec_val(toks[2]) <= u64::MAX
    &&& crate::text::dec_val(toks[0]) + crate::text::dec_val(toks[2]) <= u64::MAX
}

/// The rule a well-formed line denotes.
pub open spec fn spec_rule_from_line(line: Seq<char>) -> ResourceTranslationRule {
    let toks = crate::text::split_by(line, seq![' ']);
    ResourceTranslationRule {
        destination_from: crate::text::dec_val(toks[0]) as u64,
        source_from: crate::text::dec_val(toks[1]) as u64,
        len: crate::text::dec_val(toks[2]) as u64,
    }
}

/// Every line after the first is a well-formed rule line.
pub open spec fn wf_rule_lines(s: Seq<char>) -> bool {
    let lines = crate::text::split_by(s, seq!['\n']);
    forall|i: int| 1 <= i < lines.len() ==> wf_rule_line(#[trigger] lines[i])
}

impl ResourceTranslationRule {
    /// Parses one rule line.
    pub fn from_line(line: &str) -> (r: ResourceTranslationRule)
        requires
            wf_rule_line(line@),
        ensures
            r == spec_rule_from_line(line@),
            rule_wf(r),
    {
        proof {
            reveal_strlit(" ");
            assert(" "@ =~= seq![' ']);
        }
        let toks = crate::text::split_str(line, " ");
        ResourceTranslationRule {
            destination_from: crate::text::parse_u64(toks[0]),
            source_from: crate::text::parse_u64(toks[1]),
            len: crate::text::parse_u64(toks[2]),
        }
    }

    /// Parses one rule line, rejecting malformed input.
    pub fn checked_from_line(line: &str) -> (r: Option<ResourceTranslationRule>)
        ensures
            r is Some <==> wf_rule_line(line@),
            r is Some ==> r->Some_0 == spec_rule_from_line(line@) && rule_wf(r->Some_0),
    {
        proof {
            reveal_strlit(" ");
            assert(" "@ =~= seq![' ']);
        }
        let toks = crate::text::split_str(line, " ");
        if toks.len() < 3 {
            return None;
        }
        let dest = match crate::text::checked_parse_u64(toks[0]) {
            Some(v) => v,
            None => {
                return None;
            },
        };
        let src = match crate::text::checked_parse_u64(toks[1]) {
            Some(v) => v,
            None => {
                return None;
            },
        };
        let len = match crate::text::checked_parse_u64(toks[2]) {
            Some(v) => v,
            None => {
                return None;
            },
        };
        if u64::MAX - len < src || u64::MAX - len < dest {
            return None;
        }
        Some(
            ResourceTranslationRule {
                destination_from: dest,
                source_from: src,
                len,
            },
        )
    }
}

impl ResourceMap {
    /// Parses one stage: a header line followed by one rule per line.
    pub fn from_lines(lines: &str) -> (r: ResourceMap)
        requires
            wf_rule_lines(lines@),
        ensures
            ({
                let toks = crate::text::split_by(lines@, seq!['\n']);
                &&& r.rules@.len() == toks.len() - 1
                &&& forall|i: int|
                    0 <= i < r.rules@.len() ==> r.rules@[i] == spec_rule_from_line(
                        #[trigger] toks[i + 1],
                    )
            }),
            rules_wf(r.rules@),
    {
        proof {
            reveal_strlit("\n");
            assert("\n"@ =~= seq!['\n']);
        }
        let toks = crate::text::split_str(lines, "\n");
        let mut rules: Vec<ResourceTranslationRule> = Vec::new();
        let n = toks.len();
        for i in 1..n
            invariant
                n == toks.len(),
                toks@.map_values(|t: &str| t@) == crate::text::split_by(lines@, seq!['\n']),
                wf_rule_lines(lines@),
                rules@.len() == i - 1,
                forall|k: int|
                    0 <= k < rules@.len() ==> rules@[k] == spec_rule_from_line(
                        #[trigger] crate::text::split_by(lines@, seq!['\n'])[k + 1],
                    ),
                rules_wf(rules@),
        {
            proof {
                assert(toks@.map_values(|t: &str| t@)[i as int] == toks@[i as int]@);
            }
            rules.push(ResourceTranslationRule::from_line(toks[i]));
        }
        ResourceMap { rules }
    }

    /// Parses one stage, rejecting malformed input.
    pub fn checked_from_lines(lines: &str) -> (r: Option<ResourceMap>)
        ensures
            r is Some <==> wf_rule_lines(lines@),
            r is Some ==> ({
                let toks = crate::text::split_by(lines@, seq!['\n']);
                &&& r->Some_0.rules@.len() == toks.len() - 1
                &&& forall|i: int|
                    0 <= i < r->Some_0.rules@.len() ==> r->Some_0.rules@[i] == spec_rule_from_line(
                        #[trigger] toks[i + 1],
                    )
                &&& rules_wf(r->Some_0.rules@)
            }),
    {
        proof {
            reveal_strlit("\n");
            assert("\n"@ =~= seq!['\n']);
        }
        let toks = crate::text::split_str(lines, "\n");
        let mut rules: Vec<ResourceTranslationRule> = Vec::new();
        let n = toks.len();
        for i in 1..n
            invariant
                n == toks.len(),
                toks@.map_values(|t: &str| t@) == crate::text::split_by(lines@, seq!['\n']),
                rules@.len() == i - 1,
                forall|k: int|
                    1 <= k < i ==> wf_rule_line(
                        #[trigger] crate::text::split_by(lines@, seq!['\n'])[k],
                    ),
                forall|k: int|
                    0 <= k < rules@.len() ==> rules@[k] == spec_rule_from_line(
                        #[trigger] crate::text::split_by(lines@, seq!['\n'])[k + 1],
                    ),
                rules_wf(rules@),
        {
            proof {
                assert(toks@.map_values(|t: &str| t@)[i as int] == toks@[i as int]@);
            }
            match ResourceTranslationRule::checked_from_line(toks[i]) {
                Some(rule) => {
                    rules.push(rule);
                },
                None => {
                    return None;
                },
            }
        }
        Some(ResourceMap { rules })
    }
}


/// A seed line: a 7-character header followed by space-separated decimal
/// numbers.
pub open spec fn wf_seed_list(line: Seq<char>) -> bool {
    &&& line.len() >= 7
    &&& ({
        let toks = crate::text::split_by(line.skip(7), seq![' ']);
        forall|i: int| 0 <= i < toks.len() ==> crate::text::wf_u64_token(#[trigger] toks[i])
    })
}

/// The numbers a well-formed seed line denotes, in order.
pub open spec fn spec_seed_values(line: Seq<char>) -> Seq<int> {
    crate::text::split_by(line.skip(7), seq![' ']).map_values(|t: Seq<char>| crate::text::dec_val(t))
}

/// Adjacent pairs of seed numbers form representable intervals.
pub open spec fn wf_seed_pairs(line: Seq<char>) -> bool {
    let vals = spec_seed_values(line);
    forall|k: int|
        0 <= k && 2 * k + 1 < vals.len() ==> #[trigger] vals[2 * k] + vals[2 * k + 1] <= u64::MAX
}

/// Parses the numbers of a seed line.
fn parse_seed_values(line: &str) -> (r: Vec<u64>)
    requires
        wf_seed_list(line@),
    ensures
        r@.len() == spec_seed_values(line@).len(),
        forall|i: int| 0 <= i < r@.len() ==> r@[i] == spec_seed_values(line@)[i],
{
    proof {
        reveal_strlit(" ");
        assert(" "@ =~= seq![' ']);
    }
    let ll = line.unicode_len();
    let tail = line.substring_char(7, ll);
    proof {
        assert(tail@ =~= line@.skip(7));
    }
    let toks = crate::text::split_str(tail, " ");
    let mut r: Vec<u64> = Vec::new();
    let n = toks.len();
    for i in 0..n
        invariant
            n == toks.len(),
            toks@.map_values(|t: &str| t@) == crate::text::split_by(line@.skip(7), seq![' ']),
            wf_seed_list(line@),
            r@.len() == i,
            forall|k: int| 0 <= k < i ==> r@[k] == spec_seed_values(line@)[k],
    {
        proof {
            assert(toks@.map_values(|t: &str| t@)[i as int] == toks@[i as int]@);
            assert(spec_seed_values(line@)[i as int] == crate::text::dec_val(toks@[i as int]@));
        }
        r.push(crate::text::parse_u64(toks[i]));
    }
    r
}

/// Reads a seed line as a list of individual seed values.
pub fn basic_seed_reader(line: &str) -> (r: Vec<u64>)
    requires
        wf_seed_list(line@),
    ensures
        r@.len() == spec_seed_values(line@).len(),
        forall|i: int| 0 <= i < r@.len() ==> r@[i] == spec_seed_values(line@)[i],
{
    parse_seed_values(line)
}

/// Reads a seed line as a list of intervals: each pair of numbers is a
/// start and a length; a trailing unpaired number is ignored.
pub fn range_seed_reader(line: &str) -> (r: Vec<ResourceRange>)
    requires
        wf_seed_list(line@),
        wf_seed_pairs(line@),
    ensures
        r@.len() == spec_seed_values(line@).len() / 2,
        forall|k: int|
            0 <= k < r@.len() ==> (#[trigger] r@[k]).from == spec_seed_values(line@)[2 * k]
                && r@[k].len == spec_seed_values(line@)[2 * k + 1],
        ranges_wf(r@),
{
    let vals = parse_seed_values(line);
    let mut r: Vec<ResourceRange> = Vec::new();
    let pairs = vals.len() / 2;
    for k in 0..pairs
        invariant
            vals@.len() <= usize::MAX,
            pairs == vals@.len() / 2,
            vals@.len() == spec_seed_values(line@).len(),
            forall|i: int| 0 <= i < vals@.len() ==> vals@[i] == spec_seed_values(line@)[i],
            wf_seed_pairs(line@),
            r@.len() == k,
            forall|j: int|
                0 <= j < k ==> (#[trigger] r@[j]).from == spec_seed_values(line@)[2 * j]
                    && r@[j].len == spec_seed_values(line@)[2 * j + 1],
            ranges_wf(r@),
    {
        proof {
            assert(2 * k + 1 < vals@.len());
            assert(spec_seed_values(line@)[2 * (k as int)] + spec_seed_values(line@)[2 * (
            k as int) + 1] <= u64::MAX);
        }
        r.push(ResourceRange { from: vals[2 * k], len: vals[2 * k + 1] });
    }
    r
}

/// Reads a seed line as individual values, rejecting malformed input.
pub fn checked_basic_seeds(line: &str) -> (r: Option<Vec<u64>>)
    ensures
        r is Some <==> wf_seed_list(line@),
        r is Some ==> ({
            let vals = spec_seed_values(line@);
            &&& r->Some_0@.len() == vals.len()
            &&& forall|i: int| 0 <= i < vals.len() ==> r->Some_0@[i] == vals[i]
        }),
{
    proof {
        reveal_strlit(" ");
        assert(" "@ =~= seq![' ']);
    }
    let ll = line.unicode_len();
    if ll < 7 {
        return None;
    }
    let tail = line.substring_char(7, ll);
    proof {
        assert(tail@ =~= line@.skip(7));
    }
    let toks = crate::text::split_str(tail, " ");
    let mut r: Vec<u64> = Vec::new();
    let n = toks.len();
    for i in 0..n
        invariant
            n == toks.len(),
            line@.len() >= 7,
            toks@.map_values(|t: &str| t@) == crate::text::split_by(line@.skip(7), seq![' ']),
            r@.len() == i,
            forall|k: int|
                0 <= k < i ==> crate::text::wf_u64_token(
                    #[trigger] crate::text::split_by(line@.skip(7), seq![' '])[k],
                ),
            forall|k: int| 0 <= k < i ==> r@[k] == spec_seed_values(line@)[k],
    {
        proof {
            assert(toks@.map_values(|t: &str| t@)[i as int] == toks@[i as int]@);
            assert(spec_seed_values(line@)[i as int] == crate::text::dec_val(toks@[i as int]@));
        }
        match crate::text::checked_parse_u64(toks[i]) {
            Some(v) => {
                r.push(v);
            },
            None => {
                return None;
            },
        }
    }
    Some(r)
}

/// Reads a seed line as intervals, rejecting malformed input and pairs
/// whose upper endpoint would not be representable.
pub fn checked_range_seeds(line: &str) -> (r: Option<Vec<ResourceRange>>)
    ensures
        r is Some <==> wf_seed_list(line@) && wf_seed_pairs(line@),
        r is Some ==> ({
            let vals = spec_seed_values(line@);
            &&& r->Some_0@.len() == vals.len() / 2
            &&& forall|k: int|
                0 <= k < r->Some_0@.len() ==> (#[trigger] r->Some_0@[k]).from == vals[2 * k]
                    && r->Some_0@[k].len == vals[2 * k + 1]
            &&& ranges_wf(r->Some_0@)
        }),
{
    let vals = match checked_basic_seeds(line) {
        Some(v) => v,
        None => {
            return None;
        },
    };
    let mut r: Vec<ResourceRange> = Vec::new();
    let pairs = vals.len() / 2;
    for k in 0..pairs
        invariant
            wf_seed_list(line@),
            vals@.len() <= usize::MAX,
            pairs == vals@.len() / 2,
            vals@.len() == spec_seed_values(line@).len(),
            forall|i: int| 0 <= i < vals@.len() ==> vals@[i] == spec_seed_values(line@)[i],
            r@.len() == k,
            forall|j: int|
                0 <= j < k ==> (#[trigger] r@[j]).from == spec_seed_values(line@)[2 * j]
                    && r@[j].len == spec_seed_values(line@)[2 * j + 1],
            forall|j: int|
                0 <= j < k ==> #[trigger] spec_seed_values(line@)[2 * j] + spec_seed_values(
                    line@,
                )[2 * j + 1] <= u64::MAX,
            ranges_wf(r@),
    {
        proof {
            assert(2 * k + 1 < vals@.len());
        }
        let from = vals[2 * k];
        let len = vals[2 * k + 1];
        if u64::MAX - len < from {
            proof {
                assert(spec_seed_values(line@)[2 * (k as int)] + spec_seed_values(line@)[2 * (
                k as int) + 1] > u64::MAX);
            }
            return None;
        }
        r.push(ResourceRange { from, len });
    }
    proof {
        if !wf_seed_pairs(line@) {
            let bad = choose|k: int|
                0 <= k && 2 * k + 1 < spec_seed_values(line@).len()
                    && #[trigger] spec_seed_values(line@)[2 * k] + spec_seed_values(line@)[2 * k
                    + 1] > u64::MAX;
            assert(bad < pairs);
            assert(false);
        }
    }
    Some(r)
}

/// The smallest start among a list of intervals, if there is one.
pub fn lowest_range_start(ranges: &Vec<ResourceRange>) -> (r: Option<u64>)
    ensures
        r is Some <==> ranges@.len() > 0,
        r is Some ==> r->Some_0 == min_range_start(ranges@),
{
    if ranges.len() == 0 {
        return None;
    }
    let mut m = ranges[0].from;
    let n = ranges.len();
    for i in 1..n
        invariant
            n == ranges@.len(),
            exists|j: int| 0 <= j < i && (#[trigger] ranges@[j]).from == m,
            forall|j: int| 0 <= j < i ==> m <= (#[trigger] ranges@[j]).from,
    {
        if ranges[i].from < m {
            m = ranges[i].from;
        }
    }
    proof {
        crate::almanac_laws::lemma_min_start_props(ranges@);
        let j1 = choose|j: int| 0 <= j < ranges@.len() && (#[trigger] ranges@[j]).from == m;
        let j2 = choose|j: int|
            0 <= j < ranges@.len() && (#[trigger] ranges@[j]).from == min_range_start(ranges@);
        assert(m <= ranges@[j2].from);
        assert(min_range_start(ranges@) <= ranges@[j1].from);
    }
    Some(m)
}

impl Almanac<u64> {
    /// The smallest location any single seed translates to, if there are
    /// seeds at all.
    pub fn min_seed_location(&self) -> (r: Option<u64>)
        requires
            self.maps_wf(),
        ensures
            r is Some <==> self.seeds@.len() > 0,
            r is Some ==> ({
                &&& exists|i: int|
                    0 <= i < self.seeds@.len() && pipeline_translate(
                        self.stages(),
                        #[trigger] self.seeds@[i],
                    ) == r->Some_0
                &&& forall|i: int|
                    0 <= i < self.seeds@.len() ==> pipeline_translate(
                        self.stages(),
                        #[trigger] self.seeds@[i],
                    ) >= r->Some_0
            }),
    {
        if self.seeds.len() == 0 {
            return None;
        }
        let first = self.seed_to_location(self.seeds[0]);
        let mut m = first;
        let n = self.seeds.len();
        for i in 1..n
            invariant
                n == self.seeds@.len(),
                self.maps_wf(),
                exists|j: int|
                    0 <= j < i && pipeline_translate(self.stages(), #[trigger] self.seeds@[j])
                        == m,
                forall|j: int|
                    0 <= j < i ==> pipeline_translate(self.stages(), #[trigger] self.seeds@[j])
                        >= m,
        {
            let loc = self.seed_to_location(self.seeds[i]);
            if loc < m {
                m = loc;
            }
        }
        Some(m)
    }
}

} // verus!
