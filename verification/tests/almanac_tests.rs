use advent_puzzles::almanac::basic_seed_reader;
use advent_puzzles::almanac::checked_basic_seeds;
use advent_puzzles::almanac::checked_range_seeds;
use advent_puzzles::almanac::lowest_range_start;
use advent_puzzles::almanac::range_seed_reader;
use advent_puzzles::almanac::Almanac;
use advent_puzzles::almanac::ResourceMap;
use advent_puzzles::almanac::ResourceRange;
use advent_puzzles::almanac::ResourceTranslationRule;

fn rule(dest: u64, src: u64, len: u64) -> ResourceTranslationRule {
    ResourceTranslationRule { destination_from: dest, source_from: src, len }
}

fn stage(rules: Vec<ResourceTranslationRule>) -> ResourceMap {
    ResourceMap { rules }
}

fn example_almanac(seeds: Vec<u64>) -> Almanac<u64> {
    Almanac {
        seeds,
        seed_to_soil: stage(vec![rule(50, 98, 2), rule(52, 50, 48)]),
        soil_to_fertilizer: stage(vec![rule(0, 15, 37), rule(37, 52, 2), rule(39, 0, 15)]),
        fertilizer_to_water: stage(vec![
            rule(49, 53, 8),
            rule(0, 11, 42),
            rule(42, 0, 7),
            rule(57, 7, 4),
        ]),
        water_to_light: stage(vec![rule(88, 18, 7), rule(18, 25, 70)]),
        light_to_temperature: stage(vec![rule(45, 77, 23), rule(81, 45, 19), rule(68, 64, 13)]),
        temperature_to_humidity: stage(vec![rule(0, 69, 1), rule(1, 0, 69)]),
        humidity_to_location: stage(vec![rule(60, 56, 37), rule(56, 93, 4)]),
    }
}

fn example_range_almanac(seeds: Vec<ResourceRange>) -> Almanac<ResourceRange> {
    let base = example_almanac(vec![]);
    Almanac {
        seeds,
        seed_to_soil: base.seed_to_soil,
        soil_to_fertilizer: base.soil_to_fertilizer,
        fertilizer_to_water: base.fertilizer_to_water,
        water_to_light: base.water_to_light,
        light_to_temperature: base.light_to_temperature,
        temperature_to_humidity: base.temperature_to_humidity,
        humidity_to_location: base.humidity_to_location,
    }
}

#[test]
fn rule_has_resource_boundaries() {
    let r = rule(50, 98, 2);
    assert!(!r.has_resource(97));
    assert!(r.has_resource(98));
    assert!(r.has_resource(99));
    assert!(!r.has_resource(100));
}

#[test]
fn rule_translate_offsets() {
    let r = rule(50, 98, 2);
    assert_eq!(r.translate(98), 50);
    assert_eq!(r.translate(99), 51);
}

#[test]
fn stage_translate_out_of_range_passes_through() {
    let m = stage(vec![rule(50, 98, 2)]);
    assert_eq!(m.translate(98), 50);
    assert_eq!(m.translate(99), 51);
    assert_eq!(m.translate(100), 100);
    assert_eq!(m.translate(10), 10);
}

#[test]
fn interval_inside_one_rule_shifts_whole() {
    let m = stage(vec![rule(52, 50, 48)]);
    let input = vec![ResourceRange { from: 79, len: 14 }];
    let out = m.translate_ranges(&input);
    assert_eq!(out.len(), 1);
    assert_eq!(out[0].from, 81);
    assert_eq!(out[0].len, 14);
}

#[test]
fn partial_overlap_drops_uncovered_tail() {
    let m = stage(vec![rule(52, 50, 48)]);
    let input = vec![ResourceRange { from: 95, len: 5 }];
    let out = m.translate_ranges(&input);
    assert_eq!(out.len(), 1);
    assert_eq!(out[0].from, 97);
    assert_eq!(out[0].len, 3);
}

#[test]
fn touching_rule_emits_nothing() {
    let m = stage(vec![rule(0, 10, 5)]);
    let input = vec![ResourceRange { from: 15, len: 3 }];
    let out = m.translate_ranges(&input);
    assert_eq!(out.len(), 0);
}

#[test]
fn identity_stage_keeps_intervals() {
    let m = stage(vec![rule(0, 0, 1000)]);
    let input = vec![
        ResourceRange { from: 79, len: 14 },
        ResourceRange { from: 55, len: 13 },
    ];
    let out = m.translate_ranges(&input);
    assert_eq!(out.len(), 2);
    assert_eq!(out[0].from, 79);
    assert_eq!(out[0].len, 14);
    assert_eq!(out[1].from, 55);
    assert_eq!(out[1].len, 13);
}

#[test]
fn stage_order_matters() {
    // Stage A moves [0,10) up by 100; stage B moves [100,110) down to 0.
    let a = stage(vec![rule(100, 0, 10)]);
    let b = stage(vec![rule(0, 100, 10)]);
    // A then B: 5 -> 105 -> 5.
    assert_eq!(b.translate(a.translate(5)), 5);
    // B then A: 5 -> 5 -> 105.
    assert_eq!(a.translate(b.translate(5)), 105);
}

#[test]
fn example_seed_locations() {
    let almanac = example_almanac(vec![79, 14, 55, 13]);
    assert_eq!(almanac.seed_to_location(79), 82);
    assert_eq!(almanac.seed_to_location(14), 43);
    assert_eq!(almanac.seed_to_location(55), 86);
    assert_eq!(almanac.seed_to_location(13), 35);
    assert_eq!(almanac.min_seed_location(), Some(35));
}

#[test]
fn example_range_locations_drop_uncovered() {
    // The example pipeline's later stages do not cover the intervals the
    // first stage emits, and uncovered portions are dropped rather than
    // passed through, so nothing survives the whole pipeline.
    let almanac = example_range_almanac(vec![
        ResourceRange { from: 79, len: 14 },
        ResourceRange { from: 55, len: 13 },
    ]);
    let out = almanac.get_location_ranges();
    assert_eq!(lowest_range_start(&out), None);
}

fn covering_almanac(seeds: Vec<ResourceRange>) -> Almanac<ResourceRange> {
    // Every stage covers [0, 200), so no interval is ever dropped.
    Almanac {
        seeds,
        seed_to_soil: stage(vec![rule(100, 0, 50), rule(0, 50, 150)]),
        soil_to_fertilizer: stage(vec![rule(30, 0, 100), rule(100, 100, 100)]),
        fertilizer_to_water: stage(vec![rule(0, 0, 200)]),
        water_to_light: stage(vec![rule(50, 0, 150), rule(0, 150, 50)]),
        light_to_temperature: stage(vec![rule(0, 0, 200)]),
        temperature_to_humidity: stage(vec![rule(7, 0, 193), rule(0, 193, 7)]),
        humidity_to_location: stage(vec![rule(0, 0, 200)]),
    }
}

#[test]
fn min_of_outputs_matches_exhaustive_scalar_min() {
    // Cross-check on a fully covering pipeline: the smallest output start
    // equals the smallest scalar translation over every seed value.
    let seeds = vec![
        ResourceRange { from: 10, len: 20 },
        ResourceRange { from: 60, len: 5 },
        ResourceRange { from: 155, len: 40 },
    ];
    let almanac = covering_almanac(seeds.clone());
    let out = almanac.get_location_ranges();
    let interval_min = lowest_range_start(&out).unwrap();
    let scalar = covering_almanac(vec![]);
    let mut scalar_min = u64::MAX;
    for r in &seeds {
        for v in r.from..r.from + r.len {
            let a = Almanac {
                seeds: vec![v],
                seed_to_soil: stage(scalar.seed_to_soil.rules.clone()),
                soil_to_fertilizer: stage(scalar.soil_to_fertilizer.rules.clone()),
                fertilizer_to_water: stage(scalar.fertilizer_to_water.rules.clone()),
                water_to_light: stage(scalar.water_to_light.rules.clone()),
                light_to_temperature: stage(scalar.light_to_temperature.rules.clone()),
                temperature_to_humidity: stage(scalar.temperature_to_humidity.rules.clone()),
                humidity_to_location: stage(scalar.humidity_to_location.rules.clone()),
            };
            scalar_min = scalar_min.min(a.seed_to_location(v));
        }
    }
    assert_eq!(interval_min, scalar_min);
}

#[test]
fn rule_from_line_parses_three_numbers() {
    let r = ResourceTranslationRule::from_line("50 98 2");
    assert_eq!(r.destination_from, 50);
    assert_eq!(r.source_from, 98);
    assert_eq!(r.len, 2);
}

#[test]
fn checked_rule_from_line_rejects_bad_input() {
    assert!(ResourceTranslationRule::checked_from_line("50 98 2").is_some());
    assert!(ResourceTranslationRule::checked_from_line("50 98").is_none());
    assert!(ResourceTranslationRule::checked_from_line("a b c").is_none());
    assert!(ResourceTranslationRule::checked_from_line("").is_none());
    assert!(
        ResourceTranslationRule::checked_from_line("1 99999999999999999999 3").is_none()
    );
    assert!(
        ResourceTranslationRule::checked_from_line("5 18446744073709551615 2").is_none()
    );
}

#[test]
fn map_from_lines_skips_header() {
    let m = ResourceMap::from_lines("seed-to-soil map:\n50 98 2\n52 50 48");
    assert_eq!(m.rules.len(), 2);
    assert_eq!(m.rules[0].destination_from, 50);
    assert_eq!(m.rules[1].source_from, 50);
    assert_eq!(m.translate(98), 50);
    assert_eq!(m.translate(53), 55);
    assert_eq!(m.translate(10), 10);
}

#[test]
fn checked_map_from_lines_rejects_bad_rule() {
    assert!(ResourceMap::checked_from_lines("header:\n50 98 2").is_some());
    assert!(ResourceMap::checked_from_lines("header:\n50 98").is_none());
}

#[test]
fn basic_seed_reader_reads_values() {
    let seeds = basic_seed_reader("seeds: 79 14 55 13");
    assert_eq!(seeds, vec![79, 14, 55, 13]);
}

#[test]
fn range_seed_reader_pairs_values() {
    let ranges = range_seed_reader("seeds: 79 14 55 13");
    assert_eq!(ranges.len(), 2);
    assert_eq!(ranges[0].from, 79);
    assert_eq!(ranges[0].len, 14);
    assert_eq!(ranges[1].from, 55);
    assert_eq!(ranges[1].len, 13);
}

#[test]
fn range_seed_reader_ignores_trailing_unpaired_value() {
    let ranges = range_seed_reader("seeds: 79 14 55");
    assert_eq!(ranges.len(), 1);
    assert_eq!(ranges[0].from, 79);
    assert_eq!(ranges[0].len, 14);
}

#[test]
fn checked_seed_readers_reject_bad_input() {
    assert!(checked_basic_seeds("seeds: 79 14").is_some());
    assert!(checked_basic_seeds("seeds: 79 x").is_none());
    assert!(checked_basic_seeds("short").is_none());
    assert!(checked_range_seeds("seeds: 79 14").is_some());
    assert!(checked_range_seeds("seeds: 1 18446744073709551615").is_none());
}

#[test]
fn lowest_range_start_of_empty_is_none() {
    assert_eq!(lowest_range_start(&vec![]), None);
    let one = vec![ResourceRange { from: 7, len: 2 }];
    assert_eq!(lowest_range_start(&one), Some(7));
}

#[test]
fn min_seed_location_of_empty_is_none() {
    let almanac = example_almanac(vec![]);
    assert_eq!(almanac.min_seed_location(), None);
}
