use interval_mapping::almanac::{parse_seeds, parse_stages, seed_ranges};
use interval_mapping::parse::MalformedRuleError;
use interval_mapping::resolver::{compose_chain, resolve_many, resolve_many_ranges, resolve_point};

const SAMPLE: &str = "seeds: 79 14 55 13

seed-to-soil map:
50 98 2
52 50 48

soil-to-fertilizer map:
0 15 37
37 52 2
39 0 15

fertilizer-to-water map:
49 53 8
0 11 42
42 0 7
57 7 4

water-to-light map:
88 18 7
18 25 70

light-to-temperature map:
45 77 23
81 45 19
68 64 13

temperature-to-humidity map:
0 69 1
1 0 69

humidity-to-location map:
60 56 37
56 93 4";

fn lines(text: &str) -> Vec<String> {
    text.lines().map(|l| l.to_owned()).collect()
}

#[test]
fn seeds_follow_their_label() {
    assert_eq!(parse_seeds("seeds: 79 14 55 13"), Some(vec![79, 14, 55, 13]));
    assert_eq!(parse_seeds("seeds:"), Some(vec![]));
    assert_eq!(parse_seeds(""), Some(vec![]));
    assert_eq!(parse_seeds("7 8 9"), Some(vec![8, 9]));
}

#[test]
fn seeds_must_be_numbers() {
    assert_eq!(parse_seeds("seeds: 79 x 55"), None);
    assert_eq!(parse_seeds("seeds: -1"), None);
    assert_eq!(parse_seeds("seeds: 1 99999999999999999999999999"), None);
}

#[test]
fn seeds_pair_up_into_ranges() {
    assert_eq!(seed_ranges(&[79, 14, 55, 13]), Some(vec![79..93, 55..68]));
    assert_eq!(seed_ranges(&[]), Some(vec![]));
    assert_eq!(seed_ranges(&[5, 0]), Some(vec![5..5]));
}

#[test]
fn seed_left_over_counts_for_nothing() {
    assert_eq!(seed_ranges(&[79, 14, 55]), Some(vec![79..93]));
    assert_eq!(seed_ranges(&[79]), Some(vec![]));
}

#[test]
fn seed_range_must_fit() {
    assert_eq!(seed_ranges(&[usize::MAX, 1]), None);
    assert_eq!(seed_ranges(&[1, 2, 2, usize::MAX]), None);
    assert_eq!(seed_ranges(&[usize::MAX, 0]), Some(vec![usize::MAX..usize::MAX]));
    assert_eq!(seed_ranges(&[1, usize::MAX - 1]), Some(vec![1..usize::MAX]));
}

#[test]
fn stages_come_from_the_blocks_behind_the_seeds() {
    let stages = parse_stages(&lines(SAMPLE)).unwrap();
    assert_eq!(stages.len(), 7);
    assert_eq!(stages[0].len(), 2);
    assert_eq!(stages[2].len(), 4);
    assert_eq!(stages[0].resolve(79), 81);
    assert_eq!(stages[1].resolve(81), 81);
    assert_eq!(stages[6].resolve(78), 82);
}

#[test]
fn sample_answers() {
    let text = lines(SAMPLE);
    let seeds = parse_seeds(&text[0]).unwrap();
    let stages = parse_stages(&text).unwrap();
    let combined = compose_chain(&stages);
    assert_eq!(resolve_many(&seeds, &combined), Some(35));
    let ranges = seed_ranges(&seeds).unwrap();
    assert_eq!(resolve_many_ranges(&ranges, &combined), Some(46));
    for seed in seeds {
        assert_eq!(combined.resolve(seed), resolve_point(seed, &stages));
    }
}

#[test]
fn text_without_blank_line_has_no_stages() {
    assert_eq!(parse_stages(&lines("seeds: 1 2\nheading\n1 2 3")).unwrap().len(), 0);
    assert_eq!(parse_stages(&[]).unwrap().len(), 0);
}

#[test]
fn blank_lines_in_a_row_make_no_stage() {
    let stages = parse_stages(&lines("seeds: 1\n\n\n\na:\n5 0 2\n\n\nb:\n\n")).unwrap();
    assert_eq!(stages.len(), 2);
    assert_eq!(stages[0].resolve(1), 6);
    assert!(stages[1].is_empty());
}

#[test]
fn heading_of_a_block_is_not_read() {
    let stages = parse_stages(&lines("\n1 2 3\n10 0 5")).unwrap();
    assert_eq!(stages.len(), 1);
    assert_eq!(stages[0].len(), 1);
    assert_eq!(stages[0].resolve(2), 12);
}

#[test]
fn first_block_is_never_a_stage() {
    let stages = parse_stages(&lines("heading\n10 0 5\n\nnext:\n20 0 5")).unwrap();
    assert_eq!(stages.len(), 1);
    assert_eq!(stages[0].resolve(0), 20);
}

#[test]
fn malformed_rule_stops_the_reading() {
    assert_eq!(
        parse_stages(&lines("seeds: 1\n\na:\n5 0 2\n\nb:\n1 2\n\nc:\nx y z")),
        Err(MalformedRuleError::FieldCount)
    );
    assert_eq!(
        parse_stages(&lines("seeds: 1\n\na:\n5 0 2\n \n")),
        Err(MalformedRuleError::FieldCount)
    );
}
