use interval_mapping::{MappingRule, MappingStage, Segment};

fn rule(dest_start: usize, source_start: usize, source_end: usize) -> MappingRule {
    MappingRule::new(dest_start, source_start, source_end - source_start).unwrap()
}

fn stage(rules: &[MappingRule]) -> MappingStage {
    let mut stage = MappingStage::new();
    for r in rules {
        stage.insert(*r);
    }
    stage
}

fn assert_sorted_and_disjoint(stage: &MappingStage) {
    let rules = stage.rules();
    for r in &rules {
        assert!(r.source_start() < r.source_end());
    }
    for pair in rules.windows(2) {
        assert!(pair[0].source_end() <= pair[1].source_start());
    }
}

#[test]
fn empty_stage_is_the_identity() {
    let stage = MappingStage::new();
    assert!(stage.is_empty());
    assert_eq!(stage.len(), 0);
    for n in 0..200 {
        assert_eq!(stage.resolve(n), n);
    }
    assert_eq!(stage.resolve(usize::MAX), usize::MAX);
}

#[test]
fn stage_resolves_through_the_covering_rule() {
    let stage = stage(&[rule(50, 98, 100), rule(52, 50, 98)]);
    assert_eq!(stage.resolve(98), 50);
    assert_eq!(stage.resolve(99), 51);
    assert_eq!(stage.resolve(50), 52);
    assert_eq!(stage.resolve(97), 99);
    assert_eq!(stage.resolve(79), 81);
    assert_eq!(stage.resolve(14), 14);
    assert_eq!(stage.resolve(55), 57);
    assert_eq!(stage.resolve(13), 13);
}

#[test]
fn stage_falls_back_to_the_identity() {
    let stage = stage(&[rule(50, 98, 100), rule(52, 50, 98), rule(7, 200, 210)]);
    for n in (0..50).chain(100..200).chain(210..400) {
        assert_eq!(stage.resolve(n), n);
    }
    assert_eq!(stage.resolve(100), 100);
    assert_eq!(stage.resolve(usize::MAX), usize::MAX);
}

#[test]
fn stage_keeps_its_rules_in_source_order() {
    let stage = stage(&[rule(50, 98, 100), rule(7, 200, 210), rule(52, 50, 98)]);
    assert_eq!(stage.len(), 3);
    assert!(!stage.is_empty());
    assert_eq!(stage.rules(), vec![rule(52, 50, 98), rule(50, 98, 100), rule(7, 200, 210)]);
    assert_eq!(stage.rule(0), rule(52, 50, 98));
    assert_eq!(stage.rule(2), rule(7, 200, 210));
    assert_sorted_and_disjoint(&stage);
}

#[test]
fn insertion_order_of_disjoint_rules_does_not_matter() {
    let rules =
        [rule(0, 15, 50), rule(35, 98, 100), rule(37, 50, 52), rule(54, 52, 98), rule(39, 0, 15)];
    let reference = stage(&rules);
    let orders: [[usize; 5]; 6] = [
        [4, 3, 2, 1, 0],
        [2, 0, 4, 1, 3],
        [1, 3, 0, 2, 4],
        [3, 4, 1, 0, 2],
        [0, 2, 4, 3, 1],
        [4, 0, 3, 1, 2],
    ];
    for order in orders {
        let mut shuffled = MappingStage::new();
        for k in order {
            shuffled.insert(rules[k]);
        }
        assert_eq!(shuffled, reference);
    }
}

#[test]
fn later_rule_takes_over_what_it_shares() {
    let stage = stage(&[rule(100, 0, 10), rule(500, 5, 15)]);
    assert_eq!(stage.rules(), vec![rule(100, 0, 5), rule(500, 5, 15)]);
    assert_eq!(stage.resolve(4), 104);
    assert_eq!(stage.resolve(5), 500);
    assert_eq!(stage.resolve(14), 509);
    assert_sorted_and_disjoint(&stage);
}

#[test]
fn later_rule_splits_a_rule_that_reaches_past_it() {
    let stage = stage(&[rule(100, 0, 10), rule(500, 3, 5)]);
    assert_eq!(stage.rules(), vec![rule(100, 0, 3), rule(500, 3, 5), rule(105, 5, 10)]);
    assert_eq!(stage.resolve(2), 102);
    assert_eq!(stage.resolve(3), 500);
    assert_eq!(stage.resolve(4), 501);
    assert_eq!(stage.resolve(5), 105);
    assert_eq!(stage.resolve(9), 109);
    assert_sorted_and_disjoint(&stage);
}

#[test]
fn later_rule_replaces_rules_that_it_covers() {
    let stage = stage(&[rule(100, 2, 4), rule(200, 6, 8), rule(300, 9, 20), rule(0, 1, 10)]);
    assert_eq!(stage.rules(), vec![rule(0, 1, 10), rule(301, 10, 20)]);
    assert_eq!(stage.resolve(2), 1);
    assert_eq!(stage.resolve(9), 8);
    assert_eq!(stage.resolve(10), 301);
    assert_sorted_and_disjoint(&stage);
}

#[test]
fn same_rule_twice_is_stored_once() {
    let stage = stage(&[rule(50, 98, 100), rule(50, 98, 100)]);
    assert_eq!(stage.rules(), vec![rule(50, 98, 100)]);
}

#[test]
fn clone_is_an_equal_stage() {
    let stage = stage(&[rule(50, 98, 100), rule(52, 50, 98)]);
    let copy = stage.clone();
    assert_eq!(copy, stage);
    assert_eq!(copy.resolve(99), 51);
}

#[test]
fn segments_of_an_empty_window() {
    let stage = stage(&[rule(50, 98, 100)]);
    assert_eq!(stage.segments(10, 10), vec![]);
    assert_eq!(stage.segments(99, 98), vec![]);
}

#[test]
fn segments_of_a_window_without_rules() {
    let stage = stage(&[rule(50, 98, 100)]);
    assert_eq!(
        stage.segments(10, 20),
        vec![Segment { start: 10, end: 20, image: 10, covered: false }]
    );
    assert_eq!(
        MappingStage::new().segments(0, usize::MAX),
        vec![Segment { start: 0, end: usize::MAX, image: 0, covered: false }]
    );
}

#[test]
fn segments_of_a_window_within_one_rule() {
    let stage = stage(&[rule(52, 50, 98)]);
    assert_eq!(
        stage.segments(60, 70),
        vec![Segment { start: 60, end: 70, image: 62, covered: true }]
    );
}

#[test]
fn segments_divide_at_every_rule_border() {
    let stage = stage(&[rule(0, 15, 52), rule(37, 52, 54), rule(39, 0, 15), rule(7, 60, 70)]);
    assert_eq!(
        stage.segments(10, 65),
        vec![
            Segment { start: 10, end: 15, image: 49, covered: true },
            Segment { start: 15, end: 52, image: 0, covered: true },
            Segment { start: 52, end: 54, image: 37, covered: true },
            Segment { start: 54, end: 60, image: 54, covered: false },
            Segment { start: 60, end: 65, image: 7, covered: true },
        ]
    );
}

#[test]
fn segments_lie_end_to_end_and_agree_with_resolve() {
    let stage = stage(&[rule(500, 3, 9), rule(0, 9, 12), rule(40, 20, 30), rule(90, 31, 33)]);
    for lo in 0..40 {
        for hi in lo + 1..40 {
            let segs = stage.segments(lo, hi);
            assert_eq!(segs.first().unwrap().start, lo);
            assert_eq!(segs.last().unwrap().end, hi);
            for pair in segs.windows(2) {
                assert_eq!(pair[0].end, pair[1].start);
                assert!(pair[0].covered || pair[1].covered);
            }
            for seg in &segs {
                assert!(seg.start < seg.end);
                for n in seg.start..seg.end {
                    assert_eq!(stage.resolve(n), seg.image + (n - seg.start));
                }
            }
        }
    }
}

#[test]
fn lowest_in_a_range() {
    let stage = stage(&[rule(0, 15, 52), rule(37, 52, 54), rule(39, 0, 15)]);
    assert_eq!(stage.lowest_in(0, 15), Some(39));
    assert_eq!(stage.lowest_in(10, 20), Some(0));
    assert_eq!(stage.lowest_in(52, 100), Some(37));
    assert_eq!(stage.lowest_in(54, 100), Some(54));
    assert_eq!(stage.lowest_in(53, 54), Some(38));
    assert_eq!(stage.lowest_in(7, 7), None);
    assert_eq!(stage.lowest_in(8, 7), None);
}
