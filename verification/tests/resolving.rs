use interval_mapping::resolver::{compose_chain, resolve_many, resolve_many_ranges, resolve_point};
use interval_mapping::{MappingRule, MappingStage};

fn rule(dest_start: usize, source_start: usize, source_end: usize) -> MappingRule {
    MappingRule::new(dest_start, source_start, source_end - source_start).unwrap()
}

fn stage(rules: &[MappingRule]) -> MappingStage {
    let mut stage = MappingStage::new();
    for r in rules {
        stage.insert(*r);
    }
    stage
}

fn sample_chain() -> Vec<MappingStage> {
    vec![
        stage(&[rule(50, 98, 100), rule(52, 50, 98)]),
        stage(&[rule(0, 15, 52), rule(37, 52, 54), rule(39, 0, 15)]),
        stage(&[rule(49, 53, 61), rule(0, 11, 53), rule(42, 0, 7), rule(57, 7, 11)]),
        stage(&[rule(88, 18, 25), rule(18, 25, 95)]),
        stage(&[rule(45, 77, 100), rule(81, 45, 64), rule(68, 64, 77)]),
        stage(&[rule(0, 69, 70), rule(1, 0, 69)]),
        stage(&[rule(60, 56, 93), rule(56, 93, 97)]),
    ]
}

#[test]
fn point_goes_through_the_stages_in_order() {
    let chain = sample_chain();
    assert_eq!(resolve_point(79, &chain), 82);
    assert_eq!(resolve_point(14, &chain), 43);
    assert_eq!(resolve_point(55, &chain), 86);
    assert_eq!(resolve_point(13, &chain), 35);
    assert_eq!(resolve_point(82, &chain), 46);
}

#[test]
fn point_through_no_stage_is_unchanged() {
    assert_eq!(resolve_point(17, &[]), 17);
    assert_eq!(resolve_point(usize::MAX, &[]), usize::MAX);
}

#[test]
fn point_through_one_stage() {
    let chain = sample_chain();
    for n in 0..150 {
        assert_eq!(resolve_point(n, &chain[..1]), chain[0].resolve(n));
    }
}

#[test]
fn order_of_the_stages_matters() {
    let first = stage(&[rule(10, 0, 5)]);
    let second = stage(&[rule(100, 10, 15)]);
    assert_eq!(resolve_point(2, &[first.clone(), second.clone()]), 102);
    assert_eq!(resolve_point(2, &[second, first]), 12);
}

#[test]
fn composed_chain_equals_stage_by_stage() {
    let chain = sample_chain();
    for count in 0..=chain.len() {
        let composed = compose_chain(&chain[..count]);
        for n in 0..300 {
            assert_eq!(composed.resolve(n), resolve_point(n, &chain[..count]));
        }
    }
}

#[test]
fn composed_chain_of_no_stage_is_the_identity() {
    let composed = compose_chain(&[]);
    assert!(composed.is_empty());
    assert_eq!(composed.resolve(5), 5);
}

#[test]
fn composed_chain_of_one_stage_is_that_stage() {
    let chain = sample_chain();
    assert_eq!(compose_chain(&chain[..1]), chain[0]);
}

#[test]
fn composed_chain_folds_from_the_tail() {
    let chain = sample_chain();
    let tail = chain[2].merge_with_successor(&chain[3]);
    let middle = chain[1].merge_with_successor(&tail);
    let all = chain[0].merge_with_successor(&middle);
    assert_eq!(compose_chain(&chain[..4]), all);
}

#[test]
fn lowest_of_points() {
    let composed = compose_chain(&sample_chain());
    assert_eq!(resolve_many(&[79, 14, 55, 13], &composed), Some(35));
    assert_eq!(resolve_many(&[79], &composed), Some(82));
    assert_eq!(resolve_many(&[], &composed), None);
}

#[test]
fn lowest_of_ranges() {
    let composed = compose_chain(&sample_chain());
    assert_eq!(resolve_many_ranges(&[79..93, 55..68], &composed), Some(46));
    assert_eq!(resolve_many_ranges(&[79..93], &composed), Some(46));
    assert_eq!(resolve_many_ranges(&[55..68], &composed), Some(56));
    assert_eq!(resolve_many_ranges(&[], &composed), None);
}

#[test]
fn empty_ranges_count_for_nothing() {
    let composed = compose_chain(&sample_chain());
    assert_eq!(resolve_many_ranges(&[5..5, 9..3], &composed), None);
    assert_eq!(resolve_many_ranges(&[5..5, 82..83, 9..3], &composed), Some(46));
}

#[test]
fn lowest_of_ranges_equals_point_by_point() {
    let chain = sample_chain();
    let composed = compose_chain(&chain);
    let mut state: usize = 12345;
    for _ in 0..200 {
        let mut ranges = Vec::new();
        let mut lowest: Option<usize> = None;
        for _ in 0..3 {
            state = state.wrapping_mul(6364136223846793005).wrapping_add(1442695040888963407);
            let start = (state >> 33) % 120;
            state = state.wrapping_mul(6364136223846793005).wrapping_add(1442695040888963407);
            let len = (state >> 33) % 25;
            ranges.push(start..start + len);
            for n in start..start + len {
                let image = resolve_point(n, &chain);
                if lowest.map_or(true, |m| image < m) {
                    lowest = Some(image);
                }
            }
        }
        assert_eq!(resolve_many_ranges(&ranges, &composed), lowest);
    }
}

#[test]
fn lowest_of_a_huge_range_is_found_without_walking_it() {
    let top = usize::MAX;
    let stage = stage(&[rule(7, top / 8, top / 4), rule(3, top / 2, top / 2 + 1)]);
    assert_eq!(resolve_many_ranges(&[10..top], &stage), Some(3));
    assert_eq!(resolve_many_ranges(&[10..top / 2], &stage), Some(7));
    assert_eq!(resolve_many_ranges(&[10..top / 8], &stage), Some(10));
}
