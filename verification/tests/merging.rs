use interval_mapping::{MappingRule, MappingStage};

fn rule(dest_start: usize, source_start: usize, source_end: usize) -> MappingRule {
    MappingRule::new(dest_start, source_start, source_end - source_start).unwrap()
}

fn stage(rules: &[MappingRule]) -> MappingStage {
    let mut stage = MappingStage::new();
    for r in rules {
        stage.insert(*r);
    }
    stage
}

#[test]
fn test_merging_of_mapping_rules() {
    let rules1 = stage(&[rule(50, 98, 100), rule(52, 50, 98)]);
    let rules2 = stage(&[rule(0, 15, 52), rule(37, 52, 54), rule(39, 0, 15)]);
    let rules_expected = stage(&[
        rule(0, 15, 50),
        rule(35, 98, 100),
        rule(37, 50, 52),
        rule(54, 52, 98),
        rule(39, 0, 15),
    ]);
    for n in 0..1000 {
        let a = rules2.resolve(rules1.resolve(n));
        let b = rules_expected.resolve(n);
        assert_eq!(a, b);
    }
    assert_eq!(rules1.merge_with_successor(&rules2), rules_expected);
}

#[test]
fn test_merging_of_mapping_rules2() {
    let rules1 = stage(&[rule(45, 77, 100)]);
    let rules2 = stage(&[rule(5, 55, 69)]);
    let rules_expected = stage(&[rule(5, 55, 69), rule(45, 77, 87), rule(5, 87, 100)]);
    for n in 0..1000 {
        let a = rules2.resolve(rules1.resolve(n));
        let b = rules_expected.resolve(n);
        assert_eq!(a, b);
    }
    assert_eq!(rules1.merge_with_successor(&rules2), rules_expected);
}
