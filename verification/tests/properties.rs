use interval_mapping::resolver::{compose_chain, resolve_point};
use interval_mapping::{MappingRule, MappingStage};

struct Lcg(u64);

impl Lcg {
    fn next(&mut self, bound: usize) -> usize {
        self.0 = self.0.wrapping_mul(6364136223846793005).wrapping_add(1442695040888963407);
        ((self.0 >> 33) as usize) % bound
    }
}

fn random_stage(rng: &mut Lcg) -> MappingStage {
    let mut stage = MappingStage::new();
    let count = rng.next(7);
    for _ in 0..count {
        let start = rng.next(90);
        let len = 1 + rng.next(30);
        let dest = rng.next(110);
        stage.insert(MappingRule::new(dest, start, len).unwrap());
    }
    stage
}

fn assert_sorted_and_disjoint(stage: &MappingStage) {
    let rules = stage.rules();
    for r in &rules {
        assert!(r.source_start() < r.source_end());
    }
    for pair in rules.windows(2) {
        assert!(pair[0].source_end() <= pair[1].source_start());
    }
}

fn covers(stage: &MappingStage, n: usize) -> bool {
    stage.rules().iter().any(|r| r.contains(n))
}

#[test]
fn uncovered_values_map_to_themselves() {
    let mut rng = Lcg(7);
    for _ in 0..200 {
        let stage = random_stage(&mut rng);
        for n in 0..200 {
            if !covers(&stage, n) {
                assert_eq!(stage.resolve(n), n);
            }
        }
    }
}

#[test]
fn covered_values_go_through_their_rule() {
    let mut rng = Lcg(11);
    for _ in 0..200 {
        let stage = random_stage(&mut rng);
        assert_sorted_and_disjoint(&stage);
        for r in stage.rules() {
            for n in r.source_start()..r.source_end() {
                assert_eq!(stage.resolve(n), r.dest_start() + (n - r.source_start()));
            }
        }
    }
}

#[test]
fn composition_equals_one_stage_after_the_other() {
    let mut rng = Lcg(2023);
    for _ in 0..500 {
        let a = random_stage(&mut rng);
        let b = random_stage(&mut rng);
        let merged = a.merge_with_successor(&b);
        for n in 0..260 {
            assert_eq!(merged.resolve(n), b.resolve(a.resolve(n)));
        }
    }
}

#[test]
fn composition_keeps_ranges_disjoint() {
    let mut rng = Lcg(5);
    for _ in 0..500 {
        let a = random_stage(&mut rng);
        let b = random_stage(&mut rng);
        assert_sorted_and_disjoint(&a.merge_with_successor(&b));
    }
}

#[test]
fn composition_covers_what_either_stage_covers() {
    let mut rng = Lcg(99);
    for _ in 0..300 {
        let a = random_stage(&mut rng);
        let b = random_stage(&mut rng);
        let merged = a.merge_with_successor(&b);
        for n in 0..260 {
            assert_eq!(covers(&merged, n), covers(&a, n) || covers(&b, n));
        }
    }
}

#[test]
fn composition_with_the_identity_changes_nothing() {
    let mut rng = Lcg(3);
    for _ in 0..100 {
        let a = random_stage(&mut rng);
        assert_eq!(a.merge_with_successor(&MappingStage::new()), a);
        assert_eq!(MappingStage::new().merge_with_successor(&a), a);
    }
}

#[test]
fn composition_of_non_overlapping_stages() {
    let mut first = MappingStage::new();
    first.insert(MappingRule::new(1000, 0, 10).unwrap());
    let mut second = MappingStage::new();
    second.insert(MappingRule::new(2000, 500, 10).unwrap());
    let merged = first.merge_with_successor(&second);
    assert_eq!(
        merged.rules(),
        vec![MappingRule::new(1000, 0, 10).unwrap(), MappingRule::new(2000, 500, 10).unwrap()]
    );
}

#[test]
fn composition_where_an_image_spans_several_rules() {
    let mut first = MappingStage::new();
    first.insert(MappingRule::new(100, 0, 50).unwrap());
    let mut second = MappingStage::new();
    second.insert(MappingRule::new(7, 90, 20).unwrap());
    second.insert(MappingRule::new(300, 110, 10).unwrap());
    second.insert(MappingRule::new(0, 130, 40).unwrap());
    let merged = first.merge_with_successor(&second);
    assert_eq!(
        merged.rules(),
        vec![
            MappingRule::new(17, 0, 10).unwrap(),
            MappingRule::new(300, 10, 10).unwrap(),
            MappingRule::new(120, 20, 10).unwrap(),
            MappingRule::new(0, 30, 20).unwrap(),
            MappingRule::new(7, 90, 20).unwrap(),
            MappingRule::new(300, 110, 10).unwrap(),
            MappingRule::new(0, 130, 40).unwrap(),
        ]
    );
}

#[test]
fn concrete_composition() {
    let mut a = MappingStage::new();
    a.insert(MappingRule::new(50, 98, 2).unwrap());
    a.insert(MappingRule::new(52, 50, 48).unwrap());
    let mut b = MappingStage::new();
    b.insert(MappingRule::new(0, 15, 37).unwrap());
    b.insert(MappingRule::new(37, 52, 2).unwrap());
    b.insert(MappingRule::new(39, 0, 15).unwrap());
    let merged = a.merge_with_successor(&b);
    for n in 0..1000 {
        assert_eq!(merged.resolve(n), b.resolve(a.resolve(n)));
    }
    assert_eq!(merged.resolve(0), 39);
    assert_eq!(merged.resolve(14), 53);
    assert_eq!(merged.resolve(15), 0);
    assert_eq!(merged.resolve(49), 34);
    assert_eq!(merged.resolve(50), 37);
    assert_eq!(merged.resolve(51), 38);
    assert_eq!(merged.resolve(52), 54);
    assert_eq!(merged.resolve(53), 55);
    assert_eq!(merged.resolve(97), 99);
    assert_eq!(merged.resolve(98), 35);
    assert_eq!(merged.resolve(99), 36);
    assert_eq!(merged.resolve(100), 100);
}

#[test]
fn chain_equals_fold_for_one_to_five_stages() {
    let mut rng = Lcg(42);
    for _ in 0..100 {
        let stages: Vec<MappingStage> = (0..5).map(|_| random_stage(&mut rng)).collect();
        for count in 1..=5 {
            let composed = compose_chain(&stages[..count]);
            assert_sorted_and_disjoint(&composed);
            for n in 0..260 {
                assert_eq!(composed.resolve(n), resolve_point(n, &stages[..count]));
            }
        }
    }
}

#[test]
fn composition_near_the_largest_value() {
    let top = usize::MAX;
    let mut a = MappingStage::new();
    a.insert(MappingRule::new(top - 10, 0, 10).unwrap());
    let mut b = MappingStage::new();
    b.insert(MappingRule::new(5, top - 8, 8).unwrap());
    let merged = a.merge_with_successor(&b);
    for n in 0..12 {
        assert_eq!(merged.resolve(n), b.resolve(a.resolve(n)));
    }
    assert_eq!(merged.resolve(1), top - 9);
    assert_eq!(merged.resolve(2), 5);
    assert_eq!(merged.resolve(top - 1), 12);
    assert_eq!(merged.resolve(top), top);
}

/// Index of the rule of `stage` that contains `n`, if any.
fn rule_at(stage: &MappingStage, n: usize) -> Option<usize> {
    stage.rules().iter().position(|r| r.contains(n))
}

/// How the two stages treat `n`: the rule of the first that contains it, and
/// the rule of the second that contains what the first makes of it.
fn treatment(a: &MappingStage, b: &MappingStage, n: usize) -> (Option<usize>, Option<usize>) {
    (rule_at(a, n), rule_at(b, a.resolve(n)))
}

#[test]
fn composition_has_one_rule_for_each_longest_run() {
    let mut rng = Lcg(77);
    for _ in 0..300 {
        let a = random_stage(&mut rng);
        let b = random_stage(&mut rng);
        let merged = a.merge_with_successor(&b);
        for r in merged.rules() {
            let first = treatment(&a, &b, r.source_start());
            for n in r.source_start()..r.source_end() {
                assert_eq!(treatment(&a, &b, n), first);
            }
            if r.source_start() > 0 {
                assert_ne!(treatment(&a, &b, r.source_start() - 1), first);
            }
            assert_ne!(treatment(&a, &b, r.source_end()), first);
        }
    }
}

#[test]
fn composition_does_not_depend_on_how_the_stages_were_built() {
    let mut rng = Lcg(123);
    for _ in 0..200 {
        let a = random_stage(&mut rng);
        let b = random_stage(&mut rng);
        let mut a_again = MappingStage::new();
        for r in a.rules().iter().rev() {
            a_again.insert(*r);
        }
        let mut b_again = MappingStage::new();
        for r in b.rules().iter().rev() {
            b_again.insert(*r);
        }
        assert_eq!(a_again, a);
        assert_eq!(b_again, b);
        assert_eq!(a_again.merge_with_successor(&b_again), a.merge_with_successor(&b));
    }
}

#[test]
fn composition_of_stages_with_many_rules() {
    let mut rng = Lcg(31337);
    let mut a = MappingStage::new();
    let mut b = MappingStage::new();
    for k in 0..1500 {
        let start = 20 * k + rng.next(5);
        let len = 1 + rng.next(12);
        a.insert(MappingRule::new(rng.next(30_000), start, len).unwrap());
        let start = 20 * k + rng.next(5);
        let len = 1 + rng.next(12);
        b.insert(MappingRule::new(rng.next(30_000), start, len).unwrap());
    }
    let merged = a.merge_with_successor(&b);
    assert_sorted_and_disjoint(&merged);
    for n in 0..31_000 {
        assert_eq!(merged.resolve(n), b.resolve(a.resolve(n)));
    }
}
