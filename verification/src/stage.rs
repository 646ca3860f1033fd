//! A stage: rules with pairwise disjoint source ranges, kept in order.

use crate::model::{
    lemma_apply_at, lemma_apply_uncovered, lemma_insert, lemma_insert_wf, StageView,
};
use crate::rule::{MappingRule, RuleView};
use vstd::prelude::*;

verus! {

/// The model of a list of rules in storage order.
pub open spec fn rules_view(rules: Seq<MappingRule>) -> StageView {
    StageView { rules: rules.map_values(|r: MappingRule| r@) }
}

/// A set of mapping rules with pairwise disjoint source ranges. A value that
/// lies in a rule's source range goes where the rule sends it; every other
/// value maps to itself.
///
/// The rules are kept sorted by source range, so that a value is looked up by
/// binary search.
#[derive(Debug, PartialEq, Eq)]
pub struct MappingStage {
    rules: Vec<MappingRule>,
}

impl View for MappingStage {
    type V = StageView;

    closed spec fn view(&self) -> StageView {
        rules_view(self.rules@)
    }
}

impl Clone for MappingStage {
    fn clone(&self) -> (copy: Self)
        ensures
            copy@ == self@,
    {
        proof {
            use_type_invariant(self);
        }
        let mut rules: Vec<MappingRule> = Vec::new();
        let mut i: usize = 0;
        while i < self.rules.len()
            invariant
                i <= self.rules.len(),
                rules@ == self.rules@.take(i as int),
            decreases self.rules.len() - i,
        {
            rules.push(self.rules[i]);
            assert(self.rules@.take(i + 1) =~= self.rules@.take(i as int).push(
                self.rules@[i as int],
            ));
            i += 1;
        }
        assert(self.rules@.take(i as int) =~= self.rules@);
        MappingStage { rules }
    }
}

impl MappingStage {
    /// Holds of every stage: the rules are well formed, pairwise disjoint and
    /// sorted.
    #[verifier::type_invariant]
    pub open spec fn wf(&self) -> bool {
        self@.wf()
    }

    /// The stage without rules, which maps every value to itself.
    pub fn new() -> (stage: Self)
        ensures
            stage@ == StageView::empty(),
            stage.wf(),
    {
        let stage = MappingStage { rules: Vec::new() };
        assert(stage@.rules =~= StageView::empty().rules);
        stage
    }

    /// Number of rules.
    pub fn len(&self) -> (n: usize)
        ensures
            n == self@.rules.len(),
    {
        self.rules.len()
    }

    /// Whether the stage has no rules.
    pub fn is_empty(&self) -> (b: bool)
        ensures
            b <==> self@.rules.len() == 0,
    {
        self.rules.len() == 0
    }

    /// The rule at position `i` in source order.
    pub fn rule(&self, i: usize) -> (r: MappingRule)
        requires
            i < self@.rules.len(),
        ensures
            r@ == self@.rules[i as int],
    {
        self.rules[i]
    }

    /// The rules in source order.
    pub fn rules(&self) -> (list: Vec<MappingRule>)
        ensures
            rules_view(list@) == self@,
    {
        let copy = self.clone();
        copy.rules
    }

    /// Index of the first rule whose source range ends after `n`; the number
    /// of rules if there is none.
    pub(crate) fn first_ending_after(&self, n: usize) -> (i: usize)
        ensures
            i <= self@.rules.len(),
            forall|k: int| 0 <= k < i ==> (#[trigger] self@.rules[k]).end <= n,
            forall|k: int| i <= k < self@.rules.len() ==> n < (#[trigger] self@.rules[k]).end,
    {
        proof {
            use_type_invariant(self);
        }
        let mut lo: usize = 0;
        let mut hi: usize = self.rules.len();
        while lo < hi
            invariant
                lo <= hi <= self@.rules.len(),
                self@.wf(),
                self@.rules.len() == self.rules@.len(),
                forall|k: int| 0 <= k < self.rules@.len() ==> self@.rules[k] == (
                #[trigger] self.rules@[k])@,
                forall|k: int| 0 <= k < lo ==> (#[trigger] self@.rules[k]).end <= n,
                forall|k: int| hi <= k < self@.rules.len() ==> n < (#[trigger] self@.rules[k]).end,
            decreases hi - lo,
        {
            let mid: usize = lo + (hi - lo) / 2;
            if self.rules[mid].source_end() <= n {
                assert forall|k: int| 0 <= k < mid + 1 implies (#[trigger] self@.rules[k]).end
                    <= n by {
                    if k < mid {
                        assert(self@.rules[k].end <= self@.rules[mid as int].start);
                        assert(self@.rules[mid as int].wf());
                    }
                }
                lo = mid + 1;
            } else {
                assert forall|k: int| mid <= k < self@.rules.len() implies n < (
                #[trigger] self@.rules[k]).end by {
                    if mid < k {
                        assert(self@.rules[mid as int].end <= self@.rules[k].start);
                        assert(self@.rules[k].wf());
                    }
                }
                hi = mid;
            }
        }
        lo
    }

    /// Maps `n`: through the rule whose source range contains it, or to itself
    /// if there is no such rule.
    pub fn resolve(&self, n: usize) -> (r: usize)
        ensures
            r == self@.apply(n as int),
            !self@.covers(n as int) ==> r == n,
            forall|i: int|
                0 <= i < self@.rules.len() && (#[trigger] self@.rules[i]).contains(n as int) ==> r
                    == self@.rules[i].apply(n as int),
    {
        proof {
            use_type_invariant(self);
            if !self@.covers(n as int) {
                lemma_apply_uncovered(self@, n as int);
            }
            assert forall|i: int|
                0 <= i < self@.rules.len() && (#[trigger] self@.rules[i]).contains(
                    n as int,
                ) implies self@.apply(n as int) == self@.rules[i].apply(n as int) by {
                lemma_apply_at(self@, i, n as int);
            }
        }
        let i = self.first_ending_after(n);
        if i < self.rules.len() && self.rules[i].source_start() <= n {
            proof {
                assert(self@.rules[i as int] == self.rules@[i as int]@);
                lemma_apply_at(self@, i as int, n as int);
            }
            self.rules[i].resolve(n)
        } else {
            proof {
                assert forall|k: int| 0 <= k < self@.rules.len() implies !(
                #[trigger] self@.rules[k].contains(n as int)) by {
                    if i < k {
                        assert(self@.rules[i as int].end <= self@.rules[k].start);
                        assert(self@.rules[i as int].wf());
                    }
                    if i == k {
                        assert(self@.rules[i as int] == self.rules@[i as int]@);
                    }
                }
                lemma_apply_uncovered(self@, n as int);
            }
            n
        }
    }

    /// Stores `rule`. The rule takes over its whole source range: what other
    /// rules hold of that range is cut away, and a rule that reaches past it on
    /// both sides is split in two.
    pub fn insert(&mut self, rule: MappingRule)
        ensures
            final(self)@ == old(self)@.insert(rule@),
            final(self).wf(),
            forall|n: int| #[trigger]
                final(self)@.covers(n) <==> old(self)@.covers(n) || rule@.contains(n),
            forall|n: int| #[trigger]
                final(self)@.apply(n) == if rule@.contains(n) {
                    rule@.apply(n)
                } else {
                    old(self)@.apply(n)
                },
    {
        proof {
            use_type_invariant(&*self);
            use_type_invariant(&rule);
        }
        let ghost before = self@;
        let count = self.rules.len();
        let mut out: Vec<MappingRule> = Vec::new();
        let mut i: usize = 0;
        assert(before.prefix(0).rules =~= Seq::<RuleView>::empty());
        assert(rules_view(out@).rules =~= Seq::<RuleView>::empty());
        while i < count
            invariant
                i <= count == self.rules@.len(),
                before == rules_view(self.rules@),
                rules_view(out@) == before.prefix(i as int).restrict(0, rule@.start),
            decreases count - i,
        {
            let piece = self.rules[i].clip(0, rule.source_start());
            proof {
                let next = before.prefix(i + 1);
                assert(next.rules.drop_last() =~= before.prefix(i as int).rules);
                assert(next.rules.last() == self.rules@[i as int]@);
            }
            match piece {
                Some(p) => {
                    out.push(p);
                    assert(rules_view(out@).rules =~= before.prefix(i as int).restrict(
                        0,
                        rule@.start,
                    ).push(p@).rules);
                },
                None => {},
            }
            i += 1;
        }
        assert(before.prefix(count as int).rules =~= before.rules);
        let ghost below = rules_view(out@);
        out.push(rule);
        assert(rules_view(out@).rules =~= below.push(rule@).rules);
        let mut j: usize = 0;
        assert(rules_view(out@).rules =~= below.push(rule@).concat(
            before.prefix(0).restrict(rule@.end, usize::MAX as int),
        ).rules);
        while j < count
            invariant
                j <= count == self.rules@.len(),
                before == rules_view(self.rules@),
                rules_view(out@) == below.push(rule@).concat(
                    before.prefix(j as int).restrict(rule@.end, usize::MAX as int),
                ),
            decreases count - j,
        {
            let piece = self.rules[j].clip(rule.source_end(), usize::MAX);
            proof {
                let next = before.prefix(j + 1);
                assert(next.rules.drop_last() =~= before.prefix(j as int).rules);
                assert(next.rules.last() == self.rules@[j as int]@);
            }
            match piece {
                Some(p) => {
                    let ghost kept = rules_view(out@);
                    out.push(p);
                    assert(rules_view(out@).rules =~= kept.rules.push(p@));
                    assert(kept.rules.push(p@) =~= below.push(rule@).concat(
                        before.prefix(j as int).restrict(rule@.end, usize::MAX as int).push(p@),
                    ).rules);
                },
                None => {},
            }
            j += 1;
        }
        proof {
            assert(rules_view(out@) == before.insert(rule@));
            lemma_insert_wf(before, rule@);
            assert forall|n: int| #[trigger]
                before.insert(rule@).covers(n) <==> before.covers(n) || rule@.contains(n) by {
                lemma_insert(before, rule@, n);
            }
            assert forall|n: int| #[trigger]
                before.insert(rule@).apply(n) == if rule@.contains(n) {
                    rule@.apply(n)
                } else {
                    before.apply(n)
                } by {
                lemma_insert(before, rule@, n);
            }
        }
        self.rules = out;
    }
}

} // verus!
