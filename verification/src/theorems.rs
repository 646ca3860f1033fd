//! What holds of stages, merges and pipelines, whatever the rules and the
//! values.

use crate::assemble::lemma_assemble;
use crate::model::{
    any_covers, chain_apply, lemma_apply_uncovered, lemma_insert_twice, lemma_insert_wf,
    lemma_same_rules, StageView,
};
use crate::rule::RuleView;
use crate::runs::{fold_merge, lemma_merge_is};
use vstd::prelude::*;

verus! {

/// Two rules that share no value may be stored in either order: the stage
/// that results is the same.
pub proof fn theorem_insert_order(s: StageView, a: RuleView, b: RuleView)
    requires
        s.wf(),
        a.wf(),
        b.wf(),
        a.end <= b.start || b.end <= a.start,
    ensures
        s.insert(a).insert(b) == s.insert(b).insert(a),
{
    let left = s.insert(a).insert(b);
    let right = s.insert(b).insert(a);
    lemma_insert_wf(s, a);
    lemma_insert_wf(s.insert(a), b);
    lemma_insert_wf(s, b);
    lemma_insert_wf(s.insert(b), a);
    assert forall|k: int| 0 <= k < left.rules.len() implies right.rules.contains(
        #[trigger] left.rules[k],
    ) by {
        lemma_insert_twice(s, a, b, k);
    }
    assert forall|k: int| 0 <= k < right.rules.len() implies left.rules.contains(
        #[trigger] right.rules[k],
    ) by {
        lemma_insert_twice(s, b, a, k);
    }
    lemma_same_rules(left, right);
}

/// Any two well-formed stages have a merge. It is well formed, so that no two
/// of its source ranges overlap; it maps every value as the first stage and
/// then the next do; and it has rules for exactly the values that either
/// stage has rules for.
pub proof fn theorem_merge(first: StageView, next: StageView)
    requires
        first.wf(),
        next.wf(),
    ensures
        first.is_merge(next, first.merge(next)),
        first.merge(next).wf(),
        forall|n: int| #[trigger] first.merge(next).apply(n) == next.apply(first.apply(n)),
        forall|n: int| #[trigger]
            first.merge(next).covers(n) <==> first.covers(n) || next.covers(n),
{
    lemma_assemble(first, next);
}

/// Merging with the stage without rules changes nothing, whether that stage
/// comes first or next.
pub proof fn theorem_merge_identity(stage: StageView)
    requires
        stage.wf(),
    ensures
        stage.merge(StageView::empty()) == stage,
        StageView::empty().merge(stage) == stage,
{
    let none = StageView::empty();
    assert forall|n: int| !#[trigger] none.covers(n) by {}
    assert forall|n: int| #[trigger] none.apply(n) == n by {}
    assert forall|a: int, b: int| #[trigger] none.alike(a, b) by {}
    assert forall|k: int| 0 <= k < stage.rules.len() implies stage.is_run(
        none,
        #[trigger] stage.rules[k],
    ) && none.is_run(stage, stage.rules[k]) by {
        let r = stage.rules[k];
        assert(r.wf());
        assert forall|n: int| r.contains(n) implies #[trigger] stage.alike_then(
            none,
            r.start,
            n,
        ) && #[trigger] none.alike_then(stage, r.start, n) by {
            assert forall|m: int| 0 <= m < stage.rules.len() implies ((
            #[trigger] stage.rules[m]).contains(r.start) <==> stage.rules[m].contains(n)) by {
                if m < k {
                    assert(stage.rules[m].end <= stage.rules[k].start);
                }
                if k < m {
                    assert(stage.rules[k].end <= stage.rules[m].start);
                }
            }
        }
        assert(r.contains(r.start) && !r.contains(r.start - 1));
        assert(r.contains(r.end - 1) && !r.contains(r.end));
    }
    lemma_merge_is(stage, none, stage);
    lemma_merge_is(none, stage, stage);
}

/// A pipeline of well-formed stages, folded into one stage by merging from
/// its last stage to its first, gives a well-formed stage that maps every
/// value as the pipeline does stage by stage, and that has rules for exactly
/// the values that some stage has rules for.
pub proof fn theorem_fold_merge(stages: Seq<StageView>)
    requires
        forall|k: int| 0 <= k < stages.len() ==> (#[trigger] stages[k]).wf(),
    ensures
        fold_merge(stages).wf(),
        forall|n: int| #[trigger] fold_merge(stages).apply(n) == chain_apply(stages, n),
        forall|n: int| #[trigger] fold_merge(stages).covers(n) <==> any_covers(stages, n),
    decreases stages.len(),
{
    let folded = fold_merge(stages);
    if stages.len() == 0 {
        assert forall|n: int| #[trigger] folded.apply(n) == chain_apply(stages, n) by {
            lemma_apply_uncovered(folded, n);
        }
    } else {
        let first = stages.first();
        let rest = stages.drop_first();
        assert(first.wf());
        assert forall|k: int| 0 <= k < rest.len() implies (#[trigger] rest[k]).wf() by {
            assert(stages[k + 1].wf());
        }
        theorem_fold_merge(rest);
        if stages.len() == 1 {
            assert(rest.len() == 0);
            assert forall|n: int| #[trigger] folded.apply(n) == chain_apply(stages, n) by {
                assert(chain_apply(rest, first.apply(n)) == first.apply(n));
            }
        } else {
            theorem_merge(first, fold_merge(rest));
            assert forall|n: int| #[trigger] folded.apply(n) == chain_apply(stages, n) by {
                assert(fold_merge(rest).apply(first.apply(n)) == chain_apply(rest, first.apply(n)));
            }
        }
        assert forall|n: int| #[trigger] folded.covers(n) <==> any_covers(stages, n) by {
            assert(fold_merge(rest).covers(n) <==> any_covers(rest, n));
            if any_covers(rest, n) {
                let k = choose|k: int| 0 <= k < rest.len() && #[trigger] rest[k].covers(n);
                assert(stages[k + 1].covers(n));
            }
            if first.covers(n) {
                assert(stages[0].covers(n));
            }
            if any_covers(stages, n) {
                let k = choose|k: int| 0 <= k < stages.len() && #[trigger] stages[k].covers(n);
                if k > 0 {
                    assert(rest[k - 1].covers(n));
                }
            }
        }
    }
}

} // verus!
