//! What the merge of two chained stages is: one rule for each longest run of
//! values that the two stages treat alike.

use crate::model::{lemma_apply_at, lemma_same_rules, StageView};
use crate::rule::RuleView;
use vstd::prelude::*;

verus! {

impl StageView {
    /// The stage treats `a` and `b` alike: each rule contains both or
    /// neither.
    pub open spec fn alike(self, a: int, b: int) -> bool {
        forall|i: int|
            0 <= i < self.rules.len() ==> ((#[trigger] self.rules[i]).contains(a)
                <==> self.rules[i].contains(b))
    }

    /// The stage and the stage `next` behind it treat `a` and `b` alike: the
    /// stage treats them alike, and `next` treats alike what the stage makes
    /// of them.
    pub open spec fn alike_then(self, next: StageView, a: int, b: int) -> bool {
        self.alike(a, b) && next.alike(self.apply(a), self.apply(b))
    }

    /// The source range of `r` is a longest run of values that the stage and
    /// `next` treat alike: they treat all its values alike, and neither the
    /// value before it like its first nor the value behind it like its last.
    pub open spec fn is_run(self, next: StageView, r: RuleView) -> bool {
        &&& forall|n: int| r.contains(n) ==> #[trigger] self.alike_then(next, r.start, n)
        &&& !self.alike_then(next, r.start - 1, r.start)
        &&& !self.alike_then(next, r.end - 1, r.end)
    }

    /// `merged` is the merge of the stage with the stage `next` behind it: it
    /// maps every value as the two stages do in turn, and has one rule for
    /// each longest run of values that some rule of either stage contains and
    /// that the two stages treat alike.
    pub open spec fn is_merge(self, next: StageView, merged: StageView) -> bool {
        &&& merged.wf()
        &&& forall|n: int| #[trigger] merged.covers(n) <==> self.covers(n) || next.covers(n)
        &&& forall|n: int| #[trigger] merged.apply(n) == next.apply(self.apply(n))
        &&& forall|k: int|
            0 <= k < merged.rules.len() ==> self.is_run(next, #[trigger] merged.rules[k])
    }

    /// The merge of the stage with the stage `next` behind it.
    pub open spec fn merge(self, next: StageView) -> StageView {
        choose|merged: StageView| self.is_merge(next, merged)
    }
}

/// The stage that a pipeline merges into when it is folded from its last
/// stage to its first; the stage without rules for the empty pipeline.
pub open spec fn fold_merge(stages: Seq<StageView>) -> StageView
    decreases stages.len(),
{
    if stages.len() == 0 {
        StageView::empty()
    } else if stages.len() == 1 {
        stages[0]
    } else {
        stages.first().merge(fold_merge(stages.drop_first()))
    }
}

/// Values that two stages in a row treat like a third they treat alike.
pub proof fn lemma_alike_then_shared(first: StageView, next: StageView, x: int, y: int, z: int)
    requires
        first.alike_then(next, x, y),
        first.alike_then(next, x, z),
    ensures
        first.alike_then(next, y, z),
{
    assert forall|i: int| 0 <= i < first.rules.len() implies ((#[trigger] first.rules[i]).contains(
        y,
    ) <==> first.rules[i].contains(z)) by {
        assert(first.rules[i].contains(x) <==> first.rules[i].contains(y));
        assert(first.rules[i].contains(x) <==> first.rules[i].contains(z));
    }
    assert forall|i: int| 0 <= i < next.rules.len() implies ((#[trigger] next.rules[i]).contains(
        first.apply(y),
    ) <==> next.rules[i].contains(first.apply(z))) by {
        assert(next.rules[i].contains(first.apply(x)) <==> next.rules[i].contains(first.apply(y)));
        assert(next.rules[i].contains(first.apply(x)) <==> next.rules[i].contains(first.apply(z)));
    }
}

/// Two longest runs that share a value are the same run.
pub proof fn lemma_runs_meet(first: StageView, next: StageView, a: RuleView, b: RuleView, n: int)
    requires
        first.is_run(next, a),
        first.is_run(next, b),
        a.contains(n),
        b.contains(n),
    ensures
        a.start == b.start,
        a.end == b.end,
{
    if a.start < b.start {
        assert(a.contains(b.start - 1) && a.contains(b.start));
        lemma_alike_then_shared(first, next, a.start, b.start - 1, b.start);
    }
    if b.start < a.start {
        assert(b.contains(a.start - 1) && b.contains(a.start));
        lemma_alike_then_shared(first, next, b.start, a.start - 1, a.start);
    }
    if a.end < b.end {
        assert(b.contains(a.end - 1) && b.contains(a.end));
        lemma_alike_then_shared(first, next, b.start, a.end - 1, a.end);
    }
    if b.end < a.end {
        assert(a.contains(b.end - 1) && a.contains(b.end));
        lemma_alike_then_shared(first, next, a.start, b.end - 1, b.end);
    }
}

/// Every rule of one merge of two stages is a rule of any other.
proof fn lemma_merge_member(
    first: StageView,
    next: StageView,
    a: StageView,
    b: StageView,
    i: int,
) -> (j: int)
    requires
        first.is_merge(next, a),
        first.is_merge(next, b),
        0 <= i < a.rules.len(),
    ensures
        0 <= j < b.rules.len(),
        b.rules[j] == a.rules[i],
{
    let r = a.rules[i];
    assert(r.wf());
    assert(r.contains(r.start));
    lemma_apply_at(a, i, r.start);
    assert(b.covers(r.start));
    let j = choose|j: int| 0 <= j < b.rules.len() && #[trigger] b.rules[j].contains(r.start);
    lemma_apply_at(b, j, r.start);
    assert(first.is_run(next, a.rules[i]));
    assert(first.is_run(next, b.rules[j]));
    lemma_runs_meet(first, next, r, b.rules[j], r.start);
    assert(a.apply(r.start) == b.apply(r.start));
    j
}

/// Two stages have at most one merge.
pub proof fn lemma_merge_unique(first: StageView, next: StageView, a: StageView, b: StageView)
    requires
        first.is_merge(next, a),
        first.is_merge(next, b),
    ensures
        a == b,
{
    assert forall|i: int| 0 <= i < a.rules.len() implies b.rules.contains(
        #[trigger] a.rules[i],
    ) by {
        let j = lemma_merge_member(first, next, a, b, i);
    }
    assert forall|i: int| 0 <= i < b.rules.len() implies a.rules.contains(
        #[trigger] b.rules[i],
    ) by {
        let j = lemma_merge_member(first, next, b, a, i);
    }
    lemma_same_rules(a, b);
}

/// A stage that is a merge of two stages is their merge.
pub proof fn lemma_merge_is(first: StageView, next: StageView, merged: StageView)
    requires
        first.is_merge(next, merged),
    ensures
        first.merge(next) == merged,
{
    lemma_merge_unique(first, next, first.merge(next), merged);
}

} // verus!
