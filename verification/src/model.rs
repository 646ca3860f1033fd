//! Mathematical model of a stage: a sequence of rules, read as a function on
//! the integers, with the lemmas that the executable code rests on.

use crate::rule::RuleView;
use vstd::prelude::*;

verus! {

/// Mathematical model of a stage: its rules in storage order.
///
/// Read as a function, the last rule whose source range contains a value
/// decides where the value goes; a value that no rule contains maps to itself.
/// In a well-formed stage at most one rule contains any given value.
pub struct StageView {
    pub rules: Seq<RuleView>,
}

impl StageView {
    /// The stage without rules: the identity.
    pub open spec fn empty() -> StageView {
        StageView { rules: Seq::empty() }
    }

    /// Every rule is well formed, and the source ranges are pairwise disjoint
    /// and stored in increasing order.
    pub open spec fn wf(self) -> bool {
        &&& forall|i: int| 0 <= i < self.rules.len() ==> (#[trigger] self.rules[i]).wf()
        &&& forall|i: int, j: int|
            0 <= i < j < self.rules.len() ==> (#[trigger] self.rules[i]).end <= (
            #[trigger] self.rules[j]).start
    }

    /// Some rule's source range contains `n`.
    pub open spec fn covers(self, n: int) -> bool {
        exists|i: int| 0 <= i < self.rules.len() && #[trigger] self.rules[i].contains(n)
    }

    /// Where the stage sends `n`.
    pub open spec fn apply(self, n: int) -> int
        decreases self.rules.len(),
    {
        if self.rules.len() == 0 {
            n
        } else if self.rules.last().contains(n) {
            self.rules.last().apply(n)
        } else {
            (StageView { rules: self.rules.drop_last() }).apply(n)
        }
    }

    /// The first `k` rules.
    pub open spec fn prefix(self, k: int) -> StageView {
        StageView { rules: self.rules.take(k) }
    }

    /// The stage with `r` stored behind all other rules.
    pub open spec fn push(self, r: RuleView) -> StageView {
        StageView { rules: self.rules.push(r) }
    }

    /// The rules of `self` followed by those of `other`.
    pub open spec fn concat(self, other: StageView) -> StageView {
        StageView { rules: self.rules + other.rules }
    }

    /// The stage cut down to the window `[lo, hi)`: every rule is clipped to
    /// the window, and rules that do not meet it are dropped.
    pub open spec fn restrict(self, lo: int, hi: int) -> StageView
        decreases self.rules.len(),
    {
        if self.rules.len() == 0 {
            self
        } else {
            let head = (StageView { rules: self.rules.drop_last() }).restrict(lo, hi);
            let piece = self.rules.last().clip(lo, hi);
            if piece.start < piece.end {
                head.push(piece)
            } else {
                head
            }
        }
    }

    /// The stage after `r` has been stored in it: `r` takes over its whole
    /// source range, and what other rules hold of that range is cut away.
    pub open spec fn insert(self, r: RuleView) -> StageView {
        self.restrict(0, r.start).push(r).concat(self.restrict(r.end, usize::MAX as int))
    }

    /// The stage that results from storing the given rules one after another,
    /// starting from the empty stage.
    pub open spec fn build(rules: Seq<RuleView>) -> StageView
        decreases rules.len(),
    {
        if rules.len() == 0 {
            StageView::empty()
        } else {
            StageView::build(rules.drop_last()).insert(rules.last())
        }
    }
}

/// Where a pipeline of stages sends `n`: through each stage in order.
pub open spec fn chain_apply(stages: Seq<StageView>, n: int) -> int
    decreases stages.len(),
{
    if stages.len() == 0 {
        n
    } else {
        chain_apply(stages.drop_first(), stages.first().apply(n))
    }
}

/// Some stage of the pipeline has a rule whose source range contains `n`.
pub open spec fn any_covers(stages: Seq<StageView>, n: int) -> bool {
    exists|k: int| 0 <= k < stages.len() && #[trigger] stages[k].covers(n)
}

/// A value that no rule contains maps to itself.
pub proof fn lemma_apply_uncovered(s: StageView, n: int)
    requires
        !s.covers(n),
    ensures
        s.apply(n) == n,
    decreases s.rules.len(),
{
    if s.rules.len() > 0 {
        let head = StageView { rules: s.rules.drop_last() };
        assert(!s.rules[s.rules.len() - 1].contains(n));
        assert forall|i: int| 0 <= i < head.rules.len() implies !(
        #[trigger] head.rules[i].contains(n)) by {
            assert(!s.rules[i].contains(n));
        }
        lemma_apply_uncovered(head, n);
    }
}

/// A well-formed stage without its last rule is well formed.
proof fn lemma_drop_last_wf(s: StageView)
    requires
        s.wf(),
        s.rules.len() > 0,
    ensures
        (StageView { rules: s.rules.drop_last() }).wf(),
{
    let head = StageView { rules: s.rules.drop_last() };
    assert forall|a: int| 0 <= a < head.rules.len() implies (#[trigger] head.rules[a]).wf() by {
        assert(s.rules[a].wf());
    }
    assert forall|a: int, b: int| 0 <= a < b < head.rules.len() implies (
    #[trigger] head.rules[a]).end <= (#[trigger] head.rules[b]).start by {
        assert(s.rules[a].end <= s.rules[b].start);
    }
}

/// In a well-formed stage the one rule that contains `n` decides.
pub proof fn lemma_apply_at(s: StageView, i: int, n: int)
    requires
        s.wf(),
        0 <= i < s.rules.len(),
        s.rules[i].contains(n),
    ensures
        s.covers(n),
        s.apply(n) == s.rules[i].apply(n),
    decreases s.rules.len(),
{
    let last = s.rules.len() - 1;
    if i < last {
        let head = StageView { rules: s.rules.drop_last() };
        assert(s.rules[i].end <= s.rules[last].start);
        assert(!s.rules.last().contains(n));
        lemma_drop_last_wf(s);
        assert(head.rules[i] == s.rules[i]);
        lemma_apply_at(head, i, n);
    }
}

/// A rule stored last decides for the values it contains and leaves the rest
/// to the rules before it.
pub proof fn lemma_push(s: StageView, r: RuleView, n: int)
    ensures
        s.push(r).apply(n) == if r.contains(n) {
            r.apply(n)
        } else {
            s.apply(n)
        },
        s.push(r).covers(n) <==> s.covers(n) || r.contains(n),
{
    let t = s.push(r);
    assert(t.rules.drop_last() =~= s.rules);
    assert(t.rules.last() == r);
    if s.covers(n) {
        let i = choose|i: int| 0 <= i < s.rules.len() && #[trigger] s.rules[i].contains(n);
        assert(t.rules[i].contains(n));
    }
    if r.contains(n) {
        assert(t.rules[t.rules.len() - 1].contains(n));
    }
    if t.covers(n) {
        let i = choose|i: int| 0 <= i < t.rules.len() && #[trigger] t.rules[i].contains(n);
        if i < s.rules.len() {
            assert(s.rules[i].contains(n));
        }
    }
}

/// In a concatenation the second part decides for the values it covers.
pub proof fn lemma_concat(a: StageView, b: StageView, n: int)
    ensures
        a.concat(b).apply(n) == if b.covers(n) {
            b.apply(n)
        } else {
            a.apply(n)
        },
        a.concat(b).covers(n) <==> a.covers(n) || b.covers(n),
    decreases b.rules.len(),
{
    if b.rules.len() == 0 {
        assert(a.concat(b).rules =~= a.rules);
    } else {
        let head = StageView { rules: b.rules.drop_last() };
        let r = b.rules.last();
        assert(a.concat(b).rules =~= a.concat(head).push(r).rules);
        assert(b.rules =~= head.push(r).rules);
        lemma_concat(a, head, n);
        lemma_push(a.concat(head), r, n);
        lemma_push(head, r, n);
    }
}

/// Cutting a stage down to a window keeps what it does inside the window and
/// makes it the identity outside.
pub proof fn lemma_restrict(s: StageView, lo: int, hi: int, n: int)
    ensures
        s.restrict(lo, hi).covers(n) <==> lo <= n < hi && s.covers(n),
        s.restrict(lo, hi).apply(n) == if lo <= n < hi {
            s.apply(n)
        } else {
            n
        },
    decreases s.rules.len(),
{
    if s.rules.len() == 0 {
        assert(!s.covers(n));
    } else {
        let head = StageView { rules: s.rules.drop_last() };
        let r = s.rules.last();
        let piece = r.clip(lo, hi);
        assert(s.rules =~= head.push(r).rules);
        lemma_restrict(head, lo, hi, n);
        lemma_push(head, r, n);
        lemma_push(head.restrict(lo, hi), piece, n);
        if !(lo <= n < hi) && !s.restrict(lo, hi).covers(n) {
            lemma_apply_uncovered(s.restrict(lo, hi), n);
        }
    }
}

/// Cutting a well-formed stage down to a window leaves a well-formed stage
/// whose rules lie in the window, and below any bound that the rules of the
/// stage lie below.
pub proof fn lemma_restrict_wf(s: StageView, lo: int, hi: int, bound: int)
    requires
        s.wf(),
        0 <= lo,
        forall|i: int| 0 <= i < s.rules.len() ==> (#[trigger] s.rules[i]).end <= bound,
    ensures
        s.restrict(lo, hi).wf(),
        forall|i: int|
            0 <= i < s.restrict(lo, hi).rules.len() ==> {
                let r = #[trigger] s.restrict(lo, hi).rules[i];
                lo <= r.start && r.end <= hi && r.end <= bound
            },
    decreases s.rules.len(),
{
    if s.rules.len() > 0 {
        let head = StageView { rules: s.rules.drop_last() };
        let r = s.rules.last();
        let piece = r.clip(lo, hi);
        assert(r.wf());
        lemma_drop_last_wf(s);
        assert forall|i: int| 0 <= i < head.rules.len() implies (#[trigger] head.rules[i]).end
            <= r.start by {
            assert(s.rules[i].end <= s.rules[s.rules.len() - 1].start);
        }
        lemma_restrict_wf(head, lo, hi, r.start);
        let cut = head.restrict(lo, hi);
        if piece.start < piece.end {
            let out = cut.push(piece);
            assert(out.wf()) by {
                assert forall|a: int| 0 <= a < out.rules.len() implies (
                #[trigger] out.rules[a]).wf() by {
                    if a < cut.rules.len() {
                        assert(cut.rules[a].wf());
                    }
                }
                assert forall|a: int, b: int| 0 <= a < b < out.rules.len() implies (
                #[trigger] out.rules[a]).end <= (#[trigger] out.rules[b]).start by {
                    if b < cut.rules.len() {
                        assert(cut.rules[a].end <= cut.rules[b].start);
                    } else {
                        assert(cut.rules[a].end <= r.start);
                    }
                }
            }
            assert forall|i: int| 0 <= i < out.rules.len() implies {
                let x = #[trigger] out.rules[i];
                lo <= x.start && x.end <= hi && x.end <= bound
            } by {
                if i < cut.rules.len() {
                    assert(out.rules[i] == cut.rules[i]);
                } else {
                    assert(s.rules[s.rules.len() - 1].end <= bound);
                }
            }
        }
    }
}

/// Storing a well-formed rule in a well-formed stage leaves a well-formed
/// stage.
pub proof fn lemma_insert_wf(s: StageView, r: RuleView)
    requires
        s.wf(),
        r.wf(),
    ensures
        s.insert(r).wf(),
{
    let below = s.restrict(0, r.start);
    let above = s.restrict(r.end, usize::MAX as int);
    assert forall|i: int| 0 <= i < s.rules.len() implies (#[trigger] s.rules[i]).end
        <= usize::MAX by {
        assert(s.rules[i].wf());
    }
    lemma_restrict_wf(s, 0, r.start, usize::MAX as int);
    lemma_restrict_wf(s, r.end, usize::MAX as int, usize::MAX as int);
    let out = s.insert(r);
    let k = below.rules.len() as int;
    assert forall|a: int| 0 <= a < out.rules.len() implies (#[trigger] out.rules[a]).wf() by {
        if a < k {
            assert(below.rules[a].wf());
        } else if a > k {
            assert(above.rules[a - k - 1].wf());
        }
    }
    assert forall|a: int, b: int| 0 <= a < b < out.rules.len() implies (
    #[trigger] out.rules[a]).end <= (#[trigger] out.rules[b]).start by {
        if b < k {
            assert(below.rules[a].end <= below.rules[b].start);
        } else if a > k {
            assert(above.rules[a - k - 1].end <= above.rules[b - k - 1].start);
        } else {
            if a < k {
                assert(below.rules[a].end <= r.start);
            }
            if b > k {
                assert(r.end <= above.rules[b - k - 1].start);
            }
        }
    }
}

/// A stored rule decides for the values it contains; every other value goes
/// where it went before.
pub proof fn lemma_insert(s: StageView, r: RuleView, n: int)
    requires
        s.wf(),
        r.wf(),
    ensures
        s.insert(r).covers(n) <==> s.covers(n) || r.contains(n),
        s.insert(r).apply(n) == if r.contains(n) {
            r.apply(n)
        } else {
            s.apply(n)
        },
{
    let below = s.restrict(0, r.start);
    let above = s.restrict(r.end, usize::MAX as int);
    lemma_restrict(s, 0, r.start, n);
    lemma_restrict(s, r.end, usize::MAX as int, n);
    lemma_push(below, r, n);
    lemma_concat(below.push(r), above, n);
    if s.covers(n) {
        let i = choose|i: int| 0 <= i < s.rules.len() && #[trigger] s.rules[i].contains(n);
        assert(s.rules[i].wf());
    } else {
        lemma_apply_uncovered(s, n);
    }
}

/// Every rule of a stage cut down to a window is what the window leaves of
/// some rule of the stage.
pub proof fn lemma_restrict_members(s: StageView, lo: int, hi: int, k: int) -> (i: int)
    requires
        0 <= k < s.restrict(lo, hi).rules.len(),
    ensures
        0 <= i < s.rules.len(),
        s.restrict(lo, hi).rules[k] == s.rules[i].clip(lo, hi),
        s.rules[i].clip(lo, hi).start < s.rules[i].clip(lo, hi).end,
    decreases s.rules.len(),
{
    let head = StageView { rules: s.rules.drop_last() };
    let piece = s.rules.last().clip(lo, hi);
    let cut = head.restrict(lo, hi);
    if piece.start < piece.end && k == cut.rules.len() {
        s.rules.len() - 1
    } else {
        lemma_restrict_members(head, lo, hi, k)
    }
}

/// A rule stored where no other rule lies leaves all other rules as they
/// are.
pub proof fn lemma_insert_disjoint(s: StageView, r: RuleView, k: int)
    requires
        s.wf(),
        r.wf(),
        forall|n: int| r.contains(n) ==> !#[trigger] s.covers(n),
        0 <= k < s.insert(r).rules.len(),
    ensures
        s.insert(r).rules[k] == r || s.rules.contains(s.insert(r).rules[k]),
{
    let below = s.restrict(0, r.start);
    let above = s.restrict(r.end, usize::MAX as int);
    let count = below.rules.len() as int;
    if k != count {
        let i = if k < count {
            lemma_restrict_members(s, 0, r.start, k)
        } else {
            lemma_restrict_members(s, r.end, usize::MAX as int, k - count - 1)
        };
        let x = s.rules[i];
        assert(x.wf());
        let meet = if x.start < r.start {
            r.start
        } else {
            x.start
        };
        if x.start < r.end && r.start < x.end {
            assert(x.contains(meet) && r.contains(meet));
            assert(s.covers(meet));
        }
        assert(s.insert(r).rules[k] == x);
    }
}

/// Two well-formed stages of which each holds every rule of the other agree
/// on their first `k` rules.
proof fn lemma_same_rules_prefix(a: StageView, b: StageView, k: int)
    requires
        a.wf(),
        b.wf(),
        forall|i: int| 0 <= i < a.rules.len() ==> b.rules.contains(#[trigger] a.rules[i]),
        forall|i: int| 0 <= i < b.rules.len() ==> a.rules.contains(#[trigger] b.rules[i]),
        0 <= k <= a.rules.len(),
    ensures
        k <= b.rules.len(),
        forall|i: int| 0 <= i < k ==> a.rules[i] == b.rules[i],
    decreases k,
{
    if k > 0 {
        let i = k - 1;
        lemma_same_rules_prefix(a, b, i);
        assert(b.rules.contains(a.rules[i]));
        let j = choose|j: int| 0 <= j < b.rules.len() && b.rules[j] == a.rules[i];
        assert(a.rules[i].wf());
        if j < i {
            assert(a.rules[j] == b.rules[j]);
            assert(a.rules[j].end <= a.rules[i].start);
        }
        assert(a.rules.contains(b.rules[i]));
        let m = choose|m: int| 0 <= m < a.rules.len() && a.rules[m] == b.rules[i];
        assert(b.rules[i].wf());
        if m < i {
            assert(a.rules[m] == b.rules[m]);
            assert(b.rules[m].end <= b.rules[i].start);
        }
        if i < j {
            assert(b.rules[i].end <= b.rules[j].start);
            if i < m {
                assert(a.rules[i].end <= a.rules[m].start);
            }
        }
    }
}

/// Two well-formed stages of which each holds every rule of the other are the
/// same stage.
pub proof fn lemma_same_rules(a: StageView, b: StageView)
    requires
        a.wf(),
        b.wf(),
        forall|i: int| 0 <= i < a.rules.len() ==> b.rules.contains(#[trigger] a.rules[i]),
        forall|i: int| 0 <= i < b.rules.len() ==> a.rules.contains(#[trigger] b.rules[i]),
    ensures
        a == b,
{
    lemma_same_rules_prefix(a, b, a.rules.len() as int);
    lemma_same_rules_prefix(b, a, b.rules.len() as int);
    assert(a.rules =~= b.rules);
}

/// Every rule of a stage that meets a window is found, clipped, in the stage
/// cut down to the window.
pub proof fn lemma_restrict_holds(s: StageView, lo: int, hi: int, i: int)
    requires
        0 <= i < s.rules.len(),
        s.rules[i].clip(lo, hi).start < s.rules[i].clip(lo, hi).end,
    ensures
        s.restrict(lo, hi).rules.contains(s.rules[i].clip(lo, hi)),
    decreases s.rules.len(),
{
    let head = StageView { rules: s.rules.drop_last() };
    let piece = s.rules.last().clip(lo, hi);
    let cut = head.restrict(lo, hi);
    if i == s.rules.len() - 1 {
        assert(s.restrict(lo, hi).rules[cut.rules.len() as int] == piece);
    } else {
        lemma_restrict_holds(head, lo, hi, i);
        let k = choose|k: int|
            0 <= k < cut.rules.len() && cut.rules[k] == head.rules[i].clip(lo, hi);
        assert(s.restrict(lo, hi).rules[k] == cut.rules[k]);
    }
}

/// Where a rule of a stage comes from in which `r` has been stored: it is
/// `r`, or what `r` leaves of an earlier rule on one side.
pub proof fn lemma_insert_from(s: StageView, r: RuleView, k: int) -> (origin: Option<(int, bool)>)
    requires
        0 <= k < s.insert(r).rules.len(),
    ensures
        match origin {
            None => s.insert(r).rules[k] == r,
            Some((i, above)) => {
                &&& 0 <= i < s.rules.len()
                &&& s.insert(r).rules[k] == s.rules[i].beside(r, above)
                &&& s.rules[i].beside(r, above).start < s.rules[i].beside(r, above).end
            },
        },
{
    let below = s.restrict(0, r.start);
    let count = below.rules.len() as int;
    if k < count {
        let i = lemma_restrict_members(s, 0, r.start, k);
        Some((i, false))
    } else if k == count {
        None
    } else {
        let i = lemma_restrict_members(s, r.end, usize::MAX as int, k - count - 1);
        Some((i, true))
    }
}

/// A stage in which `r` has been stored holds `r`, and holds what `r` leaves
/// of each earlier rule on either side.
pub proof fn lemma_insert_holds(s: StageView, r: RuleView)
    ensures
        s.insert(r).rules.contains(r),
        forall|i: int, above: bool|
            0 <= i < s.rules.len() && (#[trigger] s.rules[i].beside(r, above)).start
                < s.rules[i].beside(r, above).end ==> s.insert(r).rules.contains(
                s.rules[i].beside(r, above),
            ),
{
    let below = s.restrict(0, r.start);
    let above_part = s.restrict(r.end, usize::MAX as int);
    let count = below.rules.len() as int;
    let out = s.insert(r);
    assert(out.rules[count] == r);
    assert forall|i: int, above: bool|
        0 <= i < s.rules.len() && (#[trigger] s.rules[i].beside(r, above)).start
            < s.rules[i].beside(r, above).end implies out.rules.contains(
        s.rules[i].beside(r, above),
    ) by {
        if above {
            lemma_restrict_holds(s, r.end, usize::MAX as int, i);
            let k = choose|k: int|
                0 <= k < above_part.rules.len() && above_part.rules[k] == s.rules[i].beside(
                    r,
                    above,
                );
            assert(out.rules[count + 1 + k] == above_part.rules[k]);
        } else {
            lemma_restrict_holds(s, 0, r.start, i);
            let k = choose|k: int|
                0 <= k < below.rules.len() && below.rules[k] == s.rules[i].beside(r, above);
            assert(out.rules[k] == below.rules[k]);
        }
    }
}

/// Every rule of a stage in which first `a` and then `b` has been stored,
/// two rules that share no value, is a rule of the stage in which first `b`
/// and then `a` has been stored.
pub proof fn lemma_insert_twice(s: StageView, a: RuleView, b: RuleView, k: int)
    requires
        s.wf(),
        a.wf(),
        b.wf(),
        a.end <= b.start || b.end <= a.start,
        0 <= k < s.insert(a).insert(b).rules.len(),
    ensures
        s.insert(b).insert(a).rules.contains(s.insert(a).insert(b).rules[k]),
{
    let first = s.insert(a);
    let other = s.insert(b);
    let y = first.insert(b).rules[k];
    lemma_insert_holds(s, b);
    lemma_insert_holds(other, a);
    match lemma_insert_from(first, b, k) {
        None => {
            let at = choose|at: int| 0 <= at < other.rules.len() && other.rules[at] == b;
            assert(other.rules[at].beside(a, b.end > a.start) == b);
        },
        Some((m, side_b)) => {
            let x = first.rules[m];
            match lemma_insert_from(s, a, m) {
                None => {
                    assert(y == a);
                },
                Some((i, side_a)) => {
                    let z = s.rules[i].beside(b, side_b);
                    assert(s.rules[i].wf());
                    assert(z.start < z.end);
                    let at = choose|at: int| 0 <= at < other.rules.len() && other.rules[at] == z;
                    assert(other.rules[at].beside(a, side_a) == y);
                },
            }
        },
    }
}

/// Rules stored one after another make a well-formed stage in which, for
/// every value, the last rule given that contains it decides.
pub proof fn lemma_build(rules: Seq<RuleView>, n: int)
    requires
        forall|i: int| 0 <= i < rules.len() ==> (#[trigger] rules[i]).wf(),
    ensures
        StageView::build(rules).wf(),
        StageView::build(rules).covers(n) <==> (StageView { rules }).covers(n),
        StageView::build(rules).apply(n) == (StageView { rules }).apply(n),
    decreases rules.len(),
{
    let listed = StageView { rules };
    if rules.len() == 0 {
        assert(!listed.covers(n));
        assert(!StageView::empty().covers(n));
    } else {
        let head = rules.drop_last();
        let r = rules.last();
        assert forall|i: int| 0 <= i < head.len() implies (#[trigger] head[i]).wf() by {
            assert(rules[i].wf());
        }
        assert(rules[rules.len() - 1].wf());
        lemma_build(head, n);
        lemma_insert_wf(StageView::build(head), r);
        lemma_insert(StageView::build(head), r, n);
        assert(listed.rules =~= (StageView { rules: head }).push(r).rules);
        lemma_push(StageView { rules: head }, r, n);
    }
}

/// Applying a pipeline from stage `k` on is applying stage `k` and then the
/// pipeline from the next stage on.
pub proof fn lemma_chain_step(stages: Seq<StageView>, k: int, n: int)
    requires
        0 <= k < stages.len(),
    ensures
        chain_apply(stages.skip(k), n) == chain_apply(stages.skip(k + 1), stages[k].apply(n)),
{
    assert(stages.skip(k).drop_first() =~= stages.skip(k + 1));
    assert(stages.skip(k).first() == stages[k]);
}

} // verus!
