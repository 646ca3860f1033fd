//! Cutting a window of values into the stretches that a stage treats alike.

use crate::model::{lemma_apply_at, lemma_apply_uncovered, StageView};
use crate::stage::MappingStage;
use vstd::prelude::*;

verus! {

/// A stretch `[start, end)` of consecutive values that a stage treats alike:
/// either one rule contains them all, or no rule contains any of them. The
/// stage sends `start` to `image`, and every value of the stretch as far
/// behind `image` as it lies behind `start`.
#[derive(Clone, Copy, Debug, PartialEq, Eq)]
pub struct Segment {
    pub start: usize,
    pub end: usize,
    pub image: usize,
    pub covered: bool,
}

impl Segment {
    /// `n` lies in the stretch.
    pub open spec fn contains(self, n: int) -> bool {
        self.start <= n < self.end
    }

    /// Where the stretch says that `n` goes.
    pub open spec fn apply(self, n: int) -> int {
        self.image + (n - self.start)
    }

    /// The stretch says what `stage` does: a covered stretch lies within one
    /// rule of the stage and moves with it; an uncovered one meets no rule and
    /// stays in place.
    pub open spec fn follows(self, stage: StageView) -> bool {
        if self.covered {
            exists|i: int|
                0 <= i < stage.rules.len() && #[trigger] stage.rules[i].contains(self.start as int)
                    && stage.rules[i].contains(self.end - 1) && self.image
                    == stage.rules[i].apply(self.start as int)
        } else {
            self.image == self.start && forall|n: int|
                self.contains(n) ==> !#[trigger] stage.covers(n)
        }
    }
}

/// One rule of the stage contains both `x` and `y`.
pub open spec fn same_rule(stage: StageView, x: int, y: int) -> bool {
    exists|i: int|
        0 <= i < stage.rules.len() && #[trigger] stage.rules[i].contains(x)
            && stage.rules[i].contains(y)
}

/// Two stretches, the second starting where the first ends, that the stage
/// treats alike: they could be one stretch.
pub open spec fn joinable(stage: StageView, a: Segment, b: Segment) -> bool {
    (!a.covered && !b.covered) || same_rule(stage, a.end - 1, b.start as int)
}

/// The stretches are non-empty and lie end to end from `lo` to `hi`; there
/// are none if the window `[lo, hi)` is empty.
pub open spec fn tiles(segs: Seq<Segment>, lo: int, hi: int) -> bool {
    if hi <= lo {
        segs.len() == 0
    } else {
        &&& segs.len() > 0
        &&& segs.first().start == lo
        &&& segs.last().end == hi
        &&& forall|k: int| 0 <= k < segs.len() ==> (#[trigger] segs[k]).start < segs[k].end
        &&& forall|a: int, b: int|
            0 <= a && b == a + 1 && b < segs.len() ==> (#[trigger] segs[a]).end == (
            #[trigger] segs[b]).start
    }
}

/// `segs` is the division of the window `[lo, hi)` into the longest stretches
/// that `stage` treats alike.
pub open spec fn splits(stage: StageView, lo: int, hi: int, segs: Seq<Segment>) -> bool {
    &&& tiles(segs, lo, hi)
    &&& forall|k: int| 0 <= k < segs.len() ==> (#[trigger] segs[k]).follows(stage)
    &&& forall|a: int, b: int|
        0 <= a && b == a + 1 && b < segs.len() ==> !joinable(
            stage,
            #[trigger] segs[a],
            #[trigger] segs[b],
        )
}

impl StageView {
    /// The nearest start of a rule behind `lo` and before `hi`, or `hi` if no
    /// rule starts between the two.
    pub open spec fn next_start(self, lo: int, hi: int) -> int
        decreases self.rules.len(),
    {
        if self.rules.len() == 0 {
            hi
        } else {
            let rest = (StageView { rules: self.rules.drop_last() }).next_start(lo, hi);
            let start = self.rules.last().start;
            if lo < start < rest {
                start
            } else {
                rest
            }
        }
    }

    /// The longest stretch from `lo` on, and before `hi`, that the stage
    /// treats alike.
    pub open spec fn head(self, lo: int, hi: int) -> Segment {
        if self.covers(lo) {
            let rule = self.rules[choose|i: int|
                0 <= i < self.rules.len() && #[trigger] self.rules[i].contains(lo)];
            Segment {
                start: lo as usize,
                end: (if rule.end < hi {
                    rule.end
                } else {
                    hi
                }) as usize,
                image: rule.apply(lo) as usize,
                covered: true,
            }
        } else {
            Segment {
                start: lo as usize,
                end: self.next_start(lo, hi) as usize,
                image: lo as usize,
                covered: false,
            }
        }
    }

    /// The division of the window `[lo, hi)` into the longest stretches that
    /// the stage treats alike, in increasing order.
    pub open spec fn cut(self, lo: int, hi: int) -> Seq<Segment>
        decreases hi - lo,
        when self.wf() && 0 <= lo && hi <= usize::MAX
    {
        if hi <= lo {
            Seq::empty()
        } else {
            proof {
                lemma_head(self, lo, hi);
            }
            let seg = self.head(lo, hi);
            seq![seg] + self.cut(seg.end as int, hi)
        }
    }
}

/// The nearest start of a rule behind `lo` lies behind `lo`, no rule starts
/// between the two, and a rule starts there unless it is `hi`.
pub proof fn lemma_next_start(s: StageView, lo: int, hi: int)
    requires
        lo < hi,
    ensures
        lo < s.next_start(lo, hi) <= hi,
        forall|i: int|
            0 <= i < s.rules.len() ==> !(lo < (#[trigger] s.rules[i]).start < s.next_start(lo, hi)),
        s.next_start(lo, hi) < hi ==> exists|i: int|
            0 <= i < s.rules.len() && (#[trigger] s.rules[i]).start == s.next_start(lo, hi),
    decreases s.rules.len(),
{
    if s.rules.len() > 0 {
        let head = StageView { rules: s.rules.drop_last() };
        let last = s.rules.len() - 1;
        lemma_next_start(head, lo, hi);
        assert forall|i: int| 0 <= i < s.rules.len() implies !(lo < (#[trigger] s.rules[i]).start
            < s.next_start(lo, hi)) by {
            if i < last {
                assert(head.rules[i] == s.rules[i]);
            }
        }
        if s.next_start(lo, hi) < hi {
            if s.next_start(lo, hi) == s.rules[last].start {
            } else {
                let i = choose|i: int|
                    0 <= i < head.rules.len() && (#[trigger] head.rules[i]).start
                        == head.next_start(lo, hi);
                assert(s.rules[i].start == s.next_start(lo, hi));
            }
        }
    }
}

/// In a well-formed stage, the rule that contains a value is the only one.
pub proof fn lemma_rule_at(s: StageView, i: int, j: int, n: int)
    requires
        s.wf(),
        0 <= i < s.rules.len(),
        0 <= j < s.rules.len(),
        s.rules[i].contains(n),
        s.rules[j].contains(n),
    ensures
        i == j,
{
    if i < j {
        assert(s.rules[i].end <= s.rules[j].start);
    }
    if j < i {
        assert(s.rules[j].end <= s.rules[i].start);
    }
}

/// The longest stretch from `lo` on starts at `lo`, is not empty, ends at or
/// before `hi`, follows the stage, and could not be one with the longest
/// stretch from its end on.
pub proof fn lemma_head(s: StageView, lo: int, hi: int)
    requires
        s.wf(),
        0 <= lo < hi <= usize::MAX,
    ensures
        s.head(lo, hi).start == lo,
        lo < s.head(lo, hi).end <= hi,
        s.head(lo, hi).follows(s),
        s.head(lo, hi).end < hi ==> !joinable(
            s,
            s.head(lo, hi),
            s.head(s.head(lo, hi).end as int, hi),
        ),
{
    let seg = s.head(lo, hi);
    if s.covers(lo) {
        let i = choose|i: int| 0 <= i < s.rules.len() && #[trigger] s.rules[i].contains(lo);
        assert(s.rules[i].wf());
        assert(s.rules[i].contains(seg.start as int) && s.rules[i].contains(seg.end - 1));
        if seg.end < hi {
            let after = s.head(seg.end as int, hi);
            assert(after.start == seg.end) by {
                if s.covers(seg.end as int) {
                    let j = choose|j: int|
                        0 <= j < s.rules.len() && #[trigger] s.rules[j].contains(seg.end as int);
                    assert(s.rules[j].wf());
                }
            }
            assert(!same_rule(s, seg.end - 1, after.start as int)) by {
                if same_rule(s, seg.end - 1, after.start as int) {
                    let j = choose|j: int|
                        0 <= j < s.rules.len() && #[trigger] s.rules[j].contains(seg.end - 1)
                            && s.rules[j].contains(after.start as int);
                    lemma_rule_at(s, i, j, seg.end - 1);
                }
            }
        }
    } else {
        lemma_next_start(s, lo, hi);
        assert forall|n: int| seg.contains(n) implies !#[trigger] s.covers(n) by {
            if s.covers(n) {
                let j = choose|j: int| 0 <= j < s.rules.len() && #[trigger] s.rules[j].contains(n);
                assert(!s.rules[j].contains(lo));
                assert(!(lo < s.rules[j].start < s.next_start(lo, hi)));
            }
        }
        if seg.end < hi {
            let j = choose|j: int|
                0 <= j < s.rules.len() && (#[trigger] s.rules[j]).start == s.next_start(lo, hi);
            assert(s.rules[j].wf());
            assert(s.rules[j].contains(seg.end as int));
            assert(s.covers(seg.end as int));
            let after = s.head(seg.end as int, hi);
            assert(after.covered);
            assert(seg.contains(seg.end - 1));
            assert(!s.covers(seg.end - 1));
        }
    }
}

/// The cut of a window is its division into the longest stretches that the
/// stage treats alike.
pub proof fn lemma_cut(s: StageView, lo: int, hi: int)
    requires
        s.wf(),
        0 <= lo,
        hi <= usize::MAX,
    ensures
        splits(s, lo, hi, s.cut(lo, hi)),
        lo < hi ==> s.cut(lo, hi)[0] == s.head(lo, hi),
    decreases hi - lo,
{
    if lo < hi {
        let seg = s.head(lo, hi);
        let rest = s.cut(seg.end as int, hi);
        let all = s.cut(lo, hi);
        lemma_head(s, lo, hi);
        lemma_cut(s, seg.end as int, hi);
        assert(all =~= seq![seg] + rest);
        assert(all[0] == seg);
        assert forall|k: int| 1 <= k < all.len() implies all[k] == rest[k - 1] by {}
        assert(all.last().end == hi) by {
            if rest.len() > 0 {
                assert(all.last() == rest.last());
            }
        }
        assert forall|k: int| 0 <= k < all.len() implies (#[trigger] all[k]).start < all[k].end
            && all[k].follows(s) by {
            if k > 0 {
                assert(all[k] == rest[k - 1]);
            }
        }
        assert forall|a: int, b: int| 0 <= a && b == a + 1 && b < all.len() implies (
        #[trigger] all[a]).end == (#[trigger] all[b]).start && !joinable(s, all[a], all[b]) by {
            if a > 0 {
                assert(all[a] == rest[a - 1] && all[b] == rest[b - 1]);
            } else {
                assert(all[b] == rest[0]);
            }
        }
    }
}

/// What a stretch that follows a stage says of each of its values: whether
/// the stage covers it, and where the stage sends it.
pub proof fn lemma_segment_point(stage: StageView, seg: Segment, n: int)
    requires
        stage.wf(),
        seg.follows(stage),
        seg.contains(n),
    ensures
        stage.covers(n) == seg.covered,
        stage.apply(n) == seg.apply(n),
        0 <= seg.apply(n) <= usize::MAX,
{
    if seg.covered {
        let i = choose|i: int|
            0 <= i < stage.rules.len() && #[trigger] stage.rules[i].contains(seg.start as int)
                && stage.rules[i].contains(seg.end - 1) && seg.image == stage.rules[i].apply(
                seg.start as int,
            );
        assert(stage.rules[i].contains(n));
        assert(stage.rules[i].wf());
        lemma_apply_at(stage, i, n);
    } else {
        assert(!stage.covers(n));
        lemma_apply_uncovered(stage, n);
    }
}

/// The image of a stretch that follows a well-formed stage fits in `usize`.
pub proof fn lemma_segment_bounds(stage: StageView, seg: Segment)
    requires
        stage.wf(),
        seg.follows(stage),
        seg.start < seg.end,
    ensures
        seg.image + (seg.end - seg.start) <= usize::MAX,
{
    if seg.covered {
        let i = choose|i: int|
            0 <= i < stage.rules.len() && #[trigger] stage.rules[i].contains(seg.start as int)
                && stage.rules[i].contains(seg.end - 1) && seg.image == stage.rules[i].apply(
                seg.start as int,
            );
        assert(stage.rules[i].wf());
    }
}

/// Stretches that lie end to end from `lo` start at or behind `lo`.
proof fn lemma_tiles_lower(segs: Seq<Segment>, lo: int, hi: int, k: int)
    requires
        tiles(segs, lo, hi),
        0 <= k < segs.len(),
    ensures
        lo <= segs[k].start,
    decreases k,
{
    if k > 0 {
        lemma_tiles_lower(segs, lo, hi, k - 1);
        assert(segs[k - 1].start < segs[k - 1].end);
        assert(segs[k - 1].end == segs[k].start);
    }
}

/// Stretches that lie end to end up to `hi` end at or before `hi`.
proof fn lemma_tiles_upper(segs: Seq<Segment>, lo: int, hi: int, k: int)
    requires
        tiles(segs, lo, hi),
        0 <= k < segs.len(),
    ensures
        segs[k].end <= hi,
    decreases segs.len() - k,
{
    if k + 1 < segs.len() {
        lemma_tiles_upper(segs, lo, hi, k + 1);
        assert(segs[k + 1].start < segs[k + 1].end);
        assert(segs[k].end == segs[k + 1].start);
    }
}

/// Stretches that lie end to end from `lo` to `hi` lie between the two.
pub proof fn lemma_tiles_within(segs: Seq<Segment>, lo: int, hi: int, k: int)
    requires
        tiles(segs, lo, hi),
        0 <= k < segs.len(),
    ensures
        lo <= segs[k].start < segs[k].end <= hi,
{
    lemma_tiles_lower(segs, lo, hi, k);
    lemma_tiles_upper(segs, lo, hi, k);
}

/// Stretches that lie end to end from `lo` to `hi` leave out no value between
/// the two.
pub proof fn lemma_tiles_locate(segs: Seq<Segment>, lo: int, hi: int, n: int) -> (k: int)
    requires
        tiles(segs, lo, hi),
        lo <= n < hi,
    ensures
        0 <= k < segs.len(),
        segs[k].contains(n),
    decreases segs.len(),
{
    let last = segs.len() - 1;
    if segs[last].start <= n {
        last
    } else {
        let head = segs.drop_last();
        assert(last > 0);
        assert(segs[last - 1].end == segs[last].start);
        assert(tiles(head, lo, segs[last].start as int)) by {
            assert(head.first() == segs[0]);
            assert(head.last() == segs[last - 1]);
            assert(segs[last - 1].start < segs[last - 1].end);
            assert forall|k: int| 0 <= k < head.len() implies (#[trigger] head[k]).start
                < head[k].end by {
                assert(segs[k].start < segs[k].end);
            }
            assert forall|a: int, b: int| 0 <= a && b == a + 1 && b < head.len() implies (
            #[trigger] head[a]).end == (#[trigger] head[b]).start by {
                assert(segs[a].end == segs[b].start);
            }
        }
        lemma_tiles_locate(head, lo, segs[last].start as int, n)
    }
}

impl MappingStage {
    /// Divides the window `[lo, hi)` into the longest stretches that the stage
    /// treats alike, in increasing order: the parts of the window that lie in
    /// one rule each, and the gaps between them that no rule covers.
    pub fn segments(&self, lo: usize, hi: usize) -> (segs: Vec<Segment>)
        ensures
            segs@ == self@.cut(lo as int, hi as int),
            splits(self@, lo as int, hi as int, segs@),
    {
        proof {
            use_type_invariant(self);
            lemma_cut(self@, lo as int, hi as int);
        }
        let mut segs: Vec<Segment> = Vec::new();
        if hi <= lo {
            return segs;
        }
        let count = self.len();
        let mut i: usize = self.first_ending_after(lo);
        let mut cursor: usize = lo;
        assert(segs@ + self@.cut(cursor as int, hi as int) =~= self@.cut(lo as int, hi as int));
        while cursor < hi
            invariant
                self@.wf(),
                count == self@.rules.len(),
                lo <= cursor <= hi,
                i <= count,
                forall|k: int| 0 <= k < i ==> (#[trigger] self@.rules[k]).end <= cursor,
                forall|k: int| i <= k < count ==> cursor < (#[trigger] self@.rules[k]).end,
                segs@ + self@.cut(cursor as int, hi as int) == self@.cut(lo as int, hi as int),
            decreases hi - cursor,
        {
            let ghost held = segs@;
            let ghost stage = self@;
            let seg = if i < count && self.rule(i).source_start() <= cursor {
                let rule = self.rule(i);
                let end: usize = if rule.source_end() < hi {
                    rule.source_end()
                } else {
                    hi
                };
                proof {
                    assert(stage.rules[i as int].wf());
                    assert(stage.rules[i as int].contains(cursor as int));
                    let j = choose|j: int|
                        0 <= j < stage.rules.len() && #[trigger] stage.rules[j].contains(
                            cursor as int,
                        );
                    lemma_rule_at(stage, i as int, j, cursor as int);
                }
                let seg = Segment {
                    start: cursor,
                    end,
                    image: rule.dest_start() + (cursor - rule.source_start()),
                    covered: true,
                };
                if end == rule.source_end() {
                    proof {
                        assert forall|k: int| i + 1 <= k < count implies end < (
                        #[trigger] stage.rules[k]).end by {
                            assert(stage.rules[i as int].end <= stage.rules[k].start);
                            assert(stage.rules[k].wf());
                        }
                    }
                    i += 1;
                }
                seg
            } else {
                let end: usize = if i < count && self.rule(i).source_start() < hi {
                    self.rule(i).source_start()
                } else {
                    hi
                };
                proof {
                    assert forall|j: int| 0 <= j < count implies !(
                    #[trigger] stage.rules[j].contains(cursor as int)) && !(cursor
                        < stage.rules[j].start < end) by {
                        if j > i {
                            assert(stage.rules[i as int].end <= stage.rules[j].start);
                            assert(stage.rules[i as int].wf());
                        }
                        assert(stage.rules[j].wf());
                    }
                    lemma_next_start(stage, cursor as int, hi as int);
                    if i < count {
                        assert(stage.rules[i as int].wf());
                        assert(!(cursor < stage.rules[i as int].start < stage.next_start(
                            cursor as int,
                            hi as int,
                        )));
                    }
                    if stage.next_start(cursor as int, hi as int) < hi {
                        let j = choose|j: int|
                            0 <= j < stage.rules.len() && (#[trigger] stage.rules[j]).start
                                == stage.next_start(cursor as int, hi as int);
                        assert(stage.rules[j].wf());
                        assert(!(cursor < stage.rules[j].start < end));
                    }
                }
                Segment { start: cursor, end, image: cursor, covered: false }
            };
            proof {
                assert(seg == stage.head(cursor as int, hi as int));
                assert(stage.cut(cursor as int, hi as int) =~= seq![seg] + stage.cut(
                    seg.end as int,
                    hi as int,
                ));
            }
            segs.push(seg);
            proof {
                assert(segs@ + stage.cut(seg.end as int, hi as int) =~= held + stage.cut(
                    cursor as int,
                    hi as int,
                ));
            }
            cursor = seg.end;
        }
        assert(segs@ + self@.cut(hi as int, hi as int) =~= segs@);
        segs
    }
}

} // verus!
