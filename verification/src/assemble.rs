//! Putting the merge of two chained stages together, rule by rule, and why
//! what comes out is their merge.

use crate::model::{
    lemma_apply_at, lemma_apply_uncovered, lemma_insert, lemma_insert_disjoint, lemma_insert_wf,
    lemma_push, StageView,
};
use crate::rule::RuleView;
use crate::runs::lemma_merge_is;
use crate::segment::{
    joinable, lemma_cut, lemma_segment_bounds, lemma_segment_point, lemma_tiles_locate,
    lemma_tiles_within, same_rule, splits, tiles, Segment,
};
use vstd::prelude::*;

verus! {

/// The part of rule `i` of `first` whose image is stretch `k` of the image of
/// the rule, as `next` divides it.
pub open spec fn through_piece(first: StageView, i: int, segs: Seq<Segment>, k: int) -> RuleView {
    let rule = first.rules[i];
    RuleView {
        start: rule.start + (segs[k].start - rule.dest),
        end: rule.start + (segs[k].end - rule.dest),
        dest: segs[k].image as int,
    }
}

/// Stretch `k` of the source range of rule `j` of `next`, sent where the rule
/// sends it.
pub open spec fn gap_piece(next: StageView, j: int, segs: Seq<Segment>, k: int) -> RuleView {
    let rule = next.rules[j];
    RuleView {
        start: segs[k].start as int,
        end: segs[k].end as int,
        dest: rule.dest + (segs[k].start - rule.start),
    }
}

impl StageView {
    /// The image of rule `i`, divided into the longest stretches that `next`
    /// treats alike.
    pub open spec fn image_cut(self, i: int, next: StageView) -> Seq<Segment> {
        let rule = self.rules[i];
        next.cut(rule.dest, rule.dest + rule.len())
    }

    /// What rule `i` followed by `next` does: one rule for each stretch of the
    /// image of rule `i`, each sent straight to where `next` sends the stretch.
    pub open spec fn through(self, i: int, next: StageView) -> Seq<Option<RuleView>> {
        let segs = self.image_cut(i, next);
        Seq::new(segs.len(), |k: int| Some(through_piece(self, i, segs, k)))
    }

    /// The source range of rule `j` of `next`, divided into the longest
    /// stretches that the stage treats alike.
    pub open spec fn source_cut(self, next: StageView, j: int) -> Seq<Segment> {
        self.cut(next.rules[j].start, next.rules[j].end)
    }

    /// What rule `j` of `next` does to the values that the stage leaves
    /// alone: one rule for each gap that the stage leaves in the source range
    /// of rule `j`, and nothing for the stretches that the stage covers.
    pub open spec fn left_alone(self, next: StageView, j: int) -> Seq<Option<RuleView>> {
        let segs = self.source_cut(next, j);
        Seq::new(
            segs.len(),
            |k: int|
                if segs[k].covered {
                    None
                } else {
                    Some(gap_piece(next, j, segs, k))
                },
        )
    }

    /// The stage after the rules among `pieces` have been stored in it, one
    /// after another.
    pub open spec fn store_all(self, pieces: Seq<Option<RuleView>>) -> StageView
        decreases pieces.len(),
    {
        if pieces.len() == 0 {
            self
        } else {
            let held = self.store_all(pieces.drop_last());
            match pieces.last() {
                Some(r) => held.insert(r),
                None => held,
            }
        }
    }

    /// What the first `i` rules of the stage, each followed by `next`, do.
    pub open spec fn sent_through(self, next: StageView, i: int) -> StageView
        decreases i,
    {
        if i <= 0 {
            StageView::empty()
        } else {
            self.sent_through(next, i - 1).store_all(self.through(i - 1, next))
        }
    }

    /// What the stage followed by `next` does, as far as the rules of the
    /// stage and the first `j` rules of `next` say.
    pub open spec fn filled_up(self, next: StageView, j: int) -> StageView
        decreases j,
    {
        if j <= 0 {
            self.sent_through(next, self.rules.len() as int)
        } else {
            self.filled_up(next, j - 1).store_all(self.left_alone(next, j - 1))
        }
    }

    /// The merge of the stage with `next`, put together rule by rule.
    pub open spec fn assemble(self, next: StageView) -> StageView {
        self.filled_up(next, next.rules.len() as int)
    }
}

/// One of the rules among `pieces` contains `n`.
pub open spec fn held_by(pieces: Seq<Option<RuleView>>, n: int) -> bool {
    exists|k: int|
        0 <= k < pieces.len() && (#[trigger] pieces[k]) is Some && pieces[k]->Some_0.contains(n)
}

/// The rules among `pieces` are well formed, and each lies before those that
/// come later.
pub open spec fn in_order(pieces: Seq<Option<RuleView>>) -> bool {
    &&& forall|k: int|
        0 <= k < pieces.len() && (#[trigger] pieces[k]) is Some ==> pieces[k]->Some_0.wf()
    &&& forall|a: int, b: int|
        0 <= a < b < pieces.len() && (#[trigger] pieces[a]) is Some && (
        #[trigger] pieces[b]) is Some ==> pieces[a]->Some_0.end <= pieces[b]->Some_0.start
}

/// A rule that contains one of two values and not the other shows that its
/// stage does not treat them alike.
proof fn lemma_told_apart(s: StageView, i: int, a: int, b: int)
    requires
        0 <= i < s.rules.len(),
        s.rules[i].contains(a) != s.rules[i].contains(b),
    ensures
        !s.alike(a, b),
{
}

/// A well-formed stage treats the values of one of its rules alike.
proof fn lemma_alike_within(s: StageView, i: int, a: int, b: int)
    requires
        s.wf(),
        0 <= i < s.rules.len(),
        s.rules[i].contains(a),
        s.rules[i].contains(b),
    ensures
        s.alike(a, b),
{
    assert forall|m: int| 0 <= m < s.rules.len() implies ((#[trigger] s.rules[m]).contains(a)
        <==> s.rules[m].contains(b)) by {
        if m < i {
            assert(s.rules[m].end <= s.rules[i].start);
        }
        if i < m {
            assert(s.rules[i].end <= s.rules[m].start);
        }
    }
}

/// A stage treats values alike that none of its rules contains.
proof fn lemma_alike_outside(s: StageView, a: int, b: int)
    requires
        !s.covers(a),
        !s.covers(b),
    ensures
        s.alike(a, b),
{
    assert forall|m: int| 0 <= m < s.rules.len() implies ((#[trigger] s.rules[m]).contains(a)
        <==> s.rules[m].contains(b)) by {
        assert(!s.rules[m].contains(a));
        assert(!s.rules[m].contains(b));
    }
}

/// A stage treats the values of a stretch that follows it alike.
proof fn lemma_alike_in_segment(s: StageView, seg: Segment, a: int, b: int)
    requires
        s.wf(),
        seg.follows(s),
        seg.contains(a),
        seg.contains(b),
    ensures
        s.alike(a, b),
{
    if seg.covered {
        let i = choose|i: int|
            0 <= i < s.rules.len() && #[trigger] s.rules[i].contains(seg.start as int)
                && s.rules[i].contains(seg.end - 1) && seg.image == s.rules[i].apply(
                seg.start as int,
            );
        lemma_alike_within(s, i, a, b);
    } else {
        assert(!s.covers(a));
        assert(!s.covers(b));
        lemma_alike_outside(s, a, b);
    }
}

/// A stage does not treat the last value of a stretch like the first value
/// of the next where the two stretches could not be one.
proof fn lemma_apart_at_joint(s: StageView, a: Segment, b: Segment)
    requires
        s.wf(),
        a.follows(s),
        b.follows(s),
        a.start < a.end == b.start < b.end,
        !joinable(s, a, b),
    ensures
        !s.alike(a.end - 1, b.start as int),
{
    if a.covered {
        let i = choose|i: int|
            0 <= i < s.rules.len() && #[trigger] s.rules[i].contains(a.start as int)
                && s.rules[i].contains(a.end - 1) && a.image == s.rules[i].apply(a.start as int);
        if s.rules[i].contains(b.start as int) {
            assert(same_rule(s, a.end - 1, b.start as int));
        }
        lemma_told_apart(s, i, a.end - 1, b.start as int);
    } else {
        let i = choose|i: int|
            0 <= i < s.rules.len() && #[trigger] s.rules[i].contains(b.start as int)
                && s.rules[i].contains(b.end - 1) && b.image == s.rules[i].apply(b.start as int);
        assert(a.contains(a.end - 1));
        assert(!s.covers(a.end - 1));
        lemma_told_apart(s, i, a.end - 1, b.start as int);
    }
}

/// What lies of a rule over one stretch of its image is a longest run of
/// values that the rule's stage and the next treat alike.
proof fn lemma_through_piece(first: StageView, i: int, next: StageView, segs: Seq<Segment>, k: int)
    requires
        first.wf(),
        next.wf(),
        0 <= i < first.rules.len(),
        splits(next, first.rules[i].dest, first.rules[i].dest + first.rules[i].len(), segs),
        0 <= k < segs.len(),
    ensures
        first.is_run(next, through_piece(first, i, segs, k)),
{
    let rule = first.rules[i];
    let lo = rule.dest;
    let hi = rule.dest + (rule.end - rule.start);
    let seg = segs[k];
    let piece = through_piece(first, i, segs, k);
    assert(rule.wf());
    assert(seg.follows(next));
    lemma_tiles_within(segs, lo, hi, k);
    assert forall|n: int| rule.contains(n) implies first.apply(n) == rule.dest + (n
        - rule.start) by {
        lemma_apply_at(first, i, n);
    }
    assert forall|n: int| piece.contains(n) implies #[trigger] first.alike_then(
        next,
        piece.start,
        n,
    ) by {
        lemma_alike_within(first, i, piece.start, n);
        lemma_alike_in_segment(next, seg, first.apply(piece.start), first.apply(n));
    }
    if k == 0 {
        lemma_told_apart(first, i, piece.start - 1, piece.start);
    } else {
        let prev = segs[k - 1];
        assert(prev.follows(next));
        assert(prev.end == seg.start);
        lemma_tiles_within(segs, lo, hi, k - 1);
        assert(!joinable(next, segs[k - 1], segs[k]));
        lemma_apart_at_joint(next, prev, seg);
        assert(rule.contains(piece.start - 1));
    }
    if k == segs.len() - 1 {
        lemma_told_apart(first, i, piece.end - 1, piece.end);
    } else {
        let after = segs[k + 1];
        assert(after.follows(next));
        assert(seg.end == after.start);
        lemma_tiles_within(segs, lo, hi, k + 1);
        assert(!joinable(next, segs[k], segs[k + 1]));
        lemma_apart_at_joint(next, seg, after);
        assert(rule.contains(piece.end));
    }
}

/// What lies of a rule over a gap that the stage before leaves in its source
/// range is a longest run of values that the two stages treat alike.
proof fn lemma_gap_piece(first: StageView, next: StageView, j: int, segs: Seq<Segment>, k: int)
    requires
        first.wf(),
        next.wf(),
        0 <= j < next.rules.len(),
        splits(first, next.rules[j].start, next.rules[j].end, segs),
        0 <= k < segs.len(),
        !segs[k].covered,
    ensures
        first.is_run(next, gap_piece(next, j, segs, k)),
{
    let rule = next.rules[j];
    let seg = segs[k];
    let piece = gap_piece(next, j, segs, k);
    assert(rule.wf());
    assert(seg.follows(first));
    lemma_tiles_within(segs, rule.start, rule.end, k);
    assert forall|n: int| piece.contains(n) implies !first.covers(n) && first.apply(n) == n by {
        assert(seg.contains(n));
        lemma_apply_uncovered(first, n);
    }
    assert forall|n: int| piece.contains(n) implies #[trigger] first.alike_then(
        next,
        piece.start,
        n,
    ) by {
        assert(piece.contains(piece.start));
        lemma_alike_outside(first, piece.start, n);
        lemma_alike_within(next, j, piece.start, n);
    }
    let a = piece.start - 1;
    assert(piece.contains(piece.start));
    if k == 0 {
        if first.covers(a) {
            let i = choose|i: int|
                0 <= i < first.rules.len() && #[trigger] first.rules[i].contains(a);
            assert(!first.rules[i].contains(piece.start));
            lemma_told_apart(first, i, a, piece.start);
        } else {
            lemma_apply_uncovered(first, a);
            lemma_told_apart(next, j, a, piece.start);
        }
    } else {
        let prev = segs[k - 1];
        assert(prev.follows(first));
        assert(prev.end == seg.start);
        lemma_tiles_within(segs, rule.start, rule.end, k - 1);
        assert(!joinable(first, segs[k - 1], segs[k]));
        lemma_apart_at_joint(first, prev, seg);
    }
    let b = piece.end;
    assert(piece.contains(b - 1));
    if k == segs.len() - 1 {
        if first.covers(b) {
            let i = choose|i: int|
                0 <= i < first.rules.len() && #[trigger] first.rules[i].contains(b);
            assert(!first.rules[i].contains(b - 1));
            lemma_told_apart(first, i, b - 1, b);
        } else {
            lemma_apply_uncovered(first, b);
            lemma_told_apart(next, j, b - 1, b);
        }
    } else {
        let after = segs[k + 1];
        assert(after.follows(first));
        assert(seg.end == after.start);
        lemma_tiles_within(segs, rule.start, rule.end, k + 1);
        assert(!joinable(first, segs[k], segs[k + 1]));
        lemma_apart_at_joint(first, seg, after);
    }
}

/// Stretches that lie end to end come in increasing order.
proof fn lemma_tiles_ordered(segs: Seq<Segment>, lo: int, hi: int, a: int, b: int)
    requires
        tiles(segs, lo, hi),
        0 <= a < b < segs.len(),
    ensures
        segs[a].end <= segs[b].start,
    decreases b - a,
{
    if a + 1 < b {
        lemma_tiles_ordered(segs, lo, hi, a, b - 1);
        assert(segs[b - 1].start < segs[b - 1].end);
    }
    assert(segs[b - 1].end == segs[b].start);
}

/// Rules stored where no rule lies, each before those that come later, decide
/// each for its own values and leave all other rules as they are.
pub proof fn lemma_store_all(out: StageView, pieces: Seq<Option<RuleView>>, n: int)
    requires
        out.wf(),
        in_order(pieces),
        forall|m: int| held_by(pieces, m) ==> !#[trigger] out.covers(m),
    ensures
        out.store_all(pieces).wf(),
        out.store_all(pieces).covers(n) <==> out.covers(n) || held_by(pieces, n),
        !held_by(pieces, n) ==> out.store_all(pieces).apply(n) == out.apply(n),
        forall|k: int|
            0 <= k < pieces.len() && (#[trigger] pieces[k]) is Some && pieces[k]->Some_0.contains(n)
                ==> out.store_all(pieces).apply(n) == pieces[k]->Some_0.apply(n),
        forall|m: int|
            0 <= m < out.store_all(pieces).rules.len() ==> out.rules.contains(
                #[trigger] out.store_all(pieces).rules[m],
            ) || pieces.contains(Some(out.store_all(pieces).rules[m])),
    decreases pieces.len(),
{
    if pieces.len() > 0 {
        let head = pieces.drop_last();
        let last = pieces.len() - 1;
        let held = out.store_all(head);
        let all = out.store_all(pieces);
        assert(in_order(head)) by {
            assert forall|k: int| 0 <= k < head.len() && (#[trigger] head[k]) is Some implies (
            head[k]->Some_0).wf() by {
                assert(pieces[k] is Some);
            }
            assert forall|a: int, b: int|
                0 <= a < b < head.len() && (#[trigger] head[a]) is Some && (
                #[trigger] head[b]) is Some implies head[a]->Some_0.end
                <= head[b]->Some_0.start by {
                assert(pieces[a] is Some && pieces[b] is Some);
            }
        }
        assert forall|m: int| held_by(head, m) implies held_by(pieces, m) by {
            let k = choose|k: int|
                0 <= k < head.len() && (#[trigger] head[k]) is Some && head[k]->Some_0.contains(m);
            assert(pieces[k] is Some && pieces[k]->Some_0.contains(m));
        }
        lemma_store_all(out, head, n);
        assert(held_by(pieces, n) <==> held_by(head, n) || (pieces[last] is Some
            && pieces[last]->Some_0.contains(n))) by {
            if held_by(pieces, n) {
                let k = choose|k: int|
                    0 <= k < pieces.len() && (#[trigger] pieces[k]) is Some
                        && pieces[k]->Some_0.contains(n);
                if k < last {
                    assert(head[k] is Some && head[k]->Some_0.contains(n));
                }
            }
            if pieces[last] is Some && pieces[last]->Some_0.contains(n) {
                assert(held_by(pieces, n));
            }
        }
        assert forall|k: int|
            0 <= k < pieces.len() && (#[trigger] pieces[k]) is Some && pieces[k]->Some_0.contains(
                n,
            ) && k < last implies held.apply(n) == pieces[k]->Some_0.apply(n) && !(
        pieces[last] is Some && pieces[last]->Some_0.contains(n)) by {
            assert(head[k] is Some && head[k]->Some_0.contains(n));
            assert(pieces[k]->Some_0.wf());
        }
        match pieces.last() {
            Some(r) => {
                assert(pieces[last] is Some);
                assert(r.wf());
                assert forall|m: int| r.contains(m) implies !#[trigger] held.covers(m) by {
                    assert(held_by(pieces, m));
                    lemma_store_all(out, head, m);
                    if held_by(head, m) {
                        let k = choose|k: int|
                            0 <= k < head.len() && (#[trigger] head[k]) is Some
                                && head[k]->Some_0.contains(m);
                        assert(pieces[k] is Some);
                        assert(pieces[k]->Some_0.end <= pieces[last]->Some_0.start);
                    }
                }
                lemma_insert_wf(held, r);
                lemma_insert(held, r, n);
                assert forall|m: int| 0 <= m < all.rules.len() implies out.rules.contains(
                    #[trigger] all.rules[m],
                ) || pieces.contains(Some(all.rules[m])) by {
                    lemma_insert_disjoint(held, r, m);
                    if all.rules[m] == r {
                        assert(pieces[last] == Some(all.rules[m]));
                    } else {
                        let at = choose|at: int|
                            0 <= at < held.rules.len() && held.rules[at] == all.rules[m];
                        if !out.rules.contains(held.rules[at]) {
                            let k = choose|k: int|
                                0 <= k < head.len() && head[k] == Some(held.rules[at]);
                            assert(pieces[k] == Some(all.rules[m]));
                        }
                    }
                }
            },
            None => {
                assert forall|m: int| 0 <= m < all.rules.len() implies out.rules.contains(
                    #[trigger] all.rules[m],
                ) || pieces.contains(Some(all.rules[m])) by {
                    if !out.rules.contains(held.rules[m]) {
                        let k = choose|k: int|
                            0 <= k < head.len() && head[k] == Some(held.rules[m]);
                        assert(pieces[k] == Some(all.rules[m]));
                    }
                }
            },
        }
    }
}

/// What a rule followed by the next stage does is a list of rules in order
/// that lie in the source range of the rule and leave out none of its values;
/// each maps its values as rule and stage do in turn, and is a longest run of
/// values that the two stages treat alike.
pub proof fn lemma_through(first: StageView, i: int, next: StageView)
    requires
        first.wf(),
        next.wf(),
        0 <= i < first.rules.len(),
    ensures
        in_order(first.through(i, next)),
        forall|n: int| held_by(first.through(i, next), n) <==> first.rules[i].contains(n),
        forall|k: int, n: int|
            #![trigger first.through(i, next)[k], first.apply(n)]
            0 <= k < first.through(i, next).len() && first.through(i, next)[k]->Some_0.contains(n)
                ==> first.through(i, next)[k]->Some_0.apply(n) == next.apply(first.apply(n)),
        forall|k: int|
            0 <= k < first.through(i, next).len() ==> (#[trigger] first.through(i, next)[k]) is Some
                && first.is_run(next, first.through(i, next)[k]->Some_0),
{
    let rule = first.rules[i];
    let lo = rule.dest;
    let hi = rule.dest + (rule.end - rule.start);
    let segs = first.image_cut(i, next);
    let pieces = first.through(i, next);
    assert(rule.wf());
    lemma_cut(next, lo, hi);
    assert forall|k: int| 0 <= k < pieces.len() implies {
        &&& (#[trigger] pieces[k]) is Some
        &&& pieces[k]->Some_0 == through_piece(first, i, segs, k)
        &&& pieces[k]->Some_0.wf()
        &&& rule.start <= pieces[k]->Some_0.start
        &&& pieces[k]->Some_0.end <= rule.end
        &&& first.is_run(next, pieces[k]->Some_0)
    } by {
        lemma_tiles_within(segs, lo, hi, k);
        assert(segs[k].follows(next));
        lemma_segment_bounds(next, segs[k]);
        lemma_through_piece(first, i, next, segs, k);
    }
    assert forall|a: int, b: int|
        0 <= a < b < pieces.len() && (#[trigger] pieces[a]) is Some && (
        #[trigger] pieces[b]) is Some implies pieces[a]->Some_0.end
        <= pieces[b]->Some_0.start by {
        lemma_tiles_ordered(segs, lo, hi, a, b);
    }
    assert forall|n: int| held_by(pieces, n) <==> rule.contains(n) by {
        if held_by(pieces, n) {
            let k = choose|k: int|
                0 <= k < pieces.len() && (#[trigger] pieces[k]) is Some
                    && pieces[k]->Some_0.contains(n);
        }
        if rule.contains(n) {
            let k = lemma_tiles_locate(segs, lo, hi, rule.dest + (n - rule.start));
            assert(pieces[k] is Some && pieces[k]->Some_0.contains(n));
        }
    }
    assert forall|k: int, n: int|
        #![trigger pieces[k], first.apply(n)]
        0 <= k < pieces.len() && pieces[k]->Some_0.contains(n) implies pieces[k]->Some_0.apply(n)
        == next.apply(first.apply(n)) by {
        assert(pieces[k] is Some);
        lemma_apply_at(first, i, n);
        assert(segs[k].follows(next));
        lemma_segment_point(next, segs[k], rule.apply(n));
    }
}

/// What a rule of the next stage does to the values that the stage before
/// leaves alone is a list of rules in order that lie in the source range of
/// the rule and hold just those of its values that the stage before leaves
/// alone; each maps its values as the rule does, and is a longest run of
/// values that the two stages treat alike.
pub proof fn lemma_left_alone(first: StageView, next: StageView, j: int)
    requires
        first.wf(),
        next.wf(),
        0 <= j < next.rules.len(),
    ensures
        in_order(first.left_alone(next, j)),
        forall|n: int|
            held_by(first.left_alone(next, j), n) <==> next.rules[j].contains(n)
                && !first.covers(n),
        forall|k: int, n: int|
            #![trigger first.left_alone(next, j)[k], next.apply(n)]
            0 <= k < first.left_alone(next, j).len() && first.left_alone(next, j)[k] is Some
                && first.left_alone(next, j)[k]->Some_0.contains(n) ==> first.left_alone(
                next,
                j,
            )[k]->Some_0.apply(n) == next.apply(n),
        forall|k: int|
            0 <= k < first.left_alone(next, j).len() && (#[trigger] first.left_alone(
                next,
                j,
            )[k]) is Some ==> first.is_run(next, first.left_alone(next, j)[k]->Some_0),
{
    let rule = next.rules[j];
    let segs = first.source_cut(next, j);
    let pieces = first.left_alone(next, j);
    assert(rule.wf());
    lemma_cut(first, rule.start, rule.end);
    assert forall|k: int| 0 <= k < pieces.len() && (#[trigger] pieces[k]) is Some implies {
        &&& pieces[k]->Some_0 == gap_piece(next, j, segs, k)
        &&& pieces[k]->Some_0.wf()
        &&& first.is_run(next, pieces[k]->Some_0)
    } by {
        lemma_tiles_within(segs, rule.start, rule.end, k);
        lemma_gap_piece(first, next, j, segs, k);
    }
    assert forall|a: int, b: int|
        0 <= a < b < pieces.len() && (#[trigger] pieces[a]) is Some && (
        #[trigger] pieces[b]) is Some implies pieces[a]->Some_0.end
        <= pieces[b]->Some_0.start by {
        lemma_tiles_ordered(segs, rule.start, rule.end, a, b);
    }
    assert forall|n: int| held_by(pieces, n) <==> rule.contains(n) && !first.covers(n) by {
        if held_by(pieces, n) {
            let k = choose|k: int|
                0 <= k < pieces.len() && (#[trigger] pieces[k]) is Some
                    && pieces[k]->Some_0.contains(n);
            lemma_tiles_within(segs, rule.start, rule.end, k);
            assert(segs[k].follows(first));
            lemma_segment_point(first, segs[k], n);
        }
        if rule.contains(n) && !first.covers(n) {
            let k = lemma_tiles_locate(segs, rule.start, rule.end, n);
            assert(segs[k].follows(first));
            lemma_segment_point(first, segs[k], n);
            assert(pieces[k] is Some && pieces[k]->Some_0.contains(n));
        }
    }
    assert forall|k: int, n: int|
        #![trigger pieces[k], next.apply(n)]
        0 <= k < pieces.len() && pieces[k] is Some && pieces[k]->Some_0.contains(
            n,
        ) implies pieces[k]->Some_0.apply(n) == next.apply(n) by {
        lemma_tiles_within(segs, rule.start, rule.end, k);
        lemma_apply_at(next, j, n);
    }
}

/// What the first `i` rules of a stage, each followed by the next stage, do:
/// the first `i` rules followed by the next stage.
pub proof fn lemma_sent_through(first: StageView, next: StageView, i: int, n: int)
    requires
        first.wf(),
        next.wf(),
        0 <= i <= first.rules.len(),
    ensures
        first.sent_through(next, i).wf(),
        first.sent_through(next, i).covers(n) <==> first.prefix(i).covers(n),
        first.sent_through(next, i).apply(n) == if first.prefix(i).covers(n) {
            next.apply(first.apply(n))
        } else {
            n
        },
        forall|m: int|
            0 <= m < first.sent_through(next, i).rules.len() ==> first.is_run(
                next,
                #[trigger] first.sent_through(next, i).rules[m],
            ),
    decreases i,
{
    let all = first.sent_through(next, i);
    if i == 0 {
        assert(!all.covers(n));
        assert(!first.prefix(0).covers(n));
        lemma_apply_uncovered(all, n);
    } else {
        let held = first.sent_through(next, i - 1);
        let pieces = first.through(i - 1, next);
        let rule = first.rules[i - 1];
        lemma_through(first, i - 1, next);
        lemma_sent_through(first, next, i - 1, n);
        assert forall|m: int| held_by(pieces, m) implies !#[trigger] held.covers(m) by {
            lemma_sent_through(first, next, i - 1, m);
            if first.prefix(i - 1).covers(m) {
                let at = choose|at: int|
                    0 <= at < i - 1 && #[trigger] first.prefix(i - 1).rules[at].contains(m);
                assert(first.rules[at].end <= first.rules[i - 1].start);
            }
        }
        lemma_store_all(held, pieces, n);
        assert(first.prefix(i).rules =~= first.prefix(i - 1).push(rule).rules);
        lemma_push(first.prefix(i - 1), rule, n);
        if held_by(pieces, n) {
            let k = choose|k: int|
                0 <= k < pieces.len() && (#[trigger] pieces[k]) is Some
                    && pieces[k]->Some_0.contains(n);
            assert(pieces[k]->Some_0.apply(n) == next.apply(first.apply(n)));
        }
        assert forall|m: int| 0 <= m < all.rules.len() implies first.is_run(
            next,
            #[trigger] all.rules[m],
        ) by {
            if held.rules.contains(all.rules[m]) {
                let at = choose|at: int|
                    0 <= at < held.rules.len() && held.rules[at] == all.rules[m];
                assert(first.is_run(next, held.rules[at]));
            } else {
                let k = choose|k: int| 0 <= k < pieces.len() && pieces[k] == Some(all.rules[m]);
                assert(first.is_run(next, pieces[k]->Some_0));
            }
        }
    }
}

/// What a stage followed by the next does, as far as the rules of the stage
/// and the first `j` rules of the next say.
pub proof fn lemma_filled_up(first: StageView, next: StageView, j: int, n: int)
    requires
        first.wf(),
        next.wf(),
        0 <= j <= next.rules.len(),
    ensures
        first.filled_up(next, j).wf(),
        first.filled_up(next, j).covers(n) <==> first.covers(n) || next.prefix(j).covers(n),
        first.filled_up(next, j).apply(n) == if first.covers(n) {
            next.apply(first.apply(n))
        } else if next.prefix(j).covers(n) {
            next.apply(n)
        } else {
            n
        },
        forall|m: int|
            0 <= m < first.filled_up(next, j).rules.len() ==> first.is_run(
                next,
                #[trigger] first.filled_up(next, j).rules[m],
            ),
    decreases j,
{
    let all = first.filled_up(next, j);
    if j == 0 {
        lemma_sent_through(first, next, first.rules.len() as int, n);
        assert(first.prefix(first.rules.len() as int).rules =~= first.rules);
        assert(!next.prefix(0).covers(n));
    } else {
        let held = first.filled_up(next, j - 1);
        let pieces = first.left_alone(next, j - 1);
        let rule = next.rules[j - 1];
        lemma_left_alone(first, next, j - 1);
        lemma_filled_up(first, next, j - 1, n);
        assert forall|m: int| held_by(pieces, m) implies !#[trigger] held.covers(m) by {
            lemma_filled_up(first, next, j - 1, m);
            if next.prefix(j - 1).covers(m) {
                let at = choose|at: int|
                    0 <= at < j - 1 && #[trigger] next.prefix(j - 1).rules[at].contains(m);
                assert(next.rules[at].end <= next.rules[j - 1].start);
            }
        }
        lemma_store_all(held, pieces, n);
        assert(next.prefix(j).rules =~= next.prefix(j - 1).push(rule).rules);
        lemma_push(next.prefix(j - 1), rule, n);
        if held_by(pieces, n) {
            let k = choose|k: int|
                0 <= k < pieces.len() && (#[trigger] pieces[k]) is Some
                    && pieces[k]->Some_0.contains(n);
            assert(pieces[k]->Some_0.apply(n) == next.apply(n));
        }
        assert forall|m: int| 0 <= m < all.rules.len() implies first.is_run(
            next,
            #[trigger] all.rules[m],
        ) by {
            if held.rules.contains(all.rules[m]) {
                let at = choose|at: int|
                    0 <= at < held.rules.len() && held.rules[at] == all.rules[m];
                assert(first.is_run(next, held.rules[at]));
            } else {
                let k = choose|k: int| 0 <= k < pieces.len() && pieces[k] == Some(all.rules[m]);
                assert(first.is_run(next, pieces[k]->Some_0));
            }
        }
    }
}

/// Two well-formed stages have a merge: what is put together rule by rule.
pub proof fn lemma_assemble(first: StageView, next: StageView)
    requires
        first.wf(),
        next.wf(),
    ensures
        first.is_merge(next, first.assemble(next)),
        first.merge(next) == first.assemble(next),
{
    let merged = first.assemble(next);
    let count = next.rules.len() as int;
    assert(next.prefix(count).rules =~= next.rules);
    lemma_filled_up(first, next, count, 0);
    assert forall|n: int| #[trigger] merged.covers(n) <==> first.covers(n) || next.covers(n) by {
        lemma_filled_up(first, next, count, n);
    }
    assert forall|n: int| #[trigger] merged.apply(n) == next.apply(first.apply(n)) by {
        lemma_filled_up(first, next, count, n);
        if !first.covers(n) {
            lemma_apply_uncovered(first, n);
            if !next.covers(n) {
                lemma_apply_uncovered(next, n);
            }
        }
    }
    lemma_merge_is(first, next, merged);
}

} // verus!
