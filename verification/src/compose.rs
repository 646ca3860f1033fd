//! Merging two chained stages into one.

use crate::assemble::{gap_piece, lemma_assemble, through_piece};
use crate::model::StageView;
use crate::rule::{MappingRule, RuleView};
use crate::segment::{lemma_segment_bounds, lemma_tiles_within, splits};
use crate::stage::MappingStage;
use vstd::prelude::*;

verus! {

/// Stores in `out` what `rule` followed by `successor` does on the source
/// range of `rule`: the range is divided where its image crosses from one rule
/// of `successor` to another or into a gap, and each part is sent straight to
/// where `successor` sends its image.
fn push_through(
    rule: MappingRule,
    successor: &MappingStage,
    out: &mut MappingStage,
    Ghost(first): Ghost<StageView>,
    Ghost(i): Ghost<int>,
)
    requires
        0 <= i < first.rules.len(),
        first.rules[i] == rule@,
    ensures
        final(out)@ == old(out)@.store_all(first.through(i, successor@)),
{
    proof {
        use_type_invariant(&rule);
        use_type_invariant(successor);
    }
    let source_start = rule.source_start();
    let dest_start = rule.dest_start();
    let image_end: usize = dest_start + (rule.source_end() - source_start);
    let segs = successor.segments(dest_start, image_end);
    let ghost before = out@;
    let ghost pieces = first.through(i, successor@);
    let mut k: usize = 0;
    assert(pieces.take(0) =~= Seq::<Option<RuleView>>::empty());
    while k < segs.len()
        invariant
            k <= segs.len(),
            rule@.wf(),
            successor@.wf(),
            source_start == rule@.start,
            dest_start == rule@.dest,
            image_end == rule@.dest + (rule@.end - rule@.start),
            0 <= i < first.rules.len(),
            first.rules[i] == rule@,
            segs@ == first.image_cut(i, successor@),
            splits(successor@, dest_start as int, image_end as int, segs@),
            pieces == first.through(i, successor@),
            out@ == before.store_all(pieces.take(k as int)),
        decreases segs.len() - k,
    {
        let seg = segs[k];
        proof {
            assert(seg.follows(successor@));
            lemma_tiles_within(segs@, dest_start as int, image_end as int, k as int);
            lemma_segment_bounds(successor@, seg);
        }
        let piece = MappingRule::from_range(
            seg.image,
            source_start + (seg.start - dest_start),
            source_start + (seg.end - dest_start),
        );
        out.insert(piece);
        proof {
            assert(pieces[k as int] == Some(through_piece(first, i, segs@, k as int)));
            assert(pieces.take(k + 1).drop_last() =~= pieces.take(k as int));
        }
        k += 1;
    }
    assert(pieces.take(segs.len() as int) =~= pieces);
}

/// Stores in `out` what `rule` does on the part of its source range that
/// `predecessor` does not cover: one rule for each gap that `predecessor`
/// leaves in the range.
fn fill_gaps(
    rule: MappingRule,
    predecessor: &MappingStage,
    out: &mut MappingStage,
    Ghost(next): Ghost<StageView>,
    Ghost(j): Ghost<int>,
)
    requires
        0 <= j < next.rules.len(),
        next.rules[j] == rule@,
    ensures
        final(out)@ == old(out)@.store_all(predecessor@.left_alone(next, j)),
{
    proof {
        use_type_invariant(&rule);
        use_type_invariant(predecessor);
    }
    let source_start = rule.source_start();
    let source_end = rule.source_end();
    let dest_start = rule.dest_start();
    let segs = predecessor.segments(source_start, source_end);
    let ghost before = out@;
    let ghost pieces = predecessor@.left_alone(next, j);
    let mut k: usize = 0;
    assert(pieces.take(0) =~= Seq::<Option<RuleView>>::empty());
    while k < segs.len()
        invariant
            k <= segs.len(),
            rule@.wf(),
            source_start == rule@.start,
            source_end == rule@.end,
            dest_start == rule@.dest,
            0 <= j < next.rules.len(),
            next.rules[j] == rule@,
            segs@ == predecessor@.source_cut(next, j),
            splits(predecessor@, source_start as int, source_end as int, segs@),
            pieces == predecessor@.left_alone(next, j),
            out@ == before.store_all(pieces.take(k as int)),
        decreases segs.len() - k,
    {
        let seg = segs[k];
        proof {
            lemma_tiles_within(segs@, source_start as int, source_end as int, k as int);
            assert(pieces.take(k + 1).drop_last() =~= pieces.take(k as int));
        }
        if !seg.covered {
            let piece = MappingRule::from_range(
                dest_start + (seg.start - source_start),
                seg.start,
                seg.end,
            );
            out.insert(piece);
            assert(pieces[k as int] == Some(gap_piece(next, j, segs@, k as int)));
        }
        k += 1;
    }
    assert(pieces.take(segs.len() as int) =~= pieces);
}

impl MappingStage {
    /// Merges the stage with the stage that follows it in a pipeline. The
    /// result maps every value straight to where `successor` sends what this
    /// stage makes of the value, and has rules for exactly the values that
    /// either stage has rules for: one rule for each longest run of such
    /// values that the two stages treat alike.
    pub fn merge_with_successor(&self, successor: &MappingStage) -> (merged: MappingStage)
        ensures
            merged.wf(),
            forall|n: int| #[trigger] merged@.apply(n) == successor@.apply(self@.apply(n)),
            forall|n: int| #[trigger]
                merged@.covers(n) <==> self@.covers(n) || successor@.covers(n),
            self@.is_merge(successor@, merged@),
            merged@ == self@.merge(successor@),
    {
        let mut merged = MappingStage::new();
        let mut i: usize = 0;
        while i < self.len()
            invariant
                i <= self@.rules.len(),
                merged@ == self@.sent_through(successor@, i as int),
            decreases self@.rules.len() - i,
        {
            push_through(self.rule(i), successor, &mut merged, Ghost(self@), Ghost(i as int));
            i += 1;
        }
        let mut j: usize = 0;
        while j < successor.len()
            invariant
                j <= successor@.rules.len(),
                merged@ == self@.filled_up(successor@, j as int),
            decreases successor@.rules.len() - j,
        {
            fill_gaps(successor.rule(j), self, &mut merged, Ghost(successor@), Ghost(j as int));
            j += 1;
        }
        proof {
            use_type_invariant(self);
            use_type_invariant(successor);
            lemma_assemble(self@, successor@);
        }
        merged
    }
}

} // verus!
