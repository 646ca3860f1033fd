//! Sending values through a pipeline of stages, and finding the lowest result
//! over many values.

use crate::model::{any_covers, chain_apply, lemma_chain_step, StageView};
use crate::runs::fold_merge;
use crate::theorems::theorem_fold_merge;
use crate::segment::{lemma_segment_point, lemma_tiles_locate, lemma_tiles_within, splits};
use crate::stage::MappingStage;
use core::ops::Range;
use vstd::prelude::*;

verus! {

/// The models of a list of stages, in order.
pub open spec fn stage_views(stages: Seq<MappingStage>) -> Seq<StageView> {
    stages.map_values(|s: MappingStage| s@)
}

/// `n` lies in one of the half-open ranges.
pub open spec fn in_ranges(ranges: Seq<Range<usize>>, n: int) -> bool {
    exists|i: int| 0 <= i < ranges.len() && (#[trigger] ranges[i]).start <= n < ranges[i].end
}

/// Sends `n` through the stages in order.
pub fn resolve_point(n: usize, stages: &[MappingStage]) -> (r: usize)
    ensures
        r == chain_apply(stage_views(stages@), n as int),
{
    let ghost views = stage_views(stages@);
    let mut value: usize = n;
    let mut i: usize = 0;
    assert(views.skip(0) =~= views);
    while i < stages.len()
        invariant
            i <= stages.len(),
            views == stage_views(stages@),
            chain_apply(views.skip(i as int), value as int) == chain_apply(views, n as int),
        decreases stages.len() - i,
    {
        proof {
            lemma_chain_step(views, i as int, value as int);
        }
        value = stages[i].resolve(value);
        i += 1;
    }
    assert(views.skip(i as int).len() == 0);
    value
}

/// Merges a pipeline of stages into one stage, folding from the last stage to
/// the first: the last two stages are merged, then the stage before them with
/// that merge, and so on. The result maps every value as the whole pipeline
/// does, and has rules for exactly the values that some stage has rules for.
/// The empty pipeline gives the stage without rules.
pub fn compose_chain(stages: &[MappingStage]) -> (composed: MappingStage)
    ensures
        composed.wf(),
        composed@ == fold_merge(stage_views(stages@)),
        forall|n: int| #[trigger] composed@.apply(n) == chain_apply(stage_views(stages@), n),
        forall|n: int| #[trigger] composed@.covers(n) <==> any_covers(stage_views(stages@), n),
{
    let ghost views = stage_views(stages@);
    let count = stages.len();
    if count == 0 {
        proof {
            theorem_fold_merge(views);
        }
        return MappingStage::new();
    }
    let mut i: usize = count - 1;
    let last = &stages[i];
    let mut composed = last.clone();
    proof {
        use_type_invariant(last);
        assert(views.skip(i as int) =~= seq![views[i as int]]);
    }
    while i > 0
        invariant
            i < count == stages.len(),
            views == stage_views(stages@),
            composed@ == fold_merge(views.skip(i as int)),
            forall|k: int| i <= k < count ==> (#[trigger] views[k]).wf(),
        decreases i,
    {
        i -= 1;
        let stage = &stages[i];
        composed = stage.merge_with_successor(&composed);
        proof {
            use_type_invariant(stage);
            assert(views.skip(i as int).drop_first() =~= views.skip(i + 1));
        }
    }
    proof {
        assert(views.skip(0) =~= views);
        theorem_fold_merge(views);
    }
    composed
}

impl MappingStage {
    /// The lowest value that the stage maps a value of `[start, end)` to, or
    /// `None` if the range is empty. The range is not walked value by value:
    /// within each stretch that the stage treats alike, the first value gives
    /// the lowest result.
    pub fn lowest_in(&self, start: usize, end: usize) -> (lowest: Option<usize>)
        ensures
            lowest is None <==> end <= start,
            lowest matches Some(m) ==> {
                &&& exists|n: int| start <= n < end && #[trigger] self@.apply(n) == m
                &&& forall|n: int| start <= n < end ==> m <= #[trigger] self@.apply(n)
            },
    {
        proof {
            use_type_invariant(self);
        }
        let segs = self.segments(start, end);
        let mut lowest: Option<usize> = None;
        let ghost mut witness: int = 0;
        let mut k: usize = 0;
        while k < segs.len()
            invariant
                k <= segs.len(),
                self@.wf(),
                splits(self@, start as int, end as int, segs@),
                lowest is None <==> k == 0,
                lowest matches Some(m) ==> {
                    &&& start <= witness < end
                    &&& self@.apply(witness) == m
                    &&& forall|j: int, n: int|
                        0 <= j < k && (#[trigger] segs[j]).contains(n) ==> m
                            <= #[trigger] self@.apply(n)
                },
            decreases segs.len() - k,
        {
            let seg = segs[k];
            proof {
                lemma_tiles_within(segs@, start as int, end as int, k as int);
                assert(seg.follows(self@));
                lemma_segment_point(self@, seg, seg.start as int);
                assert forall|n: int| seg.contains(n) implies seg.image
                    <= #[trigger] self@.apply(n) by {
                    lemma_segment_point(self@, seg, n);
                }
            }
            let better = match lowest {
                Some(m) => seg.image < m,
                None => true,
            };
            if better {
                lowest = Some(seg.image);
                proof {
                    witness = seg.start as int;
                }
            }
            k += 1;
        }
        proof {
            if let Some(m) = lowest {
                assert forall|n: int| start <= n < end implies m <= #[trigger] self@.apply(n) by {
                    let j = lemma_tiles_locate(segs@, start as int, end as int, n);
                    assert(segs[j].contains(n));
                }
            }
        }
        lowest
    }
}

/// The lowest value that `stage` maps one of `values` to, or `None` if there
/// are no values.
pub fn resolve_many(values: &[usize], stage: &MappingStage) -> (lowest: Option<usize>)
    ensures
        lowest is None <==> values@.len() == 0,
        lowest matches Some(m) ==> {
            &&& exists|i: int|
                0 <= i < values@.len() && stage@.apply(#[trigger] values@[i] as int) == m
            &&& forall|i: int|
                0 <= i < values@.len() ==> m <= stage@.apply(#[trigger] values@[i] as int)
        },
{
    let mut lowest: Option<usize> = None;
    let ghost mut witness: int = 0;
    let mut i: usize = 0;
    while i < values.len()
        invariant
            i <= values@.len(),
            lowest is None <==> i == 0,
            lowest matches Some(m) ==> {
                &&& 0 <= witness < i
                &&& stage@.apply(values@[witness] as int) == m
                &&& forall|j: int| 0 <= j < i ==> m <= stage@.apply(#[trigger] values@[j] as int)
            },
        decreases values@.len() - i,
    {
        let image = stage.resolve(values[i]);
        let better = match lowest {
            Some(m) => image < m,
            None => true,
        };
        if better {
            lowest = Some(image);
            proof {
                witness = i as int;
            }
        }
        i += 1;
    }
    lowest
}

/// The lowest value that `stage` maps a value of one of the half-open
/// `ranges` to, or `None` if all the ranges are empty.
pub fn resolve_many_ranges(ranges: &[Range<usize>], stage: &MappingStage) -> (lowest: Option<
    usize,
>)
    ensures
        lowest is None <==> forall|n: int| !in_ranges(ranges@, n),
        lowest matches Some(m) ==> {
            &&& exists|n: int| in_ranges(ranges@, n) && #[trigger] stage@.apply(n) == m
            &&& forall|n: int| in_ranges(ranges@, n) ==> m <= #[trigger] stage@.apply(n)
        },
{
    let mut lowest: Option<usize> = None;
    let ghost mut witness: int = 0;
    let mut i: usize = 0;
    while i < ranges.len()
        invariant
            i <= ranges@.len(),
            lowest is None <==> forall|n: int| !in_ranges(ranges@.take(i as int), n),
            lowest matches Some(m) ==> {
                &&& in_ranges(ranges@.take(i as int), witness)
                &&& stage@.apply(witness) == m
                &&& forall|n: int|
                    in_ranges(ranges@.take(i as int), n) ==> m <= #[trigger] stage@.apply(n)
            },
        decreases ranges@.len() - i,
    {
        let found = stage.lowest_in(ranges[i].start, ranges[i].end);
        let ghost seen = ranges@.take(i as int);
        let ghost next = ranges@.take(i + 1);
        let ghost range = ranges@[i as int];
        proof {
            assert forall|n: int| in_ranges(next, n) <==> in_ranges(seen, n) || range.start <= n
                < range.end by {
                if in_ranges(seen, n) {
                    let j = choose|j: int|
                        0 <= j < seen.len() && (#[trigger] seen[j]).start <= n < seen[j].end;
                    assert(next[j].start <= n < next[j].end);
                }
                if range.start <= n < range.end {
                    assert(next[i as int].start <= n < next[i as int].end);
                }
                if in_ranges(next, n) {
                    let j = choose|j: int|
                        0 <= j < next.len() && (#[trigger] next[j]).start <= n < next[j].end;
                    if j < i {
                        assert(seen[j].start <= n < seen[j].end);
                    }
                }
            }
        }
        match found {
            Some(m) => {
                let better = match lowest {
                    Some(best) => m < best,
                    None => true,
                };
                if better {
                    lowest = Some(m);
                    proof {
                        witness = choose|n: int|
                            range.start <= n < range.end && #[trigger] stage@.apply(n) == m;
                    }
                }
                proof {
                    let n = choose|n: int|
                        range.start <= n < range.end && #[trigger] stage@.apply(n) == m;
                    assert(in_ranges(next, n));
                }
            },
            None => {},
        }
        i += 1;
    }
    proof {
        assert(ranges@.take(i as int) =~= ranges@);
    }
    lowest
}

} // verus!
