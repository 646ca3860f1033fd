//! The layout of a whole input text: a line of seeds, then, set apart by
//! blank lines, one block of lines for each stage of the pipeline. The first
//! line of a block is its heading; the other lines are its rules.

use crate::model::StageView;
use crate::parse::{lines_view, parse_mapping_rules, stage_of_lines, MalformedRuleError};
use crate::resolver::stage_views;
use crate::stage::MappingStage;
use crate::text::{fields_view, number, parse_number, split_words, words};
use core::ops::Range;
use vstd::prelude::*;
use vstd::slice::slice_subrange;

verus! {

/// Number of lines before the first blank line.
pub open spec fn block_len(lines: Seq<Seq<char>>) -> nat
    decreases lines.len(),
{
    if lines.len() == 0 || lines[0].len() == 0 {
        0
    } else {
        1 + block_len(lines.drop_first())
    }
}

/// What follows the first blank line; nothing if there is no blank line.
pub open spec fn after_first_blank(lines: Seq<Seq<char>>) -> Seq<Seq<char>> {
    if block_len(lines) < lines.len() {
        lines.skip(block_len(lines) as int + 1)
    } else {
        Seq::empty()
    }
}

/// `stages` put before the stages that the rest of the text gives, unless the
/// rest has a malformed rule.
pub open spec fn prepend(stages: Seq<StageView>, rest: Result<Seq<StageView>, MalformedRuleError>)
    -> Result<Seq<StageView>, MalformedRuleError> {
    match rest {
        Ok(more) => Ok(stages + more),
        Err(e) => Err(e),
    }
}

/// The stages that blocks of lines denote, in order. A block is a longest run
/// of lines none of which is blank; its first line is a heading and the
/// others are rules. The first malformed rule decides the error.
pub open spec fn stages_of_blocks(lines: Seq<Seq<char>>) -> Result<
    Seq<StageView>,
    MalformedRuleError,
>
    decreases lines.len(),
{
    if lines.len() == 0 {
        Ok(Seq::empty())
    } else if lines[0].len() == 0 {
        stages_of_blocks(lines.drop_first())
    } else {
        proof {
            lemma_block_len_bounds(lines);
        }
        let k = block_len(lines) as int;
        match stage_of_lines(lines.take(k).skip(1)) {
            Err(e) => Err(e),
            Ok(stage) => prepend(seq![stage], stages_of_blocks(lines.skip(k))),
        }
    }
}

/// The pipeline that an input text denotes: the stages of the blocks that
/// follow the first blank line.
pub open spec fn stages_of_input(lines: Seq<Seq<char>>) -> Result<
    Seq<StageView>,
    MalformedRuleError,
> {
    stages_of_blocks(after_first_blank(lines))
}

/// Every field is a number.
pub open spec fn all_numbers(fields: Seq<Seq<char>>) -> bool {
    forall|i: int| 0 <= i < fields.len() ==> (#[trigger] number(fields[i])) is Some
}

/// The seeds that a line denotes: the numbers in its fields but the first,
/// which is a label. There are none if the line has at most one field, and
/// no answer if one of the other fields is not a number.
pub open spec fn seeds_of_line(line: Seq<char>) -> Option<Seq<int>> {
    let fields = words(line);
    let given = if fields.len() == 0 {
        fields
    } else {
        fields.drop_first()
    };
    if all_numbers(given) {
        Some(Seq::new(given.len(), |i: int| number(given[i])->0))
    } else {
        None
    }
}

/// The values of a list of numbers.
pub open spec fn values_view(values: Seq<usize>) -> Seq<int> {
    values.map_values(|v: usize| v as int)
}

/// The seeds read two by two, each pair as the start and the length of a
/// range. A seed that is left over at the end counts for nothing.
pub open spec fn paired(seeds: Seq<usize>) -> Seq<(int, int)> {
    Seq::new(seeds.len() / 2, |k: int| (seeds[2 * k] as int, seeds[2 * k] + seeds[2 * k + 1]))
}

/// A block is no longer than the text it starts, and not empty if the text
/// starts with a line that is not blank.
pub proof fn lemma_block_len_bounds(lines: Seq<Seq<char>>)
    ensures
        block_len(lines) <= lines.len(),
        lines.len() > 0 && lines[0].len() > 0 ==> block_len(lines) >= 1,
    decreases lines.len(),
{
    if lines.len() > 0 && lines[0].len() > 0 {
        lemma_block_len_bounds(lines.drop_first());
    }
}

/// Reads the seeds from their line: every field but the first, which is a
/// label, as an unsigned decimal number.
pub fn parse_seeds(line: &str) -> (seeds: Option<Vec<usize>>)
    ensures
        match seeds {
            Some(list) => seeds_of_line(line@) == Some(values_view(list@)),
            None => seeds_of_line(line@) is None,
        },
{
    let fields = split_words(line);
    let mut seeds: Vec<usize> = Vec::new();
    if fields.len() == 0 {
        assert(values_view(seeds@) =~= Seq::new(0, |i: int| number(words(line@)[i])->0));
        return Some(seeds);
    }
    let ghost given = words(line@).drop_first();
    let mut i: usize = 1;
    while i < fields.len()
        invariant
            1 <= i <= fields.len(),
            fields_view(fields@) == words(line@),
            given == words(line@).drop_first(),
            seeds@.len() == i - 1,
            forall|k: int| 0 <= k < i - 1 ==> number(given[k]) == Some(#[trigger] seeds@[k] as int),
        decreases fields.len() - i,
    {
        assert(given[i - 1] == fields@[i as int]@);
        match parse_number(fields[i].as_slice()) {
            Some(value) => {
                seeds.push(value);
            },
            None => {
                return None;
            },
        }
        i += 1;
    }
    proof {
        assert forall|k: int| 0 <= k < given.len() implies (#[trigger] number(
            given[k],
        )) is Some by {
            assert(number(given[k]) == Some(seeds@[k] as int));
        }
        assert(values_view(seeds@) =~= Seq::new(given.len(), |k: int| number(given[k])->0));
    }
    Some(seeds)
}

/// Reads the seeds two by two as ranges, each pair giving the start and the
/// length of one. There is no answer if a range would reach past
/// `usize::MAX`.
pub fn seed_ranges(seeds: &[usize]) -> (ranges: Option<Vec<Range<usize>>>)
    ensures
        ranges is Some <==> forall|k: int|
            0 <= k < paired(seeds@).len() ==> (#[trigger] paired(seeds@)[k]).1 <= usize::MAX,
        ranges matches Some(list) ==> {
            &&& list@.len() == paired(seeds@).len()
            &&& forall|k: int|
                0 <= k < list@.len() ==> (#[trigger] list@[k]).start == paired(seeds@)[k].0
                    && list@[k].end == paired(seeds@)[k].1
        },
{
    let count: usize = seeds.len() / 2;
    let mut ranges: Vec<Range<usize>> = Vec::new();
    let mut k: usize = 0;
    while k < count
        invariant
            k <= count == seeds@.len() / 2,
            seeds@.len() <= usize::MAX,
            ranges@.len() == k,
            forall|j: int|
                0 <= j < k ==> (#[trigger] ranges@[j]).start == paired(seeds@)[j].0
                    && ranges@[j].end == paired(seeds@)[j].1,
            forall|j: int| 0 <= j < k ==> (#[trigger] paired(seeds@)[j]).1 <= usize::MAX,
        decreases count - k,
    {
        assert(2 * k + 1 < seeds@.len()) by {
            assert(2 * (seeds@.len() / 2) <= seeds@.len());
        }
        let start = seeds[2 * k];
        let len = seeds[2 * k + 1];
        match start.checked_add(len) {
            Some(end) => {
                ranges.push(Range { start, end });
            },
            None => {
                assert(paired(seeds@)[k as int].1 > usize::MAX);
                return None;
            },
        }
        k += 1;
    }
    Some(ranges)
}

/// Reads the stages of a pipeline from an input text: one stage from each
/// block of lines behind the first blank line, leaving out the heading that
/// each block starts with. The first malformed rule stops the reading.
pub fn parse_stages(lines: &[String]) -> (parsed: Result<Vec<MappingStage>, MalformedRuleError>)
    ensures
        match parsed {
            Ok(stages) => stages_of_input(lines_view(lines@)) == Ok::<
                Seq<StageView>,
                MalformedRuleError,
            >(stage_views(stages@)),
            Err(e) => stages_of_input(lines_view(lines@)) == Err::<
                Seq<StageView>,
                MalformedRuleError,
            >(e),
        },
{
    let ghost texts = lines_view(lines@);
    let count = lines.len();
    let mut stages: Vec<MappingStage> = Vec::new();
    let mut i: usize = 0;
    assert(texts.skip(0) =~= texts);
    while i < count && !lines[i].as_str().is_empty()
        invariant
            i <= count == lines@.len(),
            texts == lines_view(lines@),
            block_len(texts) == i + block_len(texts.skip(i as int)),
        decreases count - i,
    {
        assert(texts.skip(i as int).drop_first() =~= texts.skip(i + 1));
        i += 1;
    }
    if i == count {
        assert(texts.skip(i as int).len() == 0);
        assert(stage_views(stages@) =~= Seq::<StageView>::empty());
        return Ok(stages);
    }
    i += 1;
    let ghost body = after_first_blank(texts);
    let ghost first = i;
    assert(body == texts.skip(first as int));
    assert(stage_views(stages@) + Seq::<StageView>::empty() =~= Seq::<StageView>::empty());
    while i < count
        invariant
            first <= i <= count == lines@.len(),
            texts == lines_view(lines@),
            after_first_blank(texts) == texts.skip(first as int),
            stages_of_blocks(texts.skip(first as int)) == prepend(
                stage_views(stages@),
                stages_of_blocks(texts.skip(i as int)),
            ),
        decreases count - i,
    {
        let ghost rest = texts.skip(i as int);
        if lines[i].as_str().is_empty() {
            assert(rest.drop_first() =~= texts.skip(i + 1));
            i += 1;
        } else {
            let start: usize = i;
            i += 1;
            assert(rest.drop_first() =~= texts.skip(i as int));
            while i < count && !lines[i].as_str().is_empty()
                invariant
                    start < i <= count == lines@.len(),
                    texts == lines_view(lines@),
                    block_len(texts.skip(start as int)) == (i - start) + block_len(
                        texts.skip(i as int),
                    ),
                decreases count - i,
            {
                assert(texts.skip(i as int).drop_first() =~= texts.skip(i + 1));
                i += 1;
            }
            let rules = slice_subrange(lines, start + 1, i);
            proof {
                let k = block_len(rest) as int;
                assert(block_len(texts.skip(i as int)) == 0);
                assert(k == i - start);
                assert(rest.take(k).skip(1) =~= lines_view(rules@));
                assert(rest.skip(k) =~= texts.skip(i as int));
            }
            match parse_mapping_rules(rules) {
                Ok(stage) => {
                    let ghost held = stage_views(stages@);
                    stages.push(stage);
                    proof {
                        assert(stage_views(stages@) =~= held + seq![stage@]);
                        match stages_of_blocks(texts.skip(i as int)) {
                            Ok(more) => {
                                assert((held + seq![stage@]) + more =~= held + (seq![stage@]
                                    + more));
                            },
                            Err(_) => {},
                        }
                    }
                },
                Err(e) => {
                    return Err(e);
                },
            }
        }
    }
    proof {
        assert(texts.skip(count as int).len() == 0);
        assert(stage_views(stages@) + Seq::<StageView>::empty() =~= stage_views(stages@));
    }
    Ok(stages)
}

} // verus!
