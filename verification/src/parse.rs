//! Reading rules and stages from lines of text.
//!
//! A rule is written as three unsigned decimal numbers separated by white
//! space: where the range goes, where it starts, and how long it is.

use crate::model::{lemma_build, StageView};
use crate::rule::{MappingRule, RuleView};
use crate::stage::MappingStage;
use crate::text::{lemma_number_bounds, number, parse_number, split_words, words};
use vstd::prelude::*;

verus! {

/// Why a line of text is not a rule.
#[derive(Clone, Copy, Debug, PartialEq, Eq)]
pub enum MalformedRuleError {
    /// The line does not have exactly three fields.
    FieldCount,
    /// A field is not an unsigned decimal number that fits in `usize`.
    InvalidNumber,
    /// The length is zero, so the rule would map nothing.
    EmptyRange,
    /// The source range or its image reaches past `usize::MAX`.
    OutOfRange,
}

/// The rule that a line of text denotes, or why it denotes none.
pub open spec fn rule_of_line(line: Seq<char>) -> Result<RuleView, MalformedRuleError> {
    let fields = words(line);
    if fields.len() != 3 {
        Err(MalformedRuleError::FieldCount)
    } else {
        match (number(fields[0]), number(fields[1]), number(fields[2])) {
            (Some(dest), Some(start), Some(len)) => if len == 0 {
                Err(MalformedRuleError::EmptyRange)
            } else if start + len > usize::MAX || dest + len > usize::MAX {
                Err(MalformedRuleError::OutOfRange)
            } else {
                Ok(RuleView { start, end: start + len, dest })
            },
            _ => Err(MalformedRuleError::InvalidNumber),
        }
    }
}

/// The rules that the lines denote, in order, or what is wrong with the first
/// line that denotes none.
pub open spec fn rules_of_lines(lines: Seq<Seq<char>>) -> Result<
    Seq<RuleView>,
    MalformedRuleError,
>
    decreases lines.len(),
{
    if lines.len() == 0 {
        Ok(Seq::empty())
    } else {
        match rules_of_lines(lines.drop_last()) {
            Err(e) => Err(e),
            Ok(rules) => match rule_of_line(lines.last()) {
                Err(e) => Err(e),
                Ok(rule) => Ok(rules.push(rule)),
            },
        }
    }
}

/// The stage that the lines denote: their rules stored one after another, so
/// that a later line takes over what it shares with an earlier one.
pub open spec fn stage_of_lines(lines: Seq<Seq<char>>) -> Result<StageView, MalformedRuleError> {
    match rules_of_lines(lines) {
        Ok(rules) => Ok(StageView::build(rules)),
        Err(e) => Err(e),
    }
}

/// The views of a list of lines.
pub open spec fn lines_view(lines: Seq<String>) -> Seq<Seq<char>> {
    lines.map_values(|l: String| l@)
}

/// What is wrong with the first malformed line among the first `k` is what is
/// wrong with the lines as a whole.
pub proof fn lemma_first_error(lines: Seq<Seq<char>>, k: int)
    requires
        0 <= k <= lines.len(),
        rules_of_lines(lines.take(k)) is Err,
    ensures
        rules_of_lines(lines) == rules_of_lines(lines.take(k)),
    decreases lines.len(),
{
    if k == lines.len() {
        assert(lines.take(k) =~= lines);
    } else {
        assert(lines.drop_last().take(k) =~= lines.take(k));
        lemma_first_error(lines.drop_last(), k);
    }
}

/// The rules that lines denote are well formed, one for each line.
pub proof fn lemma_rules_of_lines(lines: Seq<Seq<char>>)
    requires
        rules_of_lines(lines) is Ok,
    ensures
        rules_of_lines(lines)->Ok_0.len() == lines.len(),
        forall|i: int|
            0 <= i < lines.len() ==> rule_of_line(lines[i]) == Ok::<RuleView, MalformedRuleError>(
                #[trigger] rules_of_lines(lines)->Ok_0[i],
            ),
        forall|i: int| 0 <= i < lines.len() ==> (#[trigger] rules_of_lines(lines)->Ok_0[i]).wf(),
    decreases lines.len(),
{
    if lines.len() > 0 {
        lemma_rules_of_lines(lines.drop_last());
        let head = rules_of_lines(lines.drop_last())->Ok_0;
        let all = rules_of_lines(lines)->Ok_0;
        assert forall|i: int| 0 <= i < lines.len() implies rule_of_line(lines[i]) == Ok::<
            RuleView,
            MalformedRuleError,
        >(#[trigger] all[i]) && all[i].wf() by {
            if i < lines.len() - 1 {
                assert(all[i] == head[i]);
                assert(lines.drop_last()[i] == lines[i]);
            } else {
                let fields = words(lines[i]);
                lemma_number_bounds(fields[0]);
                lemma_number_bounds(fields[1]);
                lemma_number_bounds(fields[2]);
            }
        }
    }
}

/// In the stage that lines denote, the last line whose rule contains a value
/// decides where the value goes.
pub proof fn lemma_stage_of_lines(lines: Seq<Seq<char>>, n: int)
    requires
        rules_of_lines(lines) is Ok,
    ensures
        stage_of_lines(lines) is Ok,
        stage_of_lines(lines)->Ok_0.wf(),
        stage_of_lines(lines)->Ok_0.covers(n) <==> (StageView {
            rules: rules_of_lines(lines)->Ok_0,
        }).covers(n),
        stage_of_lines(lines)->Ok_0.apply(n) == (StageView {
            rules: rules_of_lines(lines)->Ok_0,
        }).apply(n),
{
    lemma_rules_of_lines(lines);
    lemma_build(rules_of_lines(lines)->Ok_0, n);
}

impl MappingRule {
    /// Reads a rule from a line of text: destination start, source start and
    /// length, as unsigned decimal numbers separated by white space.
    pub fn parse(line: &str) -> (parsed: Result<MappingRule, MalformedRuleError>)
        ensures
            match parsed {
                Ok(rule) => rule_of_line(line@) == Ok::<RuleView, MalformedRuleError>(rule@),
                Err(e) => rule_of_line(line@) == Err::<RuleView, MalformedRuleError>(e),
            },
    {
        let fields = split_words(line);
        if fields.len() != 3 {
            return Err(MalformedRuleError::FieldCount);
        }
        let dest = parse_number(fields[0].as_slice());
        let start = parse_number(fields[1].as_slice());
        let len = parse_number(fields[2].as_slice());
        match (dest, start, len) {
            (Some(dest), Some(start), Some(len)) => {
                if len == 0 {
                    Err(MalformedRuleError::EmptyRange)
                } else {
                    match MappingRule::new(dest, start, len) {
                        Some(rule) => Ok(rule),
                        None => Err(MalformedRuleError::OutOfRange),
                    }
                }
            },
            _ => Err(MalformedRuleError::InvalidNumber),
        }
    }
}

impl core::str::FromStr for MappingRule {
    type Err = MalformedRuleError;

    /// Reads a rule as [`MappingRule::parse`] does.
    fn from_str(line: &str) -> (parsed: Result<Self, Self::Err>)
        ensures
            match parsed {
                Ok(rule) => rule_of_line(line@) == Ok::<RuleView, MalformedRuleError>(rule@),
                Err(e) => rule_of_line(line@) == Err::<RuleView, MalformedRuleError>(e),
            },
    {
        MappingRule::parse(line)
    }
}

/// Reads a stage from lines of text, one rule to a line. Where two lines
/// share part of their source ranges, the later line decides for that part.
/// The first line that is not a rule stops the reading.
pub fn parse_mapping_rules(lines: &[String]) -> (parsed: Result<MappingStage, MalformedRuleError>)
    ensures
        match parsed {
            Ok(stage) => stage.wf() && stage_of_lines(lines_view(lines@)) == Ok::<
                StageView,
                MalformedRuleError,
            >(stage@),
            Err(e) => stage_of_lines(lines_view(lines@)) == Err::<StageView, MalformedRuleError>(e),
        },
        parsed matches Ok(stage) ==> forall|n: int| #[trigger]
            stage@.apply(n) == (StageView {
                rules: rules_of_lines(lines_view(lines@))->Ok_0,
            }).apply(n),
{
    let ghost texts = lines_view(lines@);
    let mut stage = MappingStage::new();
    let mut i: usize = 0;
    assert(texts.take(0) =~= Seq::<Seq<char>>::empty());
    while i < lines.len()
        invariant
            i <= lines.len(),
            texts == lines_view(lines@),
            stage_of_lines(texts.take(i as int)) == Ok::<StageView, MalformedRuleError>(stage@),
        decreases lines.len() - i,
    {
        proof {
            assert(texts.take(i + 1).drop_last() =~= texts.take(i as int));
            assert(texts.take(i + 1).last() == lines@[i as int]@);
        }
        match MappingRule::parse(lines[i].as_str()) {
            Ok(rule) => {
                proof {
                    let read = rules_of_lines(texts.take(i as int))->Ok_0;
                    assert(read.push(rule@).drop_last() =~= read);
                }
                stage.insert(rule);
            },
            Err(e) => {
                proof {
                    lemma_first_error(texts, i + 1);
                }
                return Err(e);
            },
        }
        i += 1;
    }
    proof {
        assert(texts.take(i as int) =~= texts);
        use_type_invariant(&stage);
        assert forall|n: int| #[trigger]
            stage@.apply(n) == (StageView { rules: rules_of_lines(texts)->Ok_0 }).apply(n) by {
            lemma_stage_of_lines(texts, n);
        }
    }
    Ok(stage)
}

} // verus!
