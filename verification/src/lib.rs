//! Interval mapping engine.
//!
//! A [`MappingRule`] sends one contiguous range of unsigned integers to another
//! range of the same length. A [`MappingStage`] is a set of rules with pairwise
//! disjoint source ranges; every value outside all of them maps to itself.
//! Stages chain into pipelines, and two chained stages can be merged into one
//! stage that maps every value exactly as the two applied in turn.
//!
//! The modules, from the ground up:
//!
//! - [`rule`]: a rule and its model;
//! - [`model`]: the model of a stage, read as a function on the integers;
//! - [`stage`]: a stage, with lookup by binary search and storing of rules;
//! - [`segment`]: cutting a window of values into the stretches that a stage
//!   treats alike;
//! - [`runs`]: what the merge of two stages is;
//! - [`assemble`]: how the merge is put together, and why that is the merge;
//! - [`compose`]: merging two stages;
//! - [`resolver`]: pipelines, merged or stage by stage, and lowest results;
//! - [`theorems`]: what holds of all stages, merges and pipelines;
//! - [`text`], [`parse`], [`almanac`]: reading numbers, rules, stages and whole
//!   inputs from text.

pub mod almanac;
pub mod assemble;
pub mod compose;
pub mod model;
pub mod parse;
pub mod resolver;
pub mod rule;
pub mod runs;
pub mod segment;
pub mod stage;
pub mod text;
pub mod theorems;

pub use almanac::{parse_seeds, parse_stages, seed_ranges};
pub use model::StageView;
pub use parse::{parse_mapping_rules, MalformedRuleError};
pub use resolver::{compose_chain, resolve_many, resolve_many_ranges, resolve_point};
pub use rule::{MappingRule, RuleView};
pub use segment::Segment;
pub use stage::MappingStage;
