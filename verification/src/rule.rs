//! A single mapping rule: one source range and where it goes.

use core::ops::Range;
use vstd::prelude::*;

verus! {

/// Mathematical model of a rule: the half-open source range `[start, end)`
/// and the value `dest` that `start` is sent to.
pub struct RuleView {
    pub start: int,
    pub end: int,
    pub dest: int,
}

impl RuleView {
    /// Number of values in the source range.
    pub open spec fn len(self) -> int {
        self.end - self.start
    }

    /// The source range is non-empty, and both it and its image fit in `usize`.
    pub open spec fn wf(self) -> bool {
        &&& 0 <= self.start < self.end <= usize::MAX
        &&& 0 <= self.dest
        &&& self.dest + self.len() <= usize::MAX
    }

    /// `n` lies in the source range.
    pub open spec fn contains(self, n: int) -> bool {
        self.start <= n < self.end
    }

    /// Where the rule sends `n`: shifted along with the range if `n` lies in
    /// the source range, unchanged otherwise.
    pub open spec fn apply(self, n: int) -> int {
        if self.contains(n) {
            self.dest + (n - self.start)
        } else {
            n
        }
    }

    /// The part of the rule whose source lies in the window `[lo, hi)`. The
    /// result has an empty source range (`end <= start`) when the rule does
    /// not meet the window.
    pub open spec fn clip(self, lo: int, hi: int) -> RuleView {
        let start = if self.start < lo { lo } else { self.start };
        let end = if hi < self.end { hi } else { self.end };
        RuleView { start, end, dest: self.dest + (start - self.start) }
    }

    /// What is left of the rule on one side of `r`: the part behind the source
    /// range of `r` if `above`, else the part before it.
    pub open spec fn beside(self, r: RuleView, above: bool) -> RuleView {
        if above {
            self.clip(r.end, usize::MAX as int)
        } else {
            self.clip(0, r.start)
        }
    }
}

/// One contiguous source range `[source_start, source_end)` together with the
/// value that `source_start` is mapped to.
#[derive(Clone, Copy, Debug, PartialEq, Eq)]
pub struct MappingRule {
    dest_start: usize,
    source_start: usize,
    source_end: usize,
}

impl View for MappingRule {
    type V = RuleView;

    closed spec fn view(&self) -> RuleView {
        RuleView {
            start: self.source_start as int,
            end: self.source_end as int,
            dest: self.dest_start as int,
        }
    }
}

impl MappingRule {
    /// Holds of every rule: the source range is non-empty, and both it and
    /// its image fit in `usize`.
    #[verifier::type_invariant]
    pub open spec fn wf(&self) -> bool {
        self@.wf()
    }

    /// The rule that maps `source_len` values starting at `source_start` to the
    /// values starting at `dest_start`. There is no such rule when the range
    /// is empty or when the range or its image would reach past `usize::MAX`.
    pub fn new(dest_start: usize, source_start: usize, source_len: usize) -> (rule: Option<Self>)
        ensures
            rule is Some <==> 0 < source_len && source_start + source_len <= usize::MAX
                && dest_start + source_len <= usize::MAX,
            rule matches Some(r) ==> r.wf() && r@ == (RuleView {
                start: source_start as int,
                end: source_start + source_len,
                dest: dest_start as int,
            }),
    {
        if source_len == 0 || source_len > usize::MAX - source_start || source_len > usize::MAX
            - dest_start {
            None
        } else {
            Some(MappingRule { dest_start, source_start, source_end: source_start + source_len })
        }
    }

    /// The rule with the given source range `[source_start, source_end)`.
    pub(crate) fn from_range(dest_start: usize, source_start: usize, source_end: usize) -> (rule:
        Self)
        requires
            source_start < source_end,
            dest_start + (source_end - source_start) <= usize::MAX,
        ensures
            rule@ == (RuleView {
                start: source_start as int,
                end: source_end as int,
                dest: dest_start as int,
            }),
    {
        MappingRule { dest_start, source_start, source_end }
    }

    /// The part of the rule whose source lies in the window `[lo, hi)`, if the
    /// rule meets the window.
    pub fn clip(&self, lo: usize, hi: usize) -> (piece: Option<Self>)
        ensures
            piece is Some <==> self@.clip(lo as int, hi as int).start < self@.clip(
                lo as int,
                hi as int,
            ).end,
            piece matches Some(p) ==> p@ == self@.clip(lo as int, hi as int),
    {
        proof {
            use_type_invariant(self);
        }
        let start: usize = if self.source_start < lo {
            lo
        } else {
            self.source_start
        };
        let end: usize = if hi < self.source_end {
            hi
        } else {
            self.source_end
        };
        if start < end {
            Some(
                MappingRule {
                    dest_start: self.dest_start + (start - self.source_start),
                    source_start: start,
                    source_end: end,
                },
            )
        } else {
            None
        }
    }

    /// First value of the source range.
    pub fn source_start(&self) -> (r: usize)
        ensures
            r == self@.start,
    {
        self.source_start
    }

    /// End of the source range (the first value past it).
    pub fn source_end(&self) -> (r: usize)
        ensures
            r == self@.end,
    {
        self.source_end
    }

    /// The source range.
    pub fn source(&self) -> (r: Range<usize>)
        ensures
            r.start == self@.start,
            r.end == self@.end,
    {
        Range { start: self.source_start, end: self.source_end }
    }

    /// The value that `source_start` is mapped to.
    pub fn dest_start(&self) -> (r: usize)
        ensures
            r == self@.dest,
    {
        self.dest_start
    }

    /// Whether `n` lies in the source range.
    pub fn contains(&self, n: usize) -> (b: bool)
        ensures
            b == self@.contains(n as int),
    {
        self.source_start <= n && n < self.source_end
    }

    /// Maps `n`: a value of the source range moves with the range, any other
    /// value comes back unchanged.
    pub fn resolve(&self, n: usize) -> (r: usize)
        ensures
            r == self@.apply(n as int),
    {
        proof {
            use_type_invariant(self);
        }
        if self.source_start <= n && n < self.source_end {
            self.dest_start + (n - self.source_start)
        } else {
            n
        }
    }
}

} // verus!
