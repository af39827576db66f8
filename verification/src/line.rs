//! Output entities of the search: options, lines, solutions, and the ghost
//! models their contracts are stated over.

use vstd::prelude::*;

verus! {

/// A value descriptor of one sub-problem: justification mode, half-open node
/// range `[start, end)`, the per-mille tolerance on how far a candidate fill
/// ratio may deviate from 1.0, and a flat per-line penalty.  Also the key
/// under which a solved sub-problem is memoized.
#[derive(Clone, Copy, PartialEq, Eq, Structural, Debug)]
pub struct BreakOptions {
    pub full_justify: bool,
    pub start: usize,
    pub end: usize,
    pub unacceptable_ratio: u32,
    pub line_penalty: i32,
}

/// One output line: the half-open range `[start, end)` of nodes it holds
/// (read-only positions into the searched sequence; the chosen break node at
/// `end` itself belongs to no line), its fill ratio in permille, accumulated
/// elasticity, shortfall, governing options, per-node target widths when full
/// justification is requested, and its computed badness.
pub struct Line {
    pub start: usize,
    pub end: usize,
    pub ratio_permille: u64,
    pub total_stretch: u64,
    pub total_shrink: u64,
    pub shortfall: i64,
    pub options: BreakOptions,
    pub target_widths: Vec<u64>,
    pub badness: i64,
}

/// An ordered sequence of lines and their summed badness.  An empty line list
/// together with `INFINITE_BADNESS` is the explicit infeasibility marker: no
/// legal partition of the requested range exists.
pub struct Solution {
    pub lines: Vec<Line>,
    pub total_badness: i64,
}

/// The badness of the infeasibility marker; larger than any badness a real
/// solution can accumulate under the node-count and dimension bounds.
pub const INFINITE_BADNESS: i64 = i64::MAX;

/// The mathematical image of a [`Line`].
pub ghost struct LineModel {
    pub start: int,
    pub end: int,
    pub ratio_permille: int,
    pub total_stretch: int,
    pub total_shrink: int,
    pub shortfall: int,
    pub options: BreakOptions,
    pub target_widths: Seq<int>,
    pub badness: int,
}

/// The mathematical image of a [`Solution`].
#[verifier::ext_equal]
pub ghost struct SolutionModel {
    pub lines: Seq<LineModel>,
    pub total_badness: int,
}

impl Line {
    /// The mathematical value this line stands for.
    pub open spec fn model(self) -> LineModel {
        LineModel {
            start: self.start as int,
            end: self.end as int,
            ratio_permille: self.ratio_permille as int,
            total_stretch: self.total_stretch as int,
            total_shrink: self.total_shrink as int,
            shortfall: self.shortfall as int,
            options: self.options,
            target_widths: self.target_widths@.map_values(|w: u64| w as int),
            badness: self.badness as int,
        }
    }
}

impl Solution {
    /// The mathematical value this solution stands for.
    pub open spec fn model(self) -> SolutionModel {
        SolutionModel {
            lines: self.lines@.map_values(|l: Line| l.model()),
            total_badness: self.total_badness as int,
        }
    }
}

/// An exact copy of a line, as its model sees it.
pub fn clone_line(l: &Line) -> (r: Line)
    ensures
        r.model() == l.model(),
{
    let mut target_widths: Vec<u64> = Vec::new();
    let mut i: usize = 0;
    while i < l.target_widths.len()
        invariant
            i <= l.target_widths@.len(),
            target_widths@ == l.target_widths@.subrange(0, i as int),
        decreases l.target_widths@.len() - i,
    {
        target_widths.push(l.target_widths[i]);
        i += 1;
        proof {
            assert(target_widths@ =~= l.target_widths@.subrange(0, i as int));
        }
    }
    proof {
        assert(target_widths@ =~= l.target_widths@);
    }
    Line {
        start: l.start,
        end: l.end,
        ratio_permille: l.ratio_permille,
        total_stretch: l.total_stretch,
        total_shrink: l.total_shrink,
        shortfall: l.shortfall,
        options: l.options,
        target_widths,
        badness: l.badness,
    }
}

/// An exact copy of a solution, as its model sees it.
pub fn clone_solution(s: &Solution) -> (r: Solution)
    ensures
        r.model() == s.model(),
{
    let mut lines: Vec<Line> = Vec::new();
    let mut i: usize = 0;
    while i < s.lines.len()
        invariant
            i <= s.lines@.len(),
            lines@.len() == i,
            forall|k: int| 0 <= k < i ==> (#[trigger] lines@[k]).model() == s.lines@[k].model(),
        decreases s.lines@.len() - i,
    {
        let copied = clone_line(&s.lines[i]);
        lines.push(copied);
        i += 1;
    }
    let r = Solution { lines, total_badness: s.total_badness };
    proof {
        assert(r.model().lines =~= s.model().lines);
        assert(r.model() =~= s.model());
    }
    r
}

} // verus!
