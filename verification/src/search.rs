//! The breakpoint search: a memoized scan that partitions a prepared node
//! sequence into lines of minimal accumulated badness.
//!
//! The search is specified by [`spec_solution`]/[`spec_scan`], the exact
//! mathematical image of the procedure: scan the range, absorb unbreakable
//! nodes, reject candidates whose fill ratio is out of tolerance (the final
//! line excepted for underfull candidates), score the legal ones, prune when
//! a better total is already known and a forced break remains ahead, recurse
//! into the remainder, and keep the first-found minimum.  A sub-range whose
//! remainder admits no legal break contributes no candidate, so a returned
//! solution is always total for its range; when no candidate exists at all
//! the infeasibility marker (no lines, `INFINITE_BADNESS`) is returned.

use vstd::prelude::*;
use crate::cost::MAX_TOTAL;
use crate::cost::lemma_range_subst_bounded;
use crate::cost::lemma_range_sums_bounded;
use crate::cost::range_any_negative;
use crate::cost::range_shrink;
use crate::cost::range_stretch;
use crate::cost::range_subst;
use crate::cost::range_width;
use crate::cost::shortfall_term_exec;
use crate::cost::spec_line_badness;
use crate::line::BreakOptions;
use crate::line::INFINITE_BADNESS;
use crate::line::Line;
use crate::line::LineModel;
use crate::line::Solution;
use crate::line::SolutionModel;
use crate::line::clone_solution;
use crate::node::Node;
use crate::node::MAX_DIMEN;
use crate::node::MAX_NODES;
use crate::node::node_dims_ok;

verus! {

/// One memoized sub-problem: the solution previously computed for this line
/// index and these options.
pub struct CacheEntry {
    pub line_no: usize,
    pub options: BreakOptions,
    pub solution: Solution,
}

/// The search context: the node sequence (owned here, read-only during
/// search), the per-line target width table, the memoization cache, a
/// diagnostics switch, and whether the sequence has been finalized.
pub struct Linebreaker {
    pub nodes: Vec<Node>,
    pub hsize: Vec<u64>,
    pub memoize_cache: Vec<CacheEntry>,
    pub debugging: bool,
    pub finalized: bool,
}

/// The configured width at `line_no`, the last configured width for every
/// overflow line beyond the table.
pub open spec fn spec_target_for(hsize: Seq<u64>, line_no: int) -> int {
    if line_no >= hsize.len() {
        hsize[hsize.len() - 1] as int
    } else {
        hsize[line_no] as int
    }
}

/// A candidate break is "too far" from an acceptable fill: narrower than the
/// tolerance allows on a non-final line, or wider than its mirror image above
/// full.  `ur` is the per-mille tolerance; the comparisons are the integer
/// form of `w/t < ur/1000` and `w/t > 2 - ur/1000`.
pub open spec fn spec_candidate_rejected(cur_width: int, target: int, ur: int, last_line: bool) -> bool {
    (1000 * cur_width < ur * target && !last_line) || 1000 * cur_width > (2000 - ur) * target
}

/// Addition of badness totals, saturating at the i64 limits.
pub open spec fn clamp_add(a: int, b: int) -> int {
    if a + b > i64::MAX as int {
        i64::MAX as int
    } else if a + b < i64::MIN as int {
        i64::MIN as int
    } else {
        a + b
    }
}

/// The given options with the range moved up to begin at `start`.
pub open spec fn with_start(opt: BreakOptions, start: int) -> BreakOptions {
    BreakOptions { start: start as usize, ..opt }
}

/// The infeasibility marker: no lines, maximal badness.
pub open spec fn infeasible_model() -> SolutionModel {
    SolutionModel { lines: Seq::empty(), total_badness: INFINITE_BADNESS as int }
}

/// The badness of the line `nodes[opt.start..ix)` broken at `ix`, under the
/// target width of `line_no`.
pub open spec fn candidate_badness(
    nodes: Seq<Node>,
    hsize: Seq<u64>,
    line_no: int,
    opt: BreakOptions,
    ix: int,
) -> int {
    spec_line_badness(
        nodes,
        opt.start as int,
        ix,
        spec_target_for(hsize, line_no) - range_width(nodes, opt.start as int, ix),
        range_stretch(nodes, opt.start as int, ix),
        range_shrink(nodes, opt.start as int, ix),
        opt.line_penalty as int,
    )
}

/// The line model built for a candidate break of `nodes[opt.start..ix)`.
pub open spec fn candidate_line(
    nodes: Seq<Node>,
    hsize: Seq<u64>,
    line_no: int,
    opt: BreakOptions,
    ix: int,
) -> LineModel {
    let target = spec_target_for(hsize, line_no);
    let cur_width = range_width(nodes, opt.start as int, ix);
    LineModel {
        start: opt.start as int,
        end: ix,
        ratio_permille: 1000 * cur_width / target,
        total_stretch: range_stretch(nodes, opt.start as int, ix),
        total_shrink: range_shrink(nodes, opt.start as int, ix),
        shortfall: target - cur_width,
        options: opt,
        target_widths: Seq::empty(),
        badness: candidate_badness(nodes, hsize, line_no, opt, ix),
    }
}

/// The least-badness solution for `nodes[opt.start..opt.end)` as the line at
/// `line_no` and those after it.
pub open spec fn spec_solution(
    nodes: Seq<Node>,
    hsize: Seq<u64>,
    line_no: int,
    opt: BreakOptions,
) -> SolutionModel
    decreases opt.end - opt.start, opt.end - opt.start + 1,
        when 0 <= opt.start <= opt.end <= nodes.len()
{
    spec_scan(nodes, hsize, line_no, opt, opt.start as int, INFINITE_BADNESS as int,
        infeasible_model())
}

/// One step of the scan over `nodes[opt.start..opt.end)`, at position `ix`,
/// with `prune_best` the least total yet seen among recursed considerations
/// and `acc` the first-found minimum consideration so far (the infeasibility
/// marker while there is none).
pub open spec fn spec_scan(
    nodes: Seq<Node>,
    hsize: Seq<u64>,
    line_no: int,
    opt: BreakOptions,
    ix: int,
    prune_best: int,
    acc: SolutionModel,
) -> SolutionModel
    decreases opt.end - opt.start, opt.end - ix,
        when 0 <= opt.start <= ix <= opt.end <= nodes.len()
{
    if ix == opt.end {
        acc
    } else if !nodes[ix].any_breakable {
        // No breakable rendering here: absorb the node and move on.
        spec_scan(nodes, hsize, line_no, opt, ix + 1, prune_best, acc)
    } else {
        let target = spec_target_for(hsize, line_no);
        let cur_width = range_width(nodes, opt.start as int, ix);
        let last_line = ix >= nodes.len() - 3;
        if spec_candidate_rejected(cur_width, target, opt.unacceptable_ratio as int, last_line) {
            spec_scan(nodes, hsize, line_no, opt, ix + 1, prune_best, acc)
        } else {
            let lbad = candidate_badness(nodes, hsize, line_no, opt, ix);
            if (prune_best < lbad && range_any_negative(nodes, opt.start as int, opt.end as int))
                || opt.end - opt.start == 1 {
                // Cannot beat what is already known, or no further choice
                // exists in a one-node range.
                spec_scan(nodes, hsize, line_no, opt, ix + 1, prune_best, acc)
            } else {
                let line = candidate_line(nodes, hsize, line_no, opt, ix);
                if ix + 1 < opt.end {
                    let sub = spec_solution(nodes, hsize, line_no + 1, with_start(opt, ix + 1));
                    if sub.lines.len() == 0 {
                        // The remainder is infeasible: no total solution runs
                        // through this break.
                        spec_scan(nodes, hsize, line_no, opt, ix + 1, prune_best, acc)
                    } else {
                        let total = clamp_add(lbad, sub.total_badness);
                        let prune2 = if total < prune_best { total } else { prune_best };
                        let acc2 = if total < acc.total_badness {
                            SolutionModel { lines: seq![line] + sub.lines, total_badness: total }
                        } else {
                            acc
                        };
                        spec_scan(nodes, hsize, line_no, opt, ix + 1, prune2, acc2)
                    }
                } else {
                    // The candidate consumes the range: a one-line
                    // consideration, not entered into the pruning bound.
                    let acc2 = if lbad < acc.total_badness {
                        SolutionModel { lines: seq![line], total_badness: lbad }
                    } else {
                        acc
                    };
                    spec_scan(nodes, hsize, line_no, opt, ix + 1, prune_best, acc2)
                }
            }
        }
    }
}

impl Linebreaker {
    /// The target width table and every node's geometry are within bounds.
    pub open spec fn dims_ok(self) -> bool {
        &&& 1 <= self.hsize@.len()
        &&& forall|i: int| 0 <= i < self.hsize@.len() ==> 1 <= #[trigger] self.hsize@[i] <= MAX_DIMEN
        &&& forall|i: int| 0 <= i < self.nodes@.len() ==> node_dims_ok(#[trigger] self.nodes@[i])
    }

    /// Still under construction: not finalized, room left for the terminal
    /// sentinel, nothing memoized yet.
    pub open spec fn building(self) -> bool {
        &&& self.dims_ok()
        &&& !self.finalized
        &&& self.nodes@.len() + 1 <= MAX_NODES
        &&& self.memoize_cache@.len() == 0
    }

    /// Finalized and prepared: the sentinel is in place, every node carries
    /// its position as its original index, and all bounds hold.
    pub open spec fn prepared(self) -> bool {
        &&& self.dims_ok()
        &&& self.finalized
        &&& 1 <= self.nodes@.len() <= MAX_NODES
        &&& forall|i: int| 0 <= i < self.nodes@.len() ==>
            (#[trigger] self.nodes@[i]).original_index == i
    }

    /// Every memoized entry is the solution of its sub-problem.
    pub open spec fn cache_ok(self) -> bool {
        forall|k: int| 0 <= k < self.memoize_cache@.len() ==> {
            let e = #[trigger] self.memoize_cache@[k];
            &&& e.options.start <= e.options.end <= self.nodes@.len()
            &&& e.solution.model() == spec_solution(self.nodes@, self.hsize@, e.line_no as int,
                e.options)
        }
    }

    /// The configured width at `line_no`; overflow lines reuse the last
    /// configured width.
    pub fn target_for(&self, line_no: usize) -> (t: u64)
        requires
            self.hsize@.len() >= 1,
        ensures
            t as int == spec_target_for(self.hsize@, line_no as int),
    {
        let max_index = self.hsize.len() - 1;
        if line_no > max_index {
            self.hsize[max_index]
        } else {
            self.hsize[line_no]
        }
    }

    /// Whether any node of `self.nodes[start..end)` admits a forced or
    /// encouraged break in some rendering.
    pub fn has_any_negative_penalties(&self, start: usize, end: usize) -> (r: bool)
        requires
            start <= end <= self.nodes@.len(),
        ensures
            r == range_any_negative(self.nodes@, start as int, end as int),
    {
        let mut k = start;
        while k < end
            invariant
                start <= k <= end <= self.nodes@.len(),
                !range_any_negative(self.nodes@, start as int, k as int),
            decreases end - k,
        {
            if self.nodes[k].any_negative_penalties {
                return true;
            }
            k += 1;
        }
        false
    }

    /// Scores one candidate line: the fill-deviation term, the penalty of the
    /// line's last node, the flat per-line penalty, and every included node's
    /// substitution penalty.
    pub fn badness(&self, line: &Line) -> (b: i64)
        requires
            self.prepared(),
            line.start <= line.end <= self.nodes@.len(),
            -(MAX_TOTAL as i64) <= line.shortfall <= MAX_TOTAL as i64,
            line.total_stretch <= MAX_TOTAL,
            line.total_shrink <= MAX_TOTAL,
        ensures
            b as int == spec_line_badness(
                self.nodes@,
                line.start as int,
                line.end as int,
                line.shortfall as int,
                line.total_stretch as int,
                line.total_shrink as int,
                line.options.line_penalty as int,
            ),
    {
        let term = shortfall_term_exec(line.shortfall, line.total_stretch, line.total_shrink);
        let mut bad: i64 = term;
        if line.end > line.start {
            bad = bad + self.nodes[line.end - 1].penalty as i64;
        }
        bad = bad + line.options.line_penalty as i64;
        let ghost base = bad as int;
        let mut k = line.start;
        while k < line.end
            invariant
                line.start <= k <= line.end <= self.nodes@.len(),
                self.nodes@.len() <= MAX_NODES,
                bad as int == base + range_subst(self.nodes@, line.start as int, k as int),
                -0x8000_0000_0000 <= base <= 0x8000_0000_0000,
            decreases line.end - k,
        {
            proof {
                lemma_range_subst_bounded(self.nodes@, line.start as int, k as int);
                lemma_range_subst_bounded(self.nodes@, line.start as int, k as int + 1);
            }
            bad = bad + self.nodes[k].substitution_penalty as i64;
            k += 1;
        }
        bad
    }
}

/// Some cache entry is keyed by this line index and these options.
pub open spec fn has_cache_entry(
    cache: Seq<CacheEntry>,
    line_no: usize,
    options: BreakOptions,
) -> bool {
    exists|k: int| 0 <= k < cache.len() && (#[trigger] cache[k]).line_no == line_no
        && cache[k].options == options
}

/// Adds two badness totals, saturating at the i64 limits.
pub fn clamp_add_exec(a: i64, b: i64) -> (r: i64)
    ensures
        r as int == clamp_add(a as int, b as int),
{
    let s: i128 = a as i128 + b as i128;
    if s > i64::MAX as i128 {
        i64::MAX
    } else if s < i64::MIN as i128 {
        i64::MIN
    } else {
        s as i64
    }
}

impl Linebreaker {
    /// Returns the memoized solution for this sub-problem, if this exact line
    /// index and options were solved before.
    fn cache_lookup(&self, line_no: usize, options: &BreakOptions) -> (r: Option<Solution>)
        requires
            self.cache_ok(),
        ensures
            match r {
                Some(s) => {
                    &&& s.model() == spec_solution(self.nodes@, self.hsize@, line_no as int,
                        *options)
                    &&& has_cache_entry(self.memoize_cache@, line_no, *options)
                },
                None => true,
            },
    {
        let mut k: usize = 0;
        while k < self.memoize_cache.len()
            invariant
                k <= self.memoize_cache@.len(),
                self.cache_ok(),
            decreases self.memoize_cache@.len() - k,
        {
            let e = &self.memoize_cache[k];
            if e.line_no == line_no && e.options == *options {
                return Some(clone_solution(&e.solution));
            }
            k += 1;
        }
        None
    }

    /// The core search: the least-badness partition of
    /// `nodes[options.start..options.end)` into the line at `line_no` and
    /// those after it, exactly as [`spec_solution`] states it.  Solved
    /// sub-problems are answered from the cache; newly solved ones are
    /// written back to it.
    pub fn find_breakpoints(&mut self, line_no: usize, options: BreakOptions) -> (sol: Solution)
        requires
            old(self).prepared(),
            old(self).cache_ok(),
            options.start <= options.end <= old(self).nodes@.len(),
            line_no as int + options.end as int - options.start as int <= usize::MAX as int,
        ensures
            final(self).nodes == old(self).nodes,
            final(self).hsize == old(self).hsize,
            final(self).finalized == old(self).finalized,
            final(self).prepared(),
            final(self).cache_ok(),
            has_cache_entry(final(self).memoize_cache@, line_no, options),
            sol.model() == spec_solution(old(self).nodes@, old(self).hsize@, line_no as int,
                options),
        decreases options.end - options.start,
    {
        if let Some(cached) = self.cache_lookup(line_no, &options) {
            return cached;
        }
        let ghost ns = self.nodes@;
        let ghost hs = self.hsize@;
        let start = options.start;
        let end = options.end;
        let any_neg = self.has_any_negative_penalties(start, end);
        let target = self.target_for(line_no);
        let mut cur_width: u64 = 0;
        let mut cur_stretch: u64 = 0;
        let mut cur_shrink: u64 = 0;
        let mut prune_best: i64 = INFINITE_BADNESS;
        let mut best = Solution { lines: Vec::new(), total_badness: INFINITE_BADNESS };
        proof {
            assert(best.model().lines =~= infeasible_model().lines);
            assert(best.model() =~= infeasible_model());
        }
        let mut ix = start;
        while ix < end
            invariant
                self.prepared(),
                self.cache_ok(),
                self.nodes == old(self).nodes,
                self.hsize == old(self).hsize,
                self.finalized == old(self).finalized,
                ns == self.nodes@,
                hs == self.hsize@,
                start == options.start,
                end == options.end,
                start <= ix <= end <= ns.len(),
                line_no as int + end as int - start as int <= usize::MAX as int,
                any_neg == range_any_negative(ns, start as int, end as int),
                target as int == spec_target_for(hs, line_no as int),
                1 <= target <= MAX_DIMEN,
                cur_width as int == range_width(ns, start as int, ix as int),
                cur_stretch as int == range_stretch(ns, start as int, ix as int),
                cur_shrink as int == range_shrink(ns, start as int, ix as int),
                cur_width <= MAX_TOTAL,
                cur_stretch <= MAX_TOTAL,
                cur_shrink <= MAX_TOTAL,
                spec_scan(ns, hs, line_no as int, options, ix as int, prune_best as int,
                    best.model()) == spec_solution(ns, hs, line_no as int, options),
            decreases end - ix,
        {
            let ghost pb0 = prune_best as int;
            let ghost acc0 = best.model();
            proof {
                lemma_range_sums_bounded(ns, start as int, ix as int + 1);
                assert((ix as int + 1 - start as int) * MAX_DIMEN
                    <= MAX_NODES as int * MAX_DIMEN) by (nonlinear_arith)
                    requires 0 <= ix as int + 1 - start as int <= MAX_NODES as int;
            }
            if self.nodes[ix].any_breakable {
                let oix = self.nodes[ix].original_index;
                proof {
                    assert(oix == ix);
                }
                let last_line = oix + 3 >= self.nodes.len();
                proof {
                    assert((options.unacceptable_ratio as int) * (target as int)
                        <= 0xFFFFFFFFi64 * (MAX_DIMEN as int)) by (nonlinear_arith)
                        requires
                            0 <= options.unacceptable_ratio as int <= 0xFFFFFFFFi64,
                            0 <= target as int <= MAX_DIMEN as int;
                    assert((2000 - options.unacceptable_ratio as int) * (target as int)
                        <= 2000 * (MAX_DIMEN as int)
                        && (2000 - options.unacceptable_ratio as int) * (target as int)
                        >= (2000 - 0xFFFFFFFFi64) * (MAX_DIMEN as int)) by (nonlinear_arith)
                        requires
                            2000 - 0xFFFFFFFFi64 <= 2000 - options.unacceptable_ratio as int
                                <= 2000,
                            1 <= target as int <= MAX_DIMEN as int;
                }
                let too_narrow = 1000 * cur_width < (options.unacceptable_ratio as u64) * target
                    && !last_line;
                let too_wide = (1000 * cur_width) as i64
                    > (2000i64 - options.unacceptable_ratio as i64) * (target as i64);
                proof {
                    assert((too_narrow || too_wide) == spec_candidate_rejected(cur_width as int,
                        target as int, options.unacceptable_ratio as int, ix as int >= ns.len() - 3));
                }
                if too_narrow || too_wide {
                    // Too far from an acceptable fill: absorb and continue.
                    proof {
                        assert(spec_scan(ns, hs, line_no as int, options, ix as int, pb0, acc0)
                            == spec_scan(ns, hs, line_no as int, options, ix as int + 1, pb0,
                                acc0));
                    }
                } else {
                    // A potential breakpoint: score the line gathered so far.
                    let mut line = Line {
                        ratio_permille: 1000 * cur_width / target,
                        shortfall: target as i64 - cur_width as i64,
                        total_shrink: cur_shrink,
                        total_stretch: cur_stretch,
                        target_widths: Vec::new(),
                        options: options,
                        badness: 0,
                        start: start,
                        end: ix,
                    };
                    let lbad = self.badness(&line);
                    line.badness = lbad;
                    proof {
                        assert(line.model().target_widths
                            =~= candidate_line(ns, hs, line_no as int, options, ix as int)
                                .target_widths);
                        assert(line.model() == candidate_line(ns, hs, line_no as int, options,
                            ix as int));
                        assert(lbad as int == candidate_badness(ns, hs, line_no as int, options,
                            ix as int));
                    }
                    if (prune_best < lbad && any_neg) || end - start == 1 {
                        // Won't find a better one here.
                        proof {
                            assert(spec_scan(ns, hs, line_no as int, options, ix as int, pb0,
                                acc0) == spec_scan(ns, hs, line_no as int, options, ix as int + 1,
                                pb0, acc0));
                        }
                    } else if oix + 1 < end {
                        // Recurse into the remainder for the next line.
                        let mut new_options = options;
                        new_options.start = oix + 1;
                        let recursed = self.find_breakpoints(line_no + 1, new_options);
                        proof {
                            assert(new_options == with_start(options, ix as int + 1));
                        }
                        if recursed.lines.len() == 0 {
                            // The remainder is infeasible: nothing total runs
                            // through this break.
                            proof {
                                assert(spec_scan(ns, hs, line_no as int, options, ix as int, pb0,
                                    acc0) == spec_scan(ns, hs, line_no as int, options,
                                    ix as int + 1, pb0, acc0));
                            }
                        } else {
                            let ghost lm = line.model();
                            let ghost subm = recursed.model();
                            let total = clamp_add_exec(lbad, recursed.total_badness);
                            if total < prune_best {
                                prune_best = total;
                            }
                            if total < best.total_badness {
                                let mut new_lines: Vec<Line> = Vec::new();
                                new_lines.push(line);
                                let mut rest = recursed.lines;
                                new_lines.append(&mut rest);
                                best = Solution { lines: new_lines, total_badness: total };
                                proof {
                                    assert(best.model().lines =~= seq![lm] + subm.lines);
                                }
                            }
                            proof {
                                assert(spec_scan(ns, hs, line_no as int, options, ix as int, pb0,
                                    acc0) == spec_scan(ns, hs, line_no as int, options,
                                    ix as int + 1, prune_best as int, best.model()));
                            }
                        }
                    } else {
                        // The candidate consumes the range: one-line
                        // consideration.
                        let ghost lm = line.model();
                        if lbad < best.total_badness {
                            let mut only: Vec<Line> = Vec::new();
                            only.push(line);
                            best = Solution { lines: only, total_badness: lbad };
                            proof {
                                assert(best.model().lines =~= seq![lm]);
                            }
                        }
                        proof {
                            assert(spec_scan(ns, hs, line_no as int, options, ix as int, pb0,
                                acc0) == spec_scan(ns, hs, line_no as int, options, ix as int + 1,
                                pb0, best.model()));
                        }
                    }
                }
            } else {
                // No breakable rendering: absorbed into the running totals.
                proof {
                    assert(spec_scan(ns, hs, line_no as int, options, ix as int, pb0, acc0)
                        == spec_scan(ns, hs, line_no as int, options, ix as int + 1, pb0, acc0));
                }
            }
            cur_width = cur_width + self.nodes[ix].width;
            cur_stretch = cur_stretch + self.nodes[ix].stretch;
            cur_shrink = cur_shrink + self.nodes[ix].shrink;
            ix += 1;
        }
        proof {
            assert(spec_scan(ns, hs, line_no as int, options, end as int, prune_best as int,
                best.model()) == best.model());
            assert(best.model() == spec_solution(ns, hs, line_no as int, options));
        }
        let returned = clone_solution(&best);
        let ghost pre_cache = self.memoize_cache@;
        proof {
            assert(forall|k: int| 0 <= k < pre_cache.len() ==> {
                let e = #[trigger] pre_cache[k];
                &&& e.options.start <= e.options.end <= ns.len()
                &&& e.solution.model() == spec_solution(ns, hs, e.line_no as int, e.options)
            });
        }
        let entry = CacheEntry { line_no, options, solution: best };
        self.memoize_cache.push(entry);
        proof {
            assert(self.memoize_cache@[self.memoize_cache@.len() - 1].line_no == line_no);
            assert(has_cache_entry(self.memoize_cache@, line_no, options));
            assert forall|k: int| 0 <= k < self.memoize_cache@.len() implies {
                let e = #[trigger] self.memoize_cache@[k];
                &&& e.options.start <= e.options.end <= self.nodes@.len()
                &&& e.solution.model() == spec_solution(self.nodes@, self.hsize@,
                    e.line_no as int, e.options)
            } by {
                if k < pre_cache.len() {
                    assert(self.memoize_cache@[k] == pre_cache[k]);
                }
            }
        }
        returned
    }
}

} // verus!
