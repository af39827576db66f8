//! Optimality and monotonicity of the search on ranges without forced
//! breaks, and unconditional feasibility.
//!
//! A *legal chain* is any partition of the range the scan could ever build:
//! lines in order, each closed at a breakable position whose fill passes the
//! tolerance test, none inside a one-node range.  Where no node of the range
//! carries a negative penalty in any rendering, the pruning rule never fires,
//! and the solution is at least as good as every legal chain; raising the
//! flat line penalty then never yields a solution with more lines.  On a
//! range that does carry a negative penalty the pruning rule may skip a
//! candidate, so no minimality claim is made there — but feasibility still
//! holds: the infeasibility marker comes exactly when no legal chain exists,
//! whatever the penalties.

use vstd::prelude::*;
use crate::cost::range_any_negative;
use crate::cost::range_shrink;
use crate::cost::range_stretch;
use crate::cost::range_width;
use crate::cost::lemma_range_subst_bounded;
use crate::cost::lemma_shortfall_term_nonnegative;
use crate::line::BreakOptions;
use crate::line::INFINITE_BADNESS;
use crate::line::LineModel;
use crate::line::SolutionModel;
use crate::node::Node;
use crate::node::MAX_NODES;
use crate::search::candidate_badness;
use crate::search::candidate_line;
use crate::search::clamp_add;
use crate::search::infeasible_model;
use crate::search::spec_candidate_rejected;
use crate::search::spec_scan;
use crate::search::spec_solution;
use crate::search::spec_target_for;
use crate::search::with_start;

verus! {

/// A bound on the badness of any single line over at most `MAX_NODES` nodes:
/// capped fill term, two penalties, and one substitution penalty per node.
pub open spec fn line_bound() -> int {
    (MAX_NODES as int + 3) * (i32::MAX as int + 1)
}

/// `lines` is a partition the scan could build for this sub-problem: chained
/// in order, each line a candidate line closed at a breakable, tolerated
/// position, no line inside a one-node range.
pub open spec fn legal_chain(
    nodes: Seq<Node>,
    hsize: Seq<u64>,
    line_no: int,
    opt: BreakOptions,
    lines: Seq<LineModel>,
) -> bool
    decreases lines.len(),
{
    if lines.len() == 0 {
        false
    } else {
        let l = lines[0];
        &&& opt.end - opt.start != 1
        &&& opt.start <= l.end < opt.end
        &&& nodes[l.end].any_breakable
        &&& !spec_candidate_rejected(range_width(nodes, opt.start as int, l.end),
            spec_target_for(hsize, line_no), opt.unacceptable_ratio as int,
            l.end >= nodes.len() - 3)
        &&& l == candidate_line(nodes, hsize, line_no, opt, l.end)
        &&& if lines.len() == 1 {
            l.end + 1 == opt.end
        } else {
            legal_chain(nodes, hsize, line_no + 1, with_start(opt, l.end + 1),
                lines.drop_first())
        }
    }
}

/// The summed badness of a chain's lines.
pub open spec fn chain_total(lines: Seq<LineModel>) -> int
    decreases lines.len(),
{
    if lines.len() == 0 {
        0
    } else {
        lines[0].badness + chain_total(lines.drop_first())
    }
}

/// Either the infeasibility marker, or a feasible solution whose total is
/// within `d` line bounds.
pub open spec fn bounded_or_marker(sol: SolutionModel, d: int) -> bool {
    ||| (sol.lines.len() == 0 && sol.total_badness == INFINITE_BADNESS as int)
    ||| (sol.lines.len() > 0 && -(d * line_bound()) <= sol.total_badness <= d * line_bound())
}

proof fn lemma_range_elastic_nonneg(nodes: Seq<Node>, i: int, j: int)
    ensures
        range_stretch(nodes, i, j) >= 0,
        range_shrink(nodes, i, j) >= 0,
    decreases j - i,
{
    if j > i {
        lemma_range_elastic_nonneg(nodes, i, j - 1);
    }
}

/// Any candidate line's badness lies within one line bound.
proof fn lemma_candidate_badness_bounded(
    nodes: Seq<Node>,
    hsize: Seq<u64>,
    line_no: int,
    opt: BreakOptions,
    ix: int,
)
    requires
        0 <= opt.start <= ix <= nodes.len() <= MAX_NODES,
    ensures
        -line_bound() <= candidate_badness(nodes, hsize, line_no, opt, ix) <= line_bound(),
{
    lemma_range_elastic_nonneg(nodes, opt.start as int, ix);
    lemma_shortfall_term_nonnegative(
        spec_target_for(hsize, line_no) - range_width(nodes, opt.start as int, ix),
        range_stretch(nodes, opt.start as int, ix),
        range_shrink(nodes, opt.start as int, ix),
    );
    lemma_range_subst_bounded(nodes, opt.start as int, ix);
    assert((ix - opt.start) * (i32::MAX as int) <= MAX_NODES as int * (i32::MAX as int + 1)
        && (ix - opt.start) * (i32::MIN as int) >= -(MAX_NODES as int) * (i32::MAX as int + 1))
        by (nonlinear_arith)
        requires 0 <= ix - opt.start <= MAX_NODES as int;
}

proof fn lemma_scan_bounds(
    nodes: Seq<Node>,
    hsize: Seq<u64>,
    line_no: int,
    opt: BreakOptions,
    ix: int,
    prune_best: int,
    acc: SolutionModel,
)
    requires
        0 <= opt.start <= ix <= opt.end <= nodes.len() <= MAX_NODES,
        bounded_or_marker(acc, opt.end - opt.start),
    ensures
        ({
            let r = spec_scan(nodes, hsize, line_no, opt, ix, prune_best, acc);
            &&& bounded_or_marker(r, opt.end - opt.start)
            &&& r.total_badness <= acc.total_badness
        }),
    decreases opt.end - opt.start, opt.end - ix,
{
    let d = opt.end - opt.start;
    if ix == opt.end {
    } else if !nodes[ix].any_breakable {
        lemma_scan_bounds(nodes, hsize, line_no, opt, ix + 1, prune_best, acc);
    } else {
        let target = spec_target_for(hsize, line_no);
        let cur_width = range_width(nodes, opt.start as int, ix);
        let last_line = ix >= nodes.len() - 3;
        if spec_candidate_rejected(cur_width, target, opt.unacceptable_ratio as int, last_line) {
            lemma_scan_bounds(nodes, hsize, line_no, opt, ix + 1, prune_best, acc);
        } else {
            let lbad = candidate_badness(nodes, hsize, line_no, opt, ix);
            lemma_candidate_badness_bounded(nodes, hsize, line_no, opt, ix);
            if (prune_best < lbad && range_any_negative(nodes, opt.start as int, opt.end as int))
                || opt.end - opt.start == 1 {
                lemma_scan_bounds(nodes, hsize, line_no, opt, ix + 1, prune_best, acc);
            } else {
                if ix + 1 < opt.end {
                    let sub_opt = with_start(opt, ix + 1);
                    let sub = spec_solution(nodes, hsize, line_no + 1, sub_opt);
                    lemma_solution_bounds(nodes, hsize, line_no + 1, sub_opt);
                    if sub.lines.len() == 0 {
                        lemma_scan_bounds(nodes, hsize, line_no, opt, ix + 1, prune_best, acc);
                    } else {
                        let d2 = opt.end - ix - 1;
                        assert(d2 * line_bound() + line_bound() <= d * line_bound()
                            && d * line_bound() <= MAX_NODES as int * line_bound())
                            by (nonlinear_arith)
                            requires 0 <= d2, d2 + 1 <= d <= MAX_NODES as int,
                                line_bound() > 0;
                        let total = clamp_add(lbad, sub.total_badness);
                        assert(total == lbad + sub.total_badness);
                        let prune2 = if total < prune_best { total } else { prune_best };
                        let acc2 = if total < acc.total_badness {
                            SolutionModel { lines: seq![candidate_line(nodes, hsize, line_no,
                                opt, ix)] + sub.lines, total_badness: total }
                        } else {
                            acc
                        };
                        lemma_scan_bounds(nodes, hsize, line_no, opt, ix + 1, prune2, acc2);
                    }
                } else {
                    assert(1 * line_bound() <= d * line_bound()) by (nonlinear_arith)
                        requires 1 <= d, line_bound() > 0;
                    let acc2 = if lbad < acc.total_badness {
                        SolutionModel { lines: seq![candidate_line(nodes, hsize, line_no, opt,
                            ix)], total_badness: lbad }
                    } else {
                        acc
                    };
                    lemma_scan_bounds(nodes, hsize, line_no, opt, ix + 1, prune_best, acc2);
                }
            }
        }
    }
}

/// Every sub-problem's solution is the infeasibility marker or a feasible
/// solution with a bounded total; in particular the saturating additions of
/// the scan are exact.
pub proof fn lemma_solution_bounds(
    nodes: Seq<Node>,
    hsize: Seq<u64>,
    line_no: int,
    opt: BreakOptions,
)
    requires
        0 <= opt.start <= opt.end <= nodes.len() <= MAX_NODES,
    ensures
        bounded_or_marker(spec_solution(nodes, hsize, line_no, opt), opt.end - opt.start),
    decreases opt.end - opt.start, opt.end - opt.start + 1,
{
    lemma_scan_bounds(nodes, hsize, line_no, opt, opt.start as int, INFINITE_BADNESS as int,
        infeasible_model());
}

proof fn lemma_scan_optimal(
    nodes: Seq<Node>,
    hsize: Seq<u64>,
    line_no: int,
    opt: BreakOptions,
    ix: int,
    prune_best: int,
    acc: SolutionModel,
    c: Seq<LineModel>,
)
    requires
        0 <= opt.start <= ix <= opt.end <= nodes.len() <= MAX_NODES,
        !range_any_negative(nodes, opt.start as int, opt.end as int),
        bounded_or_marker(acc, opt.end - opt.start),
        legal_chain(nodes, hsize, line_no, opt, c),
        ix <= c[0].end,
    ensures
        ({
            let r = spec_scan(nodes, hsize, line_no, opt, ix, prune_best, acc);
            &&& r.lines.len() > 0
            &&& r.total_badness <= chain_total(c)
        }),
    decreases opt.end - opt.start, opt.end - ix,
{
    let d = opt.end - opt.start;
    let target = spec_target_for(hsize, line_no);
    let cur_width = range_width(nodes, opt.start as int, ix);
    let last_line = ix >= nodes.len() - 3;
    if ix < c[0].end {
        // Not yet at the chain's first break: whatever the scan does at `ix`
        // only improves the accumulator.
        if !nodes[ix].any_breakable {
            lemma_scan_optimal(nodes, hsize, line_no, opt, ix + 1, prune_best, acc, c);
        } else if spec_candidate_rejected(cur_width, target, opt.unacceptable_ratio as int,
            last_line) {
            lemma_scan_optimal(nodes, hsize, line_no, opt, ix + 1, prune_best, acc, c);
        } else {
            let lbad = candidate_badness(nodes, hsize, line_no, opt, ix);
            lemma_candidate_badness_bounded(nodes, hsize, line_no, opt, ix);
            assert(ix + 1 < opt.end);
            let sub_opt = with_start(opt, ix + 1);
            let sub = spec_solution(nodes, hsize, line_no + 1, sub_opt);
            lemma_solution_bounds(nodes, hsize, line_no + 1, sub_opt);
            if sub.lines.len() == 0 {
                lemma_scan_optimal(nodes, hsize, line_no, opt, ix + 1, prune_best, acc, c);
            } else {
                let d2 = opt.end - ix - 1;
                assert(d2 * line_bound() + line_bound() <= d * line_bound()
                    && d * line_bound() <= MAX_NODES as int * line_bound())
                    by (nonlinear_arith)
                    requires 0 <= d2, d2 + 1 <= d <= MAX_NODES as int, line_bound() > 0;
                let total = clamp_add(lbad, sub.total_badness);
                assert(total == lbad + sub.total_badness);
                let prune2 = if total < prune_best { total } else { prune_best };
                let acc2 = if total < acc.total_badness {
                    SolutionModel { lines: seq![candidate_line(nodes, hsize, line_no, opt,
                        ix)] + sub.lines, total_badness: total }
                } else {
                    acc
                };
                lemma_scan_optimal(nodes, hsize, line_no, opt, ix + 1, prune2, acc2, c);
            }
        }
    } else {
        // At the chain's first break: this candidate is eligible, and the
        // consideration built here costs no more than the chain.
        let lbad = candidate_badness(nodes, hsize, line_no, opt, ix);
        lemma_candidate_badness_bounded(nodes, hsize, line_no, opt, ix);
        assert(lbad == c[0].badness);
        if c.len() > 1 {
            let rest = c.drop_first();
            let sub_opt = with_start(opt, ix + 1);
            assert(legal_chain(nodes, hsize, line_no + 1, sub_opt, rest));
            assert(rest[0].end < opt.end && sub_opt.start <= rest[0].end);
            assert(ix + 1 < opt.end);
            let sub = spec_solution(nodes, hsize, line_no + 1, sub_opt);
            lemma_solution_bounds(nodes, hsize, line_no + 1, sub_opt);
            lemma_scan_optimal(nodes, hsize, line_no + 1, sub_opt, ix + 1,
                INFINITE_BADNESS as int, infeasible_model(), rest);
            lemma_chain_total_bounded(nodes, hsize, line_no + 1, sub_opt, rest);
            assert(sub.lines.len() > 0);
            let d2 = opt.end - ix - 1;
            assert(d2 * line_bound() + line_bound() <= d * line_bound()
                && d * line_bound() <= MAX_NODES as int * line_bound())
                by (nonlinear_arith)
                requires 0 <= d2, d2 + 1 <= d <= MAX_NODES as int, line_bound() > 0;
            let total = clamp_add(lbad, sub.total_badness);
            assert(total == lbad + sub.total_badness);
            assert(total <= chain_total(c));
            let prune2 = if total < prune_best { total } else { prune_best };
            let acc2 = if total < acc.total_badness {
                SolutionModel { lines: seq![candidate_line(nodes, hsize, line_no, opt,
                    ix)] + sub.lines, total_badness: total }
            } else {
                acc
            };
            assert(acc2.lines.len() > 0 && acc2.total_badness <= chain_total(c));
            lemma_scan_bounds(nodes, hsize, line_no, opt, ix + 1, prune2, acc2);
        } else {
            assert(ix + 1 == opt.end);
            let acc2 = if lbad < acc.total_badness {
                SolutionModel { lines: seq![candidate_line(nodes, hsize, line_no, opt, ix)],
                    total_badness: lbad }
            } else {
                acc
            };
            assert(1 * line_bound() <= d * line_bound()
                && d * line_bound() <= MAX_NODES as int * line_bound())
                by (nonlinear_arith)
                requires 1 <= d <= MAX_NODES as int, line_bound() > 0;
            assert(chain_total(c.drop_first()) == 0);
            assert(chain_total(c) == c[0].badness);
            assert(acc2.lines.len() > 0 && acc2.total_badness <= chain_total(c));
            lemma_scan_bounds(nodes, hsize, line_no, opt, ix + 1, prune_best, acc2);
        }
    }
}

proof fn lemma_chain_total_bounded(
    nodes: Seq<Node>,
    hsize: Seq<u64>,
    line_no: int,
    opt: BreakOptions,
    c: Seq<LineModel>,
)
    requires
        0 <= opt.start <= opt.end <= nodes.len() <= MAX_NODES,
        legal_chain(nodes, hsize, line_no, opt, c),
    ensures
        -((opt.end - opt.start) * line_bound()) <= chain_total(c)
            <= (opt.end - opt.start) * line_bound(),
    decreases c.len(),
{
    let d = opt.end - opt.start;
    let l = c[0];
    lemma_candidate_badness_bounded(nodes, hsize, line_no, opt, l.end);
    assert(chain_total(c) == c[0].badness + chain_total(c.drop_first()));
    if c.len() == 1 {
        assert(chain_total(c.drop_first()) == 0);
        assert(1 * line_bound() <= d * line_bound()) by (nonlinear_arith)
            requires 1 <= d, line_bound() > 0;
    } else {
        let sub_opt = with_start(opt, l.end + 1);
        lemma_chain_total_bounded(nodes, hsize, line_no + 1, sub_opt, c.drop_first());
        let d2 = opt.end - l.end - 1;
        assert(d2 * line_bound() + line_bound() <= d * line_bound()) by (nonlinear_arith)
            requires 0 <= d2, d2 + 1 <= d, line_bound() > 0;
    }
}

proof fn lemma_scan_legal(
    nodes: Seq<Node>,
    hsize: Seq<u64>,
    line_no: int,
    opt: BreakOptions,
    ix: int,
    prune_best: int,
    acc: SolutionModel,
)
    requires
        0 <= opt.start <= ix <= opt.end <= nodes.len() <= MAX_NODES,
        acc.lines.len() > 0 ==> {
            &&& legal_chain(nodes, hsize, line_no, opt, acc.lines)
            &&& acc.total_badness == chain_total(acc.lines)
        },
    ensures
        ({
            let r = spec_scan(nodes, hsize, line_no, opt, ix, prune_best, acc);
            r.lines.len() > 0 ==> {
                &&& legal_chain(nodes, hsize, line_no, opt, r.lines)
                &&& r.total_badness == chain_total(r.lines)
            }
        }),
    decreases opt.end - opt.start, opt.end - ix,
{
    let d = opt.end - opt.start;
    if ix == opt.end {
    } else if !nodes[ix].any_breakable {
        lemma_scan_legal(nodes, hsize, line_no, opt, ix + 1, prune_best, acc);
    } else {
        let target = spec_target_for(hsize, line_no);
        let cur_width = range_width(nodes, opt.start as int, ix);
        let last_line = ix >= nodes.len() - 3;
        if spec_candidate_rejected(cur_width, target, opt.unacceptable_ratio as int, last_line) {
            lemma_scan_legal(nodes, hsize, line_no, opt, ix + 1, prune_best, acc);
        } else {
            let lbad = candidate_badness(nodes, hsize, line_no, opt, ix);
            lemma_candidate_badness_bounded(nodes, hsize, line_no, opt, ix);
            if (prune_best < lbad && range_any_negative(nodes, opt.start as int, opt.end as int))
                || opt.end - opt.start == 1 {
                lemma_scan_legal(nodes, hsize, line_no, opt, ix + 1, prune_best, acc);
            } else {
                let line = candidate_line(nodes, hsize, line_no, opt, ix);
                if ix + 1 < opt.end {
                    let sub_opt = with_start(opt, ix + 1);
                    let sub = spec_solution(nodes, hsize, line_no + 1, sub_opt);
                    lemma_solution_bounds(nodes, hsize, line_no + 1, sub_opt);
                    lemma_solution_legal(nodes, hsize, line_no + 1, sub_opt);
                    if sub.lines.len() == 0 {
                        lemma_scan_legal(nodes, hsize, line_no, opt, ix + 1, prune_best, acc);
                    } else {
                        let d2 = opt.end - ix - 1;
                        assert(d2 * line_bound() + line_bound() <= d * line_bound()
                            && d * line_bound() <= MAX_NODES as int * line_bound())
                            by (nonlinear_arith)
                            requires 0 <= d2, d2 + 1 <= d <= MAX_NODES as int, line_bound() > 0;
                        let total = clamp_add(lbad, sub.total_badness);
                        assert(total == lbad + sub.total_badness);
                        let new_lines = seq![line] + sub.lines;
                        assert(new_lines.drop_first() =~= sub.lines);
                        assert(legal_chain(nodes, hsize, line_no, opt, new_lines));
                        assert(chain_total(new_lines) == line.badness + chain_total(sub.lines));
                        let prune2 = if total < prune_best { total } else { prune_best };
                        let acc2 = if total < acc.total_badness {
                            SolutionModel { lines: new_lines, total_badness: total }
                        } else {
                            acc
                        };
                        lemma_scan_legal(nodes, hsize, line_no, opt, ix + 1, prune2, acc2);
                    }
                } else {
                    let only = seq![line];
                    assert(only.drop_first() =~= Seq::<LineModel>::empty());
                    assert(legal_chain(nodes, hsize, line_no, opt, only));
                    assert(chain_total(only) == line.badness + chain_total(only.drop_first()));
                    assert(chain_total(only.drop_first()) == 0);
                    let acc2 = if lbad < acc.total_badness {
                        SolutionModel { lines: only, total_badness: lbad }
                    } else {
                        acc
                    };
                    lemma_scan_legal(nodes, hsize, line_no, opt, ix + 1, prune_best, acc2);
                }
            }
        }
    }
}

/// Every feasible solution is itself a legal chain of its sub-problem, and
/// its total badness is exactly the sum of its lines' badnesses.
pub proof fn lemma_solution_legal(
    nodes: Seq<Node>,
    hsize: Seq<u64>,
    line_no: int,
    opt: BreakOptions,
)
    requires
        0 <= opt.start <= opt.end <= nodes.len() <= MAX_NODES,
    ensures
        ({
            let sol = spec_solution(nodes, hsize, line_no, opt);
            sol.lines.len() > 0 ==> {
                &&& legal_chain(nodes, hsize, line_no, opt, sol.lines)
                &&& sol.total_badness == chain_total(sol.lines)
            }
        }),
    decreases opt.end - opt.start, opt.end - opt.start + 1,
{
    lemma_scan_legal(nodes, hsize, line_no, opt, opt.start as int, INFINITE_BADNESS as int,
        infeasible_model());
}

/// The given options with another flat line penalty.
pub open spec fn with_line_penalty(opt: BreakOptions, lp: i32) -> BreakOptions {
    BreakOptions { line_penalty: lp, ..opt }
}

/// One line of a chain re-scored from line penalty `lp1` to `lp2`.
pub open spec fn relabel_line(l: LineModel, lp1: i32, lp2: i32) -> LineModel {
    LineModel {
        options: with_line_penalty(l.options, lp2),
        badness: l.badness - lp1 + lp2,
        ..l
    }
}

/// A whole chain re-scored from line penalty `lp1` to `lp2`.
pub open spec fn relabel(lines: Seq<LineModel>, lp1: i32, lp2: i32) -> Seq<LineModel> {
    lines.map_values(|l: LineModel| relabel_line(l, lp1, lp2))
}

/// Re-scoring a legal chain under another flat line penalty yields a legal
/// chain of the re-penalized sub-problem, and moves the total by the penalty
/// difference once per line: eligibility never depends on the line penalty.
proof fn lemma_relabel_legal(
    nodes: Seq<Node>,
    hsize: Seq<u64>,
    line_no: int,
    opt: BreakOptions,
    lines: Seq<LineModel>,
    lp2: i32,
)
    requires
        legal_chain(nodes, hsize, line_no, opt, lines),
    ensures
        legal_chain(nodes, hsize, line_no, with_line_penalty(opt, lp2),
            relabel(lines, opt.line_penalty, lp2)),
        chain_total(relabel(lines, opt.line_penalty, lp2)) == chain_total(lines)
            + lines.len() * (lp2 - opt.line_penalty),
    decreases lines.len(),
{
    let lp1 = opt.line_penalty;
    let opt2 = with_line_penalty(opt, lp2);
    let r = relabel(lines, lp1, lp2);
    let l = lines[0];
    crate::laws::lemma_candidate_badness_affine(nodes, hsize, line_no, opt, lp2, l.end);
    assert(r[0] == relabel_line(l, lp1, lp2));
    assert(relabel_line(l, lp1, lp2) == candidate_line(nodes, hsize, line_no, opt2, l.end));
    assert(r.drop_first() =~= relabel(lines.drop_first(), lp1, lp2));
    assert(chain_total(r) == r[0].badness + chain_total(r.drop_first()));
    assert(chain_total(lines) == lines[0].badness + chain_total(lines.drop_first()));
    if lines.len() == 1 {
        assert(chain_total(r.drop_first()) == 0);
        assert(chain_total(lines.drop_first()) == 0);
        assert(legal_chain(nodes, hsize, line_no, opt2, r));
    } else {
        let sub_opt = with_start(opt, l.end + 1);
        assert(sub_opt.line_penalty == lp1);
        lemma_relabel_legal(nodes, hsize, line_no + 1, sub_opt, lines.drop_first(), lp2);
        assert(with_line_penalty(sub_opt, lp2) == with_start(opt2, l.end + 1));
        assert(legal_chain(nodes, hsize, line_no, opt2, r));
        assert((lines.len() - 1) * (lp2 - lp1) + (lp2 - lp1) == lines.len() * (lp2 - lp1))
            by (nonlinear_arith);
    }
}

/// Monotonicity of the line count in the flat line penalty, on ranges without
/// forced breaks: with no negative penalty in any rendering of the range, and
/// the cheaper sub-problem feasible, raising the line penalty never yields a
/// solution with more lines.
pub proof fn lemma_line_count_monotonic(
    nodes: Seq<Node>,
    hsize: Seq<u64>,
    line_no: int,
    opt: BreakOptions,
    lp2: i32,
)
    requires
        0 <= opt.start <= opt.end <= nodes.len() <= MAX_NODES,
        !range_any_negative(nodes, opt.start as int, opt.end as int),
        opt.line_penalty <= lp2,
        spec_solution(nodes, hsize, line_no, opt).lines.len() > 0,
    ensures
        spec_solution(nodes, hsize, line_no, with_line_penalty(opt, lp2)).lines.len()
            <= spec_solution(nodes, hsize, line_no, opt).lines.len(),
{
    let lp1 = opt.line_penalty;
    let opt2 = with_line_penalty(opt, lp2);
    let sol1 = spec_solution(nodes, hsize, line_no, opt);
    let sol2 = spec_solution(nodes, hsize, line_no, opt2);
    let k1 = sol1.lines.len() as int;
    lemma_solution_legal(nodes, hsize, line_no, opt);
    lemma_relabel_legal(nodes, hsize, line_no, opt, sol1.lines, lp2);
    lemma_solution_optimal(nodes, hsize, line_no, opt2, relabel(sol1.lines, lp1, lp2));
    let k2 = sol2.lines.len() as int;
    lemma_solution_legal(nodes, hsize, line_no, opt2);
    assert(opt2.line_penalty == lp2);
    lemma_relabel_legal(nodes, hsize, line_no, opt2, sol2.lines, lp1);
    assert(with_line_penalty(opt2, lp1) == opt);
    lemma_solution_optimal(nodes, hsize, line_no, opt, relabel(sol2.lines, lp2, lp1));
    assert(sol2.total_badness <= sol1.total_badness + k1 * (lp2 - lp1));
    assert(sol1.total_badness <= sol2.total_badness + k2 * (lp1 - lp2));
    if lp1 == lp2 {
        assert(opt2 == opt);
    } else {
        assert(k2 <= k1) by (nonlinear_arith)
            requires
                lp1 < lp2,
                sol2.total_badness <= sol1.total_badness + k1 * (lp2 - lp1),
                sol1.total_badness <= sol2.total_badness + k2 * (lp1 - lp2),
                k1 >= 0,
                k2 >= 0,
        ;
    }
}

/// Optimality on ranges without forced breaks: where no node carries a
/// negative penalty in any rendering, the solution is feasible whenever any
/// legal chain exists, and its total badness is at most that chain's.
pub proof fn lemma_solution_optimal(
    nodes: Seq<Node>,
    hsize: Seq<u64>,
    line_no: int,
    opt: BreakOptions,
    c: Seq<LineModel>,
)
    requires
        0 <= opt.start <= opt.end <= nodes.len() <= MAX_NODES,
        !range_any_negative(nodes, opt.start as int, opt.end as int),
        legal_chain(nodes, hsize, line_no, opt, c),
    ensures
        spec_solution(nodes, hsize, line_no, opt).lines.len() > 0,
        spec_solution(nodes, hsize, line_no, opt).total_badness <= chain_total(c),
    decreases opt.end - opt.start, opt.end - opt.start + 1,
{
    lemma_scan_optimal(nodes, hsize, line_no, opt, opt.start as int, INFINITE_BADNESS as int,
        infeasible_model(), c);
}

proof fn lemma_scan_feasible(
    nodes: Seq<Node>,
    hsize: Seq<u64>,
    line_no: int,
    opt: BreakOptions,
    ix: int,
    prune_best: int,
    acc: SolutionModel,
    c: Seq<LineModel>,
)
    requires
        0 <= opt.start <= ix <= opt.end <= nodes.len() <= MAX_NODES,
        bounded_or_marker(acc, opt.end - opt.start),
        prune_best == INFINITE_BADNESS as int || acc.lines.len() > 0,
        legal_chain(nodes, hsize, line_no, opt, c),
        ix <= c[0].end,
    ensures
        spec_scan(nodes, hsize, line_no, opt, ix, prune_best, acc).lines.len() > 0,
    decreases opt.end - opt.start, opt.end - ix,
{
    let d = opt.end - opt.start;
    assert(ix < opt.end);
    assert(d * line_bound() <= MAX_NODES as int * line_bound()) by (nonlinear_arith)
        requires 1 <= d <= MAX_NODES as int, line_bound() > 0;
    let target = spec_target_for(hsize, line_no);
    let cur_width = range_width(nodes, opt.start as int, ix);
    let last_line = ix >= nodes.len() - 3;
    if !nodes[ix].any_breakable {
        // The chain's first break is breakable, so it lies further on.
        lemma_scan_feasible(nodes, hsize, line_no, opt, ix + 1, prune_best, acc, c);
    } else if spec_candidate_rejected(cur_width, target, opt.unacceptable_ratio as int,
        last_line) {
        lemma_scan_feasible(nodes, hsize, line_no, opt, ix + 1, prune_best, acc, c);
    } else {
        let lbad = candidate_badness(nodes, hsize, line_no, opt, ix);
        lemma_candidate_badness_bounded(nodes, hsize, line_no, opt, ix);
        if (prune_best < lbad && range_any_negative(nodes, opt.start as int, opt.end as int))
            || opt.end - opt.start == 1 {
            // The pruning bound is below the infeasibility marker only after
            // some consideration was recorded, so the accumulator is already
            // feasible and only improves from here.
            assert(acc.lines.len() > 0);
            lemma_scan_bounds(nodes, hsize, line_no, opt, ix + 1, prune_best, acc);
        } else {
            if ix + 1 < opt.end {
                let sub_opt = with_start(opt, ix + 1);
                let sub = spec_solution(nodes, hsize, line_no + 1, sub_opt);
                lemma_solution_bounds(nodes, hsize, line_no + 1, sub_opt);
                if ix == c[0].end {
                    // The chain breaks here, so its remainder is a legal
                    // chain of the sub-problem, which is therefore feasible.
                    assert(c.len() > 1);
                    lemma_solution_feasible(nodes, hsize, line_no + 1, sub_opt, c.drop_first());
                    assert(sub.lines.len() > 0);
                    let d2 = opt.end - ix - 1;
                    assert(d2 * line_bound() + line_bound() <= d * line_bound())
                        by (nonlinear_arith)
                        requires 0 <= d2, d2 + 1 <= d, line_bound() > 0;
                    let total = clamp_add(lbad, sub.total_badness);
                    assert(total == lbad + sub.total_badness);
                    let prune2 = if total < prune_best { total } else { prune_best };
                    let acc2 = if total < acc.total_badness {
                        SolutionModel { lines: seq![candidate_line(nodes, hsize, line_no, opt,
                            ix)] + sub.lines, total_badness: total }
                    } else {
                        acc
                    };
                    assert(acc2.lines.len() > 0);
                    lemma_scan_bounds(nodes, hsize, line_no, opt, ix + 1, prune2, acc2);
                } else if sub.lines.len() == 0 {
                    lemma_scan_feasible(nodes, hsize, line_no, opt, ix + 1, prune_best, acc, c);
                } else {
                    let d2 = opt.end - ix - 1;
                    assert(d2 * line_bound() + line_bound() <= d * line_bound())
                        by (nonlinear_arith)
                        requires 0 <= d2, d2 + 1 <= d, line_bound() > 0;
                    let total = clamp_add(lbad, sub.total_badness);
                    assert(total == lbad + sub.total_badness);
                    let prune2 = if total < prune_best { total } else { prune_best };
                    let acc2 = if total < acc.total_badness {
                        SolutionModel { lines: seq![candidate_line(nodes, hsize, line_no, opt,
                            ix)] + sub.lines, total_badness: total }
                    } else {
                        acc
                    };
                    assert(acc2.lines.len() > 0);
                    lemma_scan_feasible(nodes, hsize, line_no, opt, ix + 1, prune2, acc2, c);
                }
            } else {
                // One node left: the chain must break exactly here, and
                // nothing can follow it.
                assert(ix == c[0].end);
                if c.len() > 1 {
                    let rest = c.drop_first();
                    let sub_opt = with_start(opt, c[0].end + 1);
                    assert(legal_chain(nodes, hsize, line_no + 1, sub_opt, rest));
                    assert(sub_opt.start <= rest[0].end < sub_opt.end);
                    assert(false);
                }
                let acc2 = if lbad < acc.total_badness {
                    SolutionModel { lines: seq![candidate_line(nodes, hsize, line_no, opt, ix)],
                        total_badness: lbad }
                } else {
                    acc
                };
                assert(acc2.lines.len() > 0);
                assert(spec_scan(nodes, hsize, line_no, opt, ix, prune_best, acc)
                    == spec_scan(nodes, hsize, line_no, opt, ix + 1, prune_best, acc2));
                assert(spec_scan(nodes, hsize, line_no, opt, ix + 1, prune_best, acc2) == acc2);
            }
        }
    }
}

/// Feasibility needs no hypothesis about penalties: whenever any legal chain
/// of the range exists, the solution is not the infeasibility marker — the
/// pruning rule can only skip a candidate after some consideration was
/// already recorded.  With [`lemma_solution_legal`] this closes the
/// equivalence: the marker is returned exactly for ranges with no legal
/// partition.
pub proof fn lemma_solution_feasible(
    nodes: Seq<Node>,
    hsize: Seq<u64>,
    line_no: int,
    opt: BreakOptions,
    c: Seq<LineModel>,
)
    requires
        0 <= opt.start <= opt.end <= nodes.len() <= MAX_NODES,
        legal_chain(nodes, hsize, line_no, opt, c),
    ensures
        spec_solution(nodes, hsize, line_no, opt).lines.len() > 0,
    decreases opt.end - opt.start, opt.end - opt.start + 1,
{
    lemma_scan_feasible(nodes, hsize, line_no, opt, opt.start as int, INFINITE_BADNESS as int,
        infeasible_model(), c);
}

/// The infeasibility marker comes exactly when no legal partition of the
/// range exists.
pub proof fn lemma_infeasible_iff_no_legal_chain(
    nodes: Seq<Node>,
    hsize: Seq<u64>,
    line_no: int,
    opt: BreakOptions,
)
    requires
        0 <= opt.start <= opt.end <= nodes.len() <= MAX_NODES,
    ensures
        spec_solution(nodes, hsize, line_no, opt).lines.len() > 0
            <==> exists|c: Seq<LineModel>| legal_chain(nodes, hsize, line_no, opt, c),
{
    let sol = spec_solution(nodes, hsize, line_no, opt);
    if sol.lines.len() > 0 {
        lemma_solution_legal(nodes, hsize, line_no, opt);
        assert(legal_chain(nodes, hsize, line_no, opt, sol.lines));
    }
    if exists|c: Seq<LineModel>| legal_chain(nodes, hsize, line_no, opt, c) {
        let c = choose|c: Seq<LineModel>| legal_chain(nodes, hsize, line_no, opt, c);
        lemma_solution_feasible(nodes, hsize, line_no, opt, c);
    }
}

} // verus!
