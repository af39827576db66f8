//! Laws of the search, proved against [`spec_solution`]: every feasible
//! solution is a chained partition of its range broken only at breakable
//! positions, the non-breakable nodes are conserved between input and output,
//! identical sub-problems have identical solutions, and on the final line an
//! underfull candidate is always eligible.

use vstd::prelude::*;
use vstd::multiset::Multiset;
use vstd::seq_lib::group_to_multiset_ensures;
use vstd::seq_lib::lemma_multiset_commutative;
use crate::cost::range_any_negative;
use crate::cost::range_width;
use crate::line::BreakOptions;
use crate::line::LineModel;
use crate::line::Solution;
use crate::line::SolutionModel;
use crate::node::Node;
use crate::search::candidate_badness;
use crate::search::candidate_line;
use crate::search::clamp_add;
use crate::search::infeasible_model;
use crate::search::spec_candidate_rejected;
use crate::search::spec_scan;
use crate::search::spec_solution;
use crate::search::spec_target_for;
use crate::search::with_start;

verus! {

/// `lines` tile the half-open range `[start, end)` in order: each line holds
/// the nodes from its start up to its chosen break, the break node itself
/// (always a breakable position) belongs to no line, and the next line starts
/// right after it; the last break is the final node of the range.
pub open spec fn lines_chain(nodes: Seq<Node>, lines: Seq<LineModel>, start: int, end: int) -> bool
    decreases lines.len(),
{
    if lines.len() == 0 {
        false
    } else {
        let l = lines[0];
        &&& l.start == start
        &&& start <= l.end < end
        &&& nodes[l.end].any_breakable
        &&& if lines.len() == 1 {
            l.end + 1 == end
        } else {
            lines_chain(nodes, lines.drop_first(), l.end + 1, end)
        }
    }
}

/// The predicate "this position admits no break in any rendering".
pub open spec fn nonbreakable_pred() -> spec_fn(Node) -> bool {
    |n: Node| !n.any_breakable
}

/// The multiset of non-breakable nodes among `nodes[start..end)`.
pub open spec fn range_nonbreakable(nodes: Seq<Node>, start: int, end: int) -> Multiset<Node> {
    nodes.subrange(start, end).filter(nonbreakable_pred()).to_multiset()
}

/// The multiset of non-breakable nodes across all the given lines.
pub open spec fn lines_nonbreakable(nodes: Seq<Node>, lines: Seq<LineModel>) -> Multiset<Node>
    decreases lines.len(),
{
    if lines.len() == 0 {
        Multiset::empty()
    } else {
        range_nonbreakable(nodes, lines[0].start, lines[0].end).add(
            lines_nonbreakable(nodes, lines.drop_first()))
    }
}

proof fn lemma_range_nonbreakable_empty(nodes: Seq<Node>, i: int)
    requires
        0 <= i <= nodes.len(),
    ensures
        range_nonbreakable(nodes, i, i) == Multiset::<Node>::empty(),
{
    broadcast use group_to_multiset_ensures;

    reveal(Seq::filter);
    assert(nodes.subrange(i, i) =~= Seq::<Node>::empty());
    let filtered = nodes.subrange(i, i).filter(nonbreakable_pred());
    assert(filtered =~= Seq::<Node>::empty());
    assert(filtered.to_multiset() =~= Multiset::<Node>::empty());
}

/// Splitting a range at a breakable position drops nothing non-breakable:
/// the break node is breakable, so the two sides together carry the same
/// non-breakable nodes as the whole.
proof fn lemma_range_split_at_break(nodes: Seq<Node>, start: int, bk: int, end: int)
    requires
        0 <= start <= bk < end <= nodes.len(),
        nodes[bk].any_breakable,
    ensures
        range_nonbreakable(nodes, start, end) == range_nonbreakable(nodes, start, bk).add(
            range_nonbreakable(nodes, bk + 1, end)),
{
    broadcast use group_to_multiset_ensures;

    let pred = nonbreakable_pred();
    let whole = nodes.subrange(start, end);
    let left = nodes.subrange(start, bk);
    let mid = nodes.subrange(bk, bk + 1);
    let right = nodes.subrange(bk + 1, end);
    assert(whole =~= (left + mid) + right);
    Seq::filter_distributes_over_add(left + mid, right, pred);
    Seq::filter_distributes_over_add(left, mid, pred);
    assert(mid =~= Seq::<Node>::empty().push(nodes[bk]));
    reveal_with_fuel(Seq::filter, 2);
    assert(mid.last() == nodes[bk] && !pred(nodes[bk]));
    assert(mid.drop_last() =~= Seq::<Node>::empty());
    assert(mid.filter(pred) =~= Seq::<Node>::empty());
    assert(whole.filter(pred) =~= left.filter(pred) + right.filter(pred));
    lemma_multiset_commutative(left.filter(pred), right.filter(pred));
}

/// Along a chain of lines, the non-breakable nodes of the covered range are
/// exactly those gathered into the lines.
proof fn lemma_chain_conservation(nodes: Seq<Node>, lines: Seq<LineModel>, start: int, end: int)
    requires
        0 <= start,
        end <= nodes.len(),
        lines_chain(nodes, lines, start, end),
    ensures
        lines_nonbreakable(nodes, lines) == range_nonbreakable(nodes, start, end),
    decreases lines.len(),
{
    let l = lines[0];
    lemma_range_split_at_break(nodes, start, l.end, end);
    if lines.len() == 1 {
        lemma_range_nonbreakable_empty(nodes, end);
        assert(lines_nonbreakable(nodes, lines.drop_first()) == Multiset::<Node>::empty());
        assert(range_nonbreakable(nodes, start, end)
            =~= range_nonbreakable(nodes, start, l.end).add(Multiset::<Node>::empty()));
    } else {
        lemma_chain_conservation(nodes, lines.drop_first(), l.end + 1, end);
    }
}

/// Whatever the scan returns is either the accumulated first-found minimum or
/// a chained partition of the full range; so a feasible result always chains.
proof fn lemma_scan_chain(
    nodes: Seq<Node>,
    hsize: Seq<u64>,
    line_no: int,
    opt: BreakOptions,
    ix: int,
    prune_best: int,
    acc: SolutionModel,
)
    requires
        0 <= opt.start <= ix <= opt.end <= nodes.len(),
        acc.lines.len() > 0 ==> lines_chain(nodes, acc.lines, opt.start as int, opt.end as int),
    ensures
        ({
            let r = spec_scan(nodes, hsize, line_no, opt, ix, prune_best, acc);
            r.lines.len() > 0 ==> lines_chain(nodes, r.lines, opt.start as int, opt.end as int)
        }),
    decreases opt.end - opt.start, opt.end - ix,
{
    if ix == opt.end {
    } else if !nodes[ix].any_breakable {
        lemma_scan_chain(nodes, hsize, line_no, opt, ix + 1, prune_best, acc);
    } else {
        let target = spec_target_for(hsize, line_no);
        let cur_width = range_width(nodes, opt.start as int, ix);
        let last_line = ix >= nodes.len() - 3;
        if spec_candidate_rejected(cur_width, target, opt.unacceptable_ratio as int, last_line) {
            lemma_scan_chain(nodes, hsize, line_no, opt, ix + 1, prune_best, acc);
        } else {
            let lbad = candidate_badness(nodes, hsize, line_no, opt, ix);
            if (prune_best < lbad && range_any_negative(nodes, opt.start as int, opt.end as int))
                || opt.end - opt.start == 1 {
                lemma_scan_chain(nodes, hsize, line_no, opt, ix + 1, prune_best, acc);
            } else {
                let line = candidate_line(nodes, hsize, line_no, opt, ix);
                if ix + 1 < opt.end {
                    let sub = spec_solution(nodes, hsize, line_no + 1, with_start(opt, ix + 1));
                    lemma_solution_chain(nodes, hsize, line_no + 1, with_start(opt, ix + 1));
                    if sub.lines.len() == 0 {
                        lemma_scan_chain(nodes, hsize, line_no, opt, ix + 1, prune_best, acc);
                    } else {
                        let total = clamp_add(lbad, sub.total_badness);
                        let prune2 = if total < prune_best { total } else { prune_best };
                        let acc2 = if total < acc.total_badness {
                            SolutionModel { lines: seq![line] + sub.lines, total_badness: total }
                        } else {
                            acc
                        };
                        if total < acc.total_badness {
                            assert((seq![line] + sub.lines).drop_first() =~= sub.lines);
                            assert(lines_chain(nodes, seq![line] + sub.lines, opt.start as int,
                                opt.end as int));
                        }
                        lemma_scan_chain(nodes, hsize, line_no, opt, ix + 1, prune2, acc2);
                    }
                } else {
                    let acc2 = if lbad < acc.total_badness {
                        SolutionModel { lines: seq![line], total_badness: lbad }
                    } else {
                        acc
                    };
                    if lbad < acc.total_badness {
                        assert(lines_chain(nodes, seq![line], opt.start as int, opt.end as int));
                    }
                    lemma_scan_chain(nodes, hsize, line_no, opt, ix + 1, prune_best, acc2);
                }
            }
        }
    }
}

/// A feasible solution of a sub-problem is a chained partition of the
/// sub-problem's whole range: lines in order, broken only at breakable
/// positions, nothing left over.  A returned solution is never partial.
pub proof fn lemma_solution_chain(nodes: Seq<Node>, hsize: Seq<u64>, line_no: int, opt: BreakOptions)
    requires
        0 <= opt.start <= opt.end <= nodes.len(),
    ensures
        ({
            let sol = spec_solution(nodes, hsize, line_no, opt);
            sol.lines.len() > 0 ==> lines_chain(nodes, sol.lines, opt.start as int,
                opt.end as int)
        }),
    decreases opt.end - opt.start, opt.end - opt.start + 1,
{
    lemma_scan_chain(nodes, hsize, line_no, opt, opt.start as int, i64::MAX as int,
        infeasible_model());
}

/// Node conservation: for any feasible solution, the multiset of
/// non-breakable nodes in the searched range equals the multiset of
/// non-breakable nodes across all the lines of the solution.
pub proof fn lemma_node_conservation(
    nodes: Seq<Node>,
    hsize: Seq<u64>,
    line_no: int,
    opt: BreakOptions,
)
    requires
        0 <= opt.start <= opt.end <= nodes.len(),
    ensures
        ({
            let sol = spec_solution(nodes, hsize, line_no, opt);
            sol.lines.len() > 0 ==> lines_nonbreakable(nodes, sol.lines)
                == range_nonbreakable(nodes, opt.start as int, opt.end as int)
        }),
{
    let sol = spec_solution(nodes, hsize, line_no, opt);
    lemma_solution_chain(nodes, hsize, line_no, opt);
    if sol.lines.len() > 0 {
        lemma_chain_conservation(nodes, sol.lines, opt.start as int, opt.end as int);
    }
}

/// Idempotence: two searches over an unmodified handle with identical
/// options return identical solutions, whether either was served from the
/// memoization cache or computed afresh.
pub proof fn lemma_search_idempotent(
    first: Solution,
    second: Solution,
    nodes: Seq<Node>,
    hsize: Seq<u64>,
    line_no: int,
    opt: BreakOptions,
)
    requires
        first.model() == spec_solution(nodes, hsize, line_no, opt),
        second.model() == spec_solution(nodes, hsize, line_no, opt),
    ensures
        first.model() == second.model(),
{
}

/// The badness of any candidate line is affine in the flat line penalty:
/// changing the penalty moves every candidate's score by exactly the
/// difference, and nothing else in the score.
pub proof fn lemma_candidate_badness_affine(
    nodes: Seq<Node>,
    hsize: Seq<u64>,
    line_no: int,
    opt: BreakOptions,
    lp2: i32,
    ix: int,
)
    ensures
        candidate_badness(nodes, hsize, line_no,
            (BreakOptions { line_penalty: lp2, ..opt }), ix)
            == candidate_badness(nodes, hsize, line_no, opt, ix) - opt.line_penalty + lp2,
{
}

/// On the final line an underfull candidate is never rejected: with the
/// tolerance at most 1000 per mille, any accumulated width up to the target
/// passes the eligibility test, however large the shortfall.
pub proof fn lemma_final_line_always_eligible(cur_width: int, target: int, ur: int)
    requires
        0 <= cur_width <= target,
        0 <= ur <= 1000,
    ensures
        !spec_candidate_rejected(cur_width, target, ur, true),
{
    assert(1000 * cur_width <= (2000 - ur) * target) by (nonlinear_arith)
        requires
            0 <= cur_width <= target,
            0 <= ur <= 1000,
    ;
}

} // verus!
