//! The badness/cost model: a pure score for one candidate line.
//!
//! A candidate line with shortfall `s` (target width minus content width),
//! total stretch `e+` and total shrink `e-` costs
//! `floor(100 * (s / (e+ + 0.001))^3)` when underfull and
//! `floor(100 * (-s / (e- + 0.001))^3)` when overfull, zero when exact.
//! With integer layout units that is exactly
//! `floor(100 * (1000*s)^3 / (1000*e + 1)^3)`, which is how it is stated
//! here; the term is capped at `i32::MAX`, mirroring a saturating cast.
//! The penalty of the line's last node, the flat per-line penalty and the
//! substitution penalties of every included node are then added.

use vstd::prelude::*;
use vstd::arithmetic::div_mod::lemma_basic_div;
use crate::node::Node;
use crate::node::MAX_DIMEN;

verus! {

/// Largest running total of widths, stretches or shrinks:
/// `MAX_NODES * MAX_DIMEN`.
pub const MAX_TOTAL: u64 = 0x40000000;

pub open spec fn cube(x: int) -> int {
    x * x * x
}

/// The shortfall term saturates here, as a float-to-integer cast would.
pub open spec fn cap_term(x: int) -> int {
    if x > i32::MAX as int {
        i32::MAX as int
    } else {
        x
    }
}

/// The fill-deviation part of a line's badness: the epsilon-guarded cube of
/// the ratio of shortfall to available elasticity, floored and capped.
pub open spec fn shortfall_term(shortfall: int, total_stretch: int, total_shrink: int) -> int {
    if shortfall == 0 {
        0
    } else if shortfall > 0 {
        cap_term(100 * cube(1000 * shortfall) / cube(1000 * total_stretch + 1))
    } else {
        cap_term(100 * cube(-1000 * shortfall) / cube(1000 * total_shrink + 1))
    }
}

/// Sum of the widths of `nodes[i..j)`.
pub open spec fn range_width(nodes: Seq<Node>, i: int, j: int) -> int
    decreases j - i,
{
    if j <= i {
        0
    } else {
        range_width(nodes, i, j - 1) + nodes[j - 1].width
    }
}

/// Sum of the stretches of `nodes[i..j)`.
pub open spec fn range_stretch(nodes: Seq<Node>, i: int, j: int) -> int
    decreases j - i,
{
    if j <= i {
        0
    } else {
        range_stretch(nodes, i, j - 1) + nodes[j - 1].stretch
    }
}

/// Sum of the shrinks of `nodes[i..j)`.
pub open spec fn range_shrink(nodes: Seq<Node>, i: int, j: int) -> int
    decreases j - i,
{
    if j <= i {
        0
    } else {
        range_shrink(nodes, i, j - 1) + nodes[j - 1].shrink
    }
}

/// Sum of the substitution penalties of `nodes[i..j)`.
pub open spec fn range_subst(nodes: Seq<Node>, i: int, j: int) -> int
    decreases j - i,
{
    if j <= i {
        0
    } else {
        range_subst(nodes, i, j - 1) + nodes[j - 1].substitution_penalty
    }
}

/// Some node of `nodes[i..j)` has a negative penalty in some rendering.
pub open spec fn range_any_negative(nodes: Seq<Node>, i: int, j: int) -> bool {
    exists|k: int| i <= k <= j - 1 && (#[trigger] nodes[k]).any_negative_penalties
}

/// The full badness of the line `nodes[lstart..lend)`: fill-deviation term,
/// penalty of the line's last node (the break's inherent cost), the flat
/// per-line penalty, and the substitution penalties of the included nodes.
pub open spec fn spec_line_badness(
    nodes: Seq<Node>,
    lstart: int,
    lend: int,
    shortfall: int,
    total_stretch: int,
    total_shrink: int,
    line_penalty: int,
) -> int {
    shortfall_term(shortfall, total_stretch, total_shrink) + (if lend > lstart {
        nodes[lend - 1].penalty as int
    } else {
        0
    }) + line_penalty + range_subst(nodes, lstart, lend)
}

/// Each running total over a range of bounded nodes is bounded by the range
/// length times the per-node bound.
pub proof fn lemma_range_sums_bounded(nodes: Seq<Node>, i: int, j: int)
    requires
        0 <= i <= j <= nodes.len(),
        forall|k: int| 0 <= k < nodes.len() ==> {
            &&& (#[trigger] nodes[k]).width <= MAX_DIMEN
            &&& nodes[k].stretch <= MAX_DIMEN
            &&& nodes[k].shrink <= MAX_DIMEN
        },
    ensures
        0 <= range_width(nodes, i, j) <= (j - i) * MAX_DIMEN,
        0 <= range_stretch(nodes, i, j) <= (j - i) * MAX_DIMEN,
        0 <= range_shrink(nodes, i, j) <= (j - i) * MAX_DIMEN,
    decreases j - i,
{
    if j > i {
        lemma_range_sums_bounded(nodes, i, j - 1);
        assert((j - i) * MAX_DIMEN == (j - 1 - i) * MAX_DIMEN + MAX_DIMEN) by (nonlinear_arith);
    }
}

/// The substitution-penalty total over a range is bounded by the range length
/// times the extreme single-node penalties.
pub proof fn lemma_range_subst_bounded(nodes: Seq<Node>, i: int, j: int)
    requires
        0 <= i <= j <= nodes.len(),
    ensures
        (j - i) * (i32::MIN as int) <= range_subst(nodes, i, j) <= (j - i) * (i32::MAX as int),
    decreases j - i,
{
    if j > i {
        lemma_range_subst_bounded(nodes, i, j - 1);
        assert((j - i) * (i32::MAX as int) == (j - 1 - i) * (i32::MAX as int) + i32::MAX as int)
            by (nonlinear_arith);
        assert((j - i) * (i32::MIN as int) == (j - 1 - i) * (i32::MIN as int) + i32::MIN as int)
            by (nonlinear_arith);
    }
}

/// The shortfall term alone is never negative: it is the floored cube of a
/// non-negative ratio.  (A whole line's badness may still go negative through
/// strongly negative break or substitution penalties.)
pub proof fn lemma_shortfall_term_nonnegative(
    shortfall: int,
    total_stretch: int,
    total_shrink: int,
)
    requires
        total_stretch >= 0,
        total_shrink >= 0,
    ensures
        shortfall_term(shortfall, total_stretch, total_shrink) >= 0,
        shortfall_term(shortfall, total_stretch, total_shrink) <= i32::MAX as int,
{
    if shortfall > 0 {
        let a = 1000 * shortfall;
        let b = 1000 * total_stretch + 1;
        assert(100 * cube(a) >= 0 && cube(b) >= 1) by (nonlinear_arith)
            requires a >= 1000 && b >= 1;
        assert(100 * cube(a) / cube(b) >= 0) by {
            vstd::arithmetic::div_mod::lemma_div_pos_is_pos(100 * cube(a), cube(b));
        }
    } else if shortfall < 0 {
        let a = -1000 * shortfall;
        let b = 1000 * total_shrink + 1;
        assert(100 * cube(a) >= 0 && cube(b) >= 1) by (nonlinear_arith)
            requires a >= 1000 && b >= 1;
        assert(100 * cube(a) / cube(b) >= 0) by {
            vstd::arithmetic::div_mod::lemma_div_pos_is_pos(100 * cube(a), cube(b));
        }
    }
}

/// With enough stretch the shortfall term vanishes entirely: whenever the
/// total stretch is at least five times a positive shortfall, the floored
/// cube is zero, however large the shortfall itself is.
pub proof fn lemma_large_stretch_vanishing_term(
    shortfall: int,
    total_stretch: int,
    total_shrink: int,
)
    requires
        shortfall >= 0,
        total_stretch >= 5 * shortfall,
    ensures
        shortfall_term(shortfall, total_stretch, total_shrink) == 0,
{
    if shortfall > 0 {
        let a = 1000 * shortfall;
        let b = 1000 * total_stretch + 1;
        assert(100 * cube(a) < cube(b) && 100 * cube(a) >= 0) by (nonlinear_arith)
            requires a >= 1000 && b >= 5 * a;
        lemma_basic_div(100 * cube(a), cube(b));
    }
}

/// Computes the fill-deviation term of the badness formula exactly, in 128-bit
/// intermediate arithmetic.
pub fn shortfall_term_exec(shortfall: i64, total_stretch: u64, total_shrink: u64) -> (t: i64)
    requires
        -(MAX_TOTAL as i64) <= shortfall <= MAX_TOTAL as i64,
        total_stretch <= MAX_TOTAL,
        total_shrink <= MAX_TOTAL,
    ensures
        t as int == shortfall_term(shortfall as int, total_stretch as int, total_shrink as int),
        0 <= t <= i32::MAX as i64,
{
    proof {
        lemma_shortfall_term_nonnegative(shortfall as int, total_stretch as int,
            total_shrink as int);
    }
    if shortfall == 0 {
        0
    } else {
        let (mag, elasticity): (u64, u64) = if shortfall > 0 {
            (shortfall as u64, total_stretch)
        } else {
            ((-shortfall) as u64, total_shrink)
        };
        let a: u128 = (mag as u128) * 1000;
        let b: u128 = (elasticity as u128) * 1000 + 1;
        proof {
            assert(a <= 0x10000000000 && b <= 0x10000000001);
            assert(a * a <= 0x10000000000 * 0x10000000000) by (nonlinear_arith)
                requires 0 <= a <= 0x10000000000;
            assert(a * a * a <= 0x10000000000 * 0x10000000000 * 0x10000000000)
                by (nonlinear_arith)
                requires 0 <= a <= 0x10000000000 && a * a <= 0x10000000000 * 0x10000000000;
            assert(b * b <= 0x10000000001 * 0x10000000001) by (nonlinear_arith)
                requires 0 <= b <= 0x10000000001;
            assert(b * b * b <= 0x10000000001 * 0x10000000001 * 0x10000000001)
                by (nonlinear_arith)
                requires 0 <= b <= 0x10000000001 && b * b <= 0x10000000001 * 0x10000000001;
        }
        let numerator: u128 = 100 * (a * a * a);
        let denominator: u128 = b * b * b;
        proof {
            assert(b * b * b >= 1) by (nonlinear_arith)
                requires b >= 1;
        }
        let q: u128 = numerator / denominator;
        proof {
            if shortfall > 0 {
                assert(a as int == 1000 * (shortfall as int));
                assert(numerator as int == 100 * cube(a as int));
                assert(denominator as int == cube(b as int));
            } else {
                assert(a as int == -1000 * (shortfall as int));
                assert(numerator as int == 100 * cube(a as int));
                assert(denominator as int == cube(b as int));
            }
        }
        if q > i32::MAX as u128 {
            i32::MAX as i64
        } else {
            q as i64
        }
    }
}

} // verus!
