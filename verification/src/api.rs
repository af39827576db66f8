//! The in-process library boundary: constructing a handle, adding nodes,
//! finalizing, and invoking the breakpoint search with defaulted arguments.

use vstd::prelude::*;
use crate::line::BreakOptions;
use crate::line::Solution;
use crate::node::Node;
use crate::node::MAX_DIMEN;
use crate::node::MAX_NODES;
use crate::node::fully_prepared_from;
use crate::node::node_wf;
use crate::node::prepare_rel;
use crate::search::Linebreaker;
use crate::search::spec_solution;

verus! {

/// The options `compute_breaks` passes to the search: `end == 0` stands for
/// "through the sentinel", a zero tolerance defaults to 500 per mille, a zero
/// line penalty defaults to 10.
pub open spec fn effective_options(
    full_justify: bool,
    start: usize,
    end: usize,
    unacceptable_ratio: u32,
    line_penalty: i32,
    node_count: int,
) -> BreakOptions {
    BreakOptions {
        full_justify,
        start,
        end: if end == 0 {
            node_count as usize
        } else {
            end
        },
        unacceptable_ratio: if unacceptable_ratio == 0 {
            500
        } else {
            unacceptable_ratio
        },
        line_penalty: if line_penalty == 0 {
            10
        } else {
            line_penalty
        },
    }
}

/// A fresh handle: an empty node sequence, a target-width table seeded with
/// one entry, an empty cache, diagnostics off.
pub fn nb_new(first_line: u64) -> (lb: Linebreaker)
    requires
        1 <= first_line <= MAX_DIMEN,
    ensures
        lb.building(),
        lb.nodes@.len() == 0,
        lb.hsize@ == seq![first_line],
        !lb.finalized,
        !lb.debugging,
{
    let mut hsize: Vec<u64> = Vec::new();
    hsize.push(first_line);
    proof {
        assert(hsize@ =~= seq![first_line]);
    }
    Linebreaker {
        nodes: Vec::new(),
        hsize,
        memoize_cache: Vec::new(),
        debugging: false,
        finalized: false,
    }
}

/// Appends a node; only valid before finalization, and only while room for
/// the terminal sentinel remains.
pub fn nb_add_node(lb: &mut Linebreaker, node: Node)
    requires
        old(lb).building(),
        node_wf(node),
        old(lb).nodes@.len() + 2 <= MAX_NODES,
    ensures
        final(lb).building(),
        final(lb).nodes@ == old(lb).nodes@.push(node),
        final(lb).hsize == old(lb).hsize,
        final(lb).finalized == old(lb).finalized,
        final(lb).debugging == old(lb).debugging,
{
    lb.nodes.push(node);
}

/// Appends the terminal zero-width breakable sentinel, then runs preparation
/// exactly once over the full sequence.  No further additions are permitted
/// afterward; the handle is ready for `compute_breaks`.
pub fn nb_finalize(lb: &mut Linebreaker)
    requires
        old(lb).building(),
    ensures
        final(lb).prepared(),
        final(lb).cache_ok(),
        final(lb).hsize == old(lb).hsize,
        final(lb).nodes@.len() == old(lb).nodes@.len() + 1,
        forall|i: int| 0 <= i < old(lb).nodes@.len() ==>
            fully_prepared_from(old(lb).nodes@[i], #[trigger] final(lb).nodes@[i], i as usize),
        ({
            let sentinel = final(lb).nodes@.last();
            &&& sentinel.width == 0
            &&& sentinel.stretch == 0
            &&& sentinel.shrink == 0
            &&& sentinel.penalty == 0
            &&& sentinel.substitution_penalty == 0
            &&& sentinel.breakable
            &&& sentinel.any_breakable
            &&& !sentinel.any_negative_penalties
            &&& sentinel.alternates@.len() == 0
            &&& sentinel.stretch_contribution@ == seq![1u64]
            &&& sentinel.shrink_contribution@ == seq![1u64]
            &&& sentinel.original_index == old(lb).nodes@.len()
            &&& sentinel.text == 0
            &&& sentinel.debug_text@ == Seq::<char>::empty()
        }),
        final(lb).memoize_cache@.len() == 0,
{
    let sentinel = Node::dummy();
    lb.nodes.push(sentinel);
    lb.prepare_nodes();
    lb.finalized = true;
}

impl Linebreaker {
    /// Runs preparation over every node and every alternate: positional
    /// identity, aggregate flags, defaulted elasticity weights.
    pub fn prepare_nodes(&mut self)
        ensures
            final(self).nodes@.len() == old(self).nodes@.len(),
            forall|i: int| 0 <= i < old(self).nodes@.len() ==>
                fully_prepared_from(old(self).nodes@[i], #[trigger] final(self).nodes@[i],
                    i as usize),
            final(self).hsize == old(self).hsize,
            final(self).memoize_cache == old(self).memoize_cache,
            final(self).finalized == old(self).finalized,
            final(self).debugging == old(self).debugging,
    {
        let count = self.nodes.len();
        let mut i: usize = 0;
        while i < count
            invariant
                count == self.nodes@.len(),
                count == old(self).nodes@.len(),
                i <= count,
                forall|k: int| 0 <= k < i ==>
                    fully_prepared_from(old(self).nodes@[k], #[trigger] self.nodes@[k],
                        k as usize),
                forall|k: int| i <= k < count ==> self.nodes@[k] == old(self).nodes@[k],
                self.hsize == old(self).hsize,
                self.memoize_cache == old(self).memoize_cache,
                self.finalized == old(self).finalized,
                self.debugging == old(self).debugging,
            decreases count - i,
        {
            let ghost nodes_before = self.nodes@;
            let mut node = self.nodes.remove(i);
            node.prepare(i);
            let ghost node_mid = node;
            let acount = node.alternates.len();
            let mut j: usize = 0;
            while j < acount
                invariant
                    acount == node.alternates@.len(),
                    acount == node_mid.alternates@.len(),
                    j <= acount,
                    node == (Node { alternates: node.alternates, ..node_mid }),
                    forall|k: int| 0 <= k < j ==>
                        prepare_rel(node_mid.alternates@[k], #[trigger] node.alternates@[k], i),
                    forall|k: int| j <= k < acount ==>
                        node.alternates@[k] == node_mid.alternates@[k],
                decreases acount - j,
            {
                let mut a = node.alternates.remove(j);
                a.prepare(i);
                node.alternates.insert(j, a);
                j += 1;
            }
            proof {
                assert(fully_prepared_from(old(self).nodes@[i as int], node, i));
            }
            self.nodes.insert(i, node);
            proof {
                assert(self.nodes@ =~= nodes_before.update(i as int, node));
            }
            i += 1;
        }
    }

    /// The least-badness partition of the requested range, answered from the
    /// cache when this exact sub-problem was solved before.  `end == 0` means
    /// "through the sentinel"; a zero tolerance defaults to 500 per mille and
    /// a zero line penalty to 10.  Infeasibility is signalled by a solution
    /// with no lines and maximal badness, never by a partial solution.
    pub fn compute_breaks(
        &mut self,
        full_justify: bool,
        start: usize,
        end: usize,
        unacceptable_ratio: u32,
        line_penalty: i32,
    ) -> (sol: Solution)
        requires
            old(self).prepared(),
            old(self).cache_ok(),
            end <= old(self).nodes@.len(),
            start as int <= (if end == 0 {
                old(self).nodes@.len() as int
            } else {
                end as int
            }),
        ensures
            final(self).nodes == old(self).nodes,
            final(self).hsize == old(self).hsize,
            final(self).finalized == old(self).finalized,
            final(self).prepared(),
            final(self).cache_ok(),
            crate::search::has_cache_entry(final(self).memoize_cache@, 0,
                effective_options(full_justify, start, end, unacceptable_ratio, line_penalty,
                    old(self).nodes@.len() as int)),
            sol.model() == spec_solution(old(self).nodes@, old(self).hsize@, 0,
                effective_options(full_justify, start, end, unacceptable_ratio, line_penalty,
                    old(self).nodes@.len() as int)),
    {
        let eff_end = if end == 0 {
            self.nodes.len()
        } else {
            end
        };
        let eff_ur = if unacceptable_ratio == 0 {
            500
        } else {
            unacceptable_ratio
        };
        let eff_lp = if line_penalty == 0 {
            10
        } else {
            line_penalty
        };
        let options = BreakOptions {
            full_justify,
            start,
            end: eff_end,
            unacceptable_ratio: eff_ur,
            line_penalty: eff_lp,
        };
        self.find_breakpoints(0, options)
    }
}

} // verus!
