//! The layout atom: geometry, elasticity, penalties and alternate renderings.

use vstd::prelude::*;

verus! {

/// Largest node count a sequence may hold (the terminal sentinel included).
/// Together with `MAX_DIMEN` it keeps every running sum of widths within
/// `1024 * 1048576 = 2^30`, so the cost arithmetic below never overflows.
pub const MAX_NODES: usize = 1024;

/// Largest width, stretch or shrink a single node (or a target width) may
/// carry, in integer layout units.
pub const MAX_DIMEN: u64 = 1048576;

/// One indivisible layout atom.
///
/// `original_index`, `any_breakable` and `any_negative_penalties` are
/// assigned by preparation (see [`Node::prepare`]); `any_breakable` is the
/// single authoritative flag meaning "this logical position admits a break",
/// aggregated over the node itself and its alternates.  `text` is an opaque
/// handle owned by the host: the algorithm never interprets it.
pub struct Node {
    pub penalty: i32,
    pub width: u64,
    pub substitution_penalty: i32,
    pub stretch: u64,
    pub shrink: u64,
    pub breakable: bool,
    pub stretch_contribution: Vec<u64>,
    pub shrink_contribution: Vec<u64>,
    pub text: usize,
    pub debug_text: String,
    pub original_index: usize,
    pub alternates: Vec<Node>,
    pub any_breakable: bool,
    pub any_negative_penalties: bool,
}

/// The node's own geometry is within the machine bounds.
pub open spec fn node_dims_ok(n: Node) -> bool {
    n.width <= MAX_DIMEN && n.stretch <= MAX_DIMEN && n.shrink <= MAX_DIMEN
}

/// Some alternate rendering of this position carries a negative penalty.
pub open spec fn alt_has_negative(n: Node) -> bool {
    exists|i: int| 0 <= i < n.alternates@.len() && (#[trigger] n.alternates@[i]).penalty < 0
}

/// Some alternate rendering of this position is breakable.
pub open spec fn alt_has_breakable(n: Node) -> bool {
    exists|i: int| 0 <= i < n.alternates@.len() && (#[trigger] n.alternates@[i]).breakable
}

/// A node acceptable to `nb_add_node`: bounded geometry, and alternates that
/// are themselves bounded and carry no further alternates (an alternate is
/// another rendering of the same logical position, not a nested tree).
pub open spec fn node_wf(n: Node) -> bool {
    &&& node_dims_ok(n)
    &&& forall|i: int| 0 <= i < n.alternates@.len() ==> {
        &&& node_dims_ok(#[trigger] n.alternates@[i])
        &&& n.alternates@[i].alternates@.len() == 0
    }
}

/// How one prepared node relates to its unprepared original: positional
/// identity assigned, aggregate flags computed over the original and its
/// alternates, empty elasticity-weight lists defaulted to one unit weight,
/// and everything else unchanged.
pub open spec fn prepare_rel(o: Node, n: Node, ix: usize) -> bool {
    &&& n.original_index == ix
    &&& n.any_negative_penalties == (o.penalty < 0 || alt_has_negative(o))
    &&& n.any_breakable == (o.breakable || alt_has_breakable(o))
    &&& n.stretch_contribution@ == (if o.stretch_contribution@.len() == 0 {
        seq![1u64]
    } else {
        o.stretch_contribution@
    })
    &&& n.shrink_contribution@ == (if o.shrink_contribution@.len() == 0 {
        seq![1u64]
    } else {
        o.shrink_contribution@
    })
    &&& n.penalty == o.penalty
    &&& n.width == o.width
    &&& n.substitution_penalty == o.substitution_penalty
    &&& n.stretch == o.stretch
    &&& n.shrink == o.shrink
    &&& n.breakable == o.breakable
    &&& n.text == o.text
    &&& n.debug_text == o.debug_text
    &&& n.alternates == o.alternates
}

/// How a node prepared together with its alternates relates to its
/// unprepared original: the node itself as [`prepare_rel`] says, and every
/// alternate prepared in turn under the same positional index.
pub open spec fn fully_prepared_from(o: Node, n: Node, ix: usize) -> bool {
    &&& n.original_index == ix
    &&& n.any_negative_penalties == (o.penalty < 0 || alt_has_negative(o))
    &&& n.any_breakable == (o.breakable || alt_has_breakable(o))
    &&& n.stretch_contribution@ == (if o.stretch_contribution@.len() == 0 {
        seq![1u64]
    } else {
        o.stretch_contribution@
    })
    &&& n.shrink_contribution@ == (if o.shrink_contribution@.len() == 0 {
        seq![1u64]
    } else {
        o.shrink_contribution@
    })
    &&& n.penalty == o.penalty
    &&& n.width == o.width
    &&& n.substitution_penalty == o.substitution_penalty
    &&& n.stretch == o.stretch
    &&& n.shrink == o.shrink
    &&& n.breakable == o.breakable
    &&& n.text == o.text
    &&& n.debug_text == o.debug_text
    &&& n.alternates@.len() == o.alternates@.len()
    &&& forall|j: int| 0 <= j < o.alternates@.len() ==>
        prepare_rel(o.alternates@[j], #[trigger] n.alternates@[j], ix)
}

impl Node {
    /// The terminal sentinel: a zero-width, breakable atom appended by
    /// finalization to mark the end of the sequence.
    pub fn dummy() -> (n: Node)
        ensures
            n.width == 0,
            n.breakable,
            n.penalty == 0,
            n.alternates@.len() == 0,
            n.any_breakable,
            !n.any_negative_penalties,
            n.stretch == 0,
            n.shrink == 0,
            n.stretch_contribution@.len() == 0,
            n.shrink_contribution@.len() == 0,
            n.original_index == 0,
            n.substitution_penalty == 0,
            n.text == 0,
            n.debug_text@ == Seq::<char>::empty(),
            node_wf(n),
    {
        Node {
            width: 0,
            breakable: true,
            penalty: 0,
            alternates: Vec::new(),
            any_breakable: true,
            any_negative_penalties: false,
            stretch: 0,
            shrink: 0,
            stretch_contribution: Vec::new(),
            shrink_contribution: Vec::new(),
            original_index: 0,
            substitution_penalty: 0,
            debug_text: String::new(),
            text: 0,
        }
    }

    /// One-time normalization of this node: assigns its positional identity,
    /// computes the aggregate flags over the node and its alternates, and
    /// defaults empty elasticity-weight lists to a single unit weight.
    /// The alternates themselves are left untouched.
    pub fn prepare(&mut self, ix: usize)
        ensures
            prepare_rel(*old(self), *final(self), ix),
    {
        self.original_index = ix;
        let mut any_neg = self.penalty < 0;
        let mut any_brk = self.breakable;
        let alt_count = self.alternates.len();
        let mut j: usize = 0;
        while j < alt_count
            invariant
                alt_count == self.alternates@.len(),
                j <= alt_count,
                any_neg == (self.penalty < 0 || exists|i: int|
                    0 <= i < j && (#[trigger] self.alternates@[i]).penalty < 0),
                any_brk == (self.breakable || exists|i: int|
                    0 <= i < j && (#[trigger] self.alternates@[i]).breakable),
                *self == (Node { original_index: ix, ..*old(self) }),
            decreases alt_count - j,
        {
            if self.alternates[j].penalty < 0 {
                any_neg = true;
            }
            if self.alternates[j].breakable {
                any_brk = true;
            }
            j += 1;
        }
        self.any_negative_penalties = any_neg;
        self.any_breakable = any_brk;
        if self.stretch_contribution.len() == 0 {
            self.stretch_contribution.push(1);
        }
        if self.shrink_contribution.len() == 0 {
            self.shrink_contribution.push(1);
        }
        proof {
            if old(self).stretch_contribution@.len() == 0 {
                assert(self.stretch_contribution@ =~= seq![1u64]);
            }
            if old(self).shrink_contribution@.len() == 0 {
                assert(self.shrink_contribution@ =~= seq![1u64]);
            }
        }
    }
}

} // verus!
