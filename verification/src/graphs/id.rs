//! Sequential node identity inside one graph.

use vstd::prelude::*;

verus! {

/// Identity of one node of a graph: the node number, the pass number for
/// chained operators on the same node, and the repeat number for loop
/// repetitions.  Ordered lexicographically.  The sentinel `(0, 0, 0)` is the
/// input node; the first user node is `(1, 0, 0)`.
#[derive(Copy, Clone, Debug, PartialEq, Eq, Structural, Hash, PartialOrd, Ord)]
pub struct GraphId {
    pub node: u64,
    pub pass: u64,
    pub repeat: u64,
}

/// A reference to a specific output of an upstream node: the node's id and,
/// optionally, the argument slot of that node's output.
#[derive(Copy, Clone, Debug, PartialEq, Eq, Hash, PartialOrd, Ord)]
pub struct GraphIdArg {
    pub id: GraphId,
    pub arg: Option<u64>,
}

impl GraphIdArg {
    /// The default edge to a node: its whole output, no argument selection.
    pub fn with_id(id: GraphId) -> (r: Self)
        ensures
            r.id == id,
            r.arg is None,
    {
        Self { id, arg: None }
    }
}

impl GraphId {
    pub open spec fn spec_input() -> Self {
        GraphId { node: 0, pass: 0, repeat: 0 }
    }

    pub open spec fn spec_first() -> Self {
        GraphId { node: 1, pass: 0, repeat: 0 }
    }

    /// Whether `self` may directly follow `last` in a graph: one more repeat
    /// of the same pass, the next pass of the same node, or the next node.
    pub open spec fn spec_validate(self, last: Self) -> bool {
        ||| (self.node == last.node && self.pass == last.pass && self.repeat == last.repeat + 1)
        ||| (self.node == last.node && self.pass == last.pass + 1 && self.repeat == 0)
        ||| (self.node == last.node + 1 && self.pass == 0 && self.repeat == 0)
    }

    /// The id of the implicit input node.
    pub fn new_input() -> (r: Self)
        ensures
            r == Self::spec_input(),
    {
        Self { node: 0, pass: 0, repeat: 0 }
    }

    /// The id of the first user node.
    pub fn new_first() -> (r: Self)
        ensures
            r == Self::spec_first(),
    {
        Self { node: 1, pass: 0, repeat: 0 }
    }

    /// Decides whether `self` is a legal successor of `last`.
    pub fn validate(&self, last: &Self) -> (r: bool)
        ensures
            r == self.spec_validate(*last),
    {
        if self.node == last.node {
            if self.pass == last.pass {
                last.repeat < u64::MAX && self.repeat == last.repeat + 1
            } else {
                last.pass < u64::MAX && self.pass == last.pass + 1 && self.repeat == 0
            }
        } else {
            last.node < u64::MAX && self.node == last.node + 1 && self.pass == 0 && self.repeat
                == 0
        }
    }

    pub fn is_input(&self) -> (r: bool)
        ensures
            r == (*self == Self::spec_input()),
    {
        *self == Self::new_input()
    }

    pub fn is_first(&self) -> (r: bool)
        ensures
            r == (*self == Self::spec_first()),
    {
        *self == Self::new_first()
    }

    /// A successor is strictly greater in the lexicographic order of
    /// `(node, pass, repeat)`; in particular the ids of a graph's node chain
    /// are pairwise distinct.
    pub proof fn lemma_validate_increases(self, last: Self)
        requires
            self.spec_validate(last),
        ensures
            last.spec_lt(self),
            self != last,
    {
    }

    /// Strict lexicographic order on `(node, pass, repeat)`.
    pub open spec fn spec_lt(self, other: Self) -> bool {
        ||| self.node < other.node
        ||| (self.node == other.node && self.pass < other.pass)
        ||| (self.node == other.node && self.pass == other.pass && self.repeat < other.repeat)
    }
}

} // verus!
