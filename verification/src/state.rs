use vstd::prelude::*;

verus! {

/// The identifier of a state of a `Dfa`: its index in the automaton's tables.
#[derive(Debug, Clone, Copy, PartialEq, Eq, Hash, PartialOrd, Ord, Structural)]
pub struct StateId {
    id: usize,
}

impl View for StateId {
    type V = usize;

    closed spec fn view(&self) -> usize {
        self.id
    }
}

impl StateId {
    /// The index of this state.
    pub fn id(self) -> (r: usize)
        ensures
            r == self@,
    {
        self.id
    }

    /// The state with the given index.
    pub(crate) fn from_id(id: usize) -> (s: StateId)
        ensures
            s@ == id,
    {
        StateId { id }
    }
}

/// Whether a state accepts the input read so far.
#[derive(Debug, Clone, Copy, PartialEq, Eq, Hash, Structural)]
pub(crate) enum StateKind {
    Accepting,
    Rejecting,
}

impl StateKind {
    pub(crate) open spec fn spec_accepting(self) -> bool {
        self is Accepting
    }

    /// The kind that accepts exactly when this one rejects.
    pub(crate) fn complement(self) -> (r: StateKind)
        ensures
            r.spec_accepting() == !self.spec_accepting(),
    {
        match self {
            StateKind::Accepting => StateKind::Rejecting,
            StateKind::Rejecting => StateKind::Accepting,
        }
    }

    /// The kind that accepts when either kind accepts.
    pub(crate) fn or(self, rhs: StateKind) -> (r: StateKind)
        ensures
            r.spec_accepting() == (self.spec_accepting() || rhs.spec_accepting()),
    {
        if self == StateKind::Accepting || rhs == StateKind::Accepting {
            StateKind::Accepting
        } else {
            StateKind::Rejecting
        }
    }

    /// The kind that accepts when both kinds accept.
    pub(crate) fn and(self, rhs: StateKind) -> (r: StateKind)
        ensures
            r.spec_accepting() == (self.spec_accepting() && rhs.spec_accepting()),
    {
        if self == StateKind::Accepting && rhs == StateKind::Accepting {
            StateKind::Accepting
        } else {
            StateKind::Rejecting
        }
    }

    /// Whether this kind accepts.
    pub(crate) fn is_accepting(self) -> (r: bool)
        ensures
            r == self.spec_accepting(),
    {
        match self {
            StateKind::Accepting => true,
            StateKind::Rejecting => false,
        }
    }
}

} // verus!
