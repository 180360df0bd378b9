//! Reactive nodes: identity, propagation state, and kind.

use vstd::prelude::*;

use crate::runtime::Runtime;
use crate::value::Value;

verus! {

/// A stable arena id for a reactive node.
///
/// Slots in the node store are never reused, so the id of a removed node
/// never aliases a live node: a lookup on a stale id answers "absent".
#[derive(Clone, Copy, PartialEq, Eq, Structural, Debug, Hash)]
pub struct NodeId {
    pub idx: usize,
}

impl NodeId {
    /// The arena slot this id names.
    pub open spec fn index(self) -> nat {
        self.idx as nat
    }
}

/// The propagation state of a node, ordered
/// `Clean < Check < Dirty = DirtyMarked`.
///
/// `DirtyMarked` is a pass-scoped sentinel placed on the root of one dirty
/// propagation pass, not a higher urgency than `Dirty`.
#[derive(Clone, Copy, PartialEq, Eq, Structural, Debug)]
pub enum NodeState {
    Clean,
    Check,
    Dirty,
    DirtyMarked,
}

/// The rank of a propagation state under the order
/// `Clean < Check < Dirty = DirtyMarked`.
pub open spec fn rank(s: NodeState) -> int {
    match s {
        NodeState::Clean => 0,
        NodeState::Check => 1,
        NodeState::Dirty => 2,
        NodeState::DirtyMarked => 2,
    }
}

/// What a node does: a signal holds a value written from outside; an effect
/// holds a computation from its previous output to its next output.
pub enum NodeKind<C> {
    Signal,
    Effect { computation: C },
}

impl<C> NodeKind<C> {
    /// Whether this is the effect kind.
    pub open spec fn is_effect_kind(&self) -> bool {
        match self {
            NodeKind::Signal => false,
            NodeKind::Effect { .. } => true,
        }
    }
}

/// A reactive node: an optional value cell, a propagation state, and a kind.
///
/// For a signal the value cell holds the current value; for an effect it
/// holds the output of the latest run, absent before the first run.
pub struct Node<C> {
    pub value: Option<Value>,
    pub state: NodeState,
    pub kind: NodeKind<C>,
}

/// A computation carried by an effect node.
///
/// The runtime invokes `run` with the effect's previous output (absent on
/// the first run) while the effect is installed as observer and scope; the
/// new output replaces the stored value, and a `true` change flag escalates
/// the effect's direct subscribers to dirty.
///
/// An implementation receives the runtime mutably so it can read signals
/// through the tracker, write them, or create nodes. The runtime's fields
/// are private, so an implementation can reach the runtime only through its
/// public methods, each of which preserves well-formedness, never shrinks
/// the store, and never refills a disposed slot; the `ensures` below
/// records exactly that.
///
/// This is an open contract: the implementations live with the application
/// and are not themselves verified unless they stand in this crate, so
/// every proof about the scheduler holds only of implementations that meet
/// these three clauses. An implementation that reaches the runtime only
/// through the public methods meets them by construction; one that, say,
/// replaced the whole runtime it was handed would not, and nothing at run
/// time would catch it.
pub trait Computation: Sized + Clone {
    /// Performs the computation, returning the new output and whether the
    /// output changed.
    fn run(&self, runtime: &mut Runtime<Self>, prev: Option<Value>) -> (result: (Value, bool))
        requires
            old(runtime).wf(),
        ensures
            final(runtime).wf(),
            final(runtime).n() >= old(runtime).n(),
            forall|x: NodeId|
                x.index() < old(runtime).n() && !old(runtime).live(x) ==> !(#[trigger] final(runtime).live(x)),
            forall|x: NodeId|
                x.index() < old(runtime).n() && old(runtime).live(x) && final(runtime).live(x)
                    ==> (#[trigger] final(runtime).is_effect_node(x)) == old(
                    runtime,
                ).is_effect_node(x),
            crate::runtime::orphans_kept(old(runtime), final(runtime)),
    ;
}

} // verus!
