//! Effect handles.
//!
//! An effect owns a computation from its previous output to its next
//! output. It is created dirty and run once immediately; afterwards it is
//! re-run whenever one of the sources it read during its latest run changes.
//! While it runs it is both observer (reads are recorded as its sources) and
//! scope (nodes created during the run are owned by it and disposed before
//! the next run).
//!
//! Design choice, stated deliberately: the dependency edges an effect
//! records accumulate across its own re-runs. They are pruned only when the
//! effect itself is disposed by its owner's re-run, never replaced wholesale
//! at the start of a run.

use vstd::prelude::*;

use crate::node::Computation;
use crate::node::NodeId;
use crate::node::NodeState;
use crate::runtime::same_context;
use crate::runtime::Runtime;

verus! {

/// A handle to an effect node.
#[derive(Debug, Clone, Copy)]
pub struct Effect {
    _id: NodeId,
}

/// Creates an effect owning `computation` and runs it once synchronously.
pub fn create_effect<C: Computation>(rt: &mut Runtime<C>, computation: C) -> (e: Effect)
    requires
        old(rt).wf(),
    ensures
        final(rt).wf(),
        final(rt).n() > old(rt).n(),
        same_context(old(rt), final(rt)),
        e.node_id().index() == old(rt).n(),
        !old(rt).live(e.node_id()),
        final(rt).live(e.node_id()) ==> final(rt).state_of(e.node_id()) == NodeState::Clean
            && final(rt).value_of(e.node_id()) is Some && final(rt).is_effect_node(e.node_id()),
        old(rt).scope_id() is None ==> final(rt).live(e.node_id()),
{
    Effect::new(rt, computation)
}

impl Effect {
    /// The id of the node this handle names.
    pub closed spec fn node_id(self) -> NodeId {
        self._id
    }

    /// Creates an effect owning `computation`.
    ///
    /// The node starts dirty with no previous output, and its first run
    /// happens here, before the handle is returned: if the node is still
    /// alive afterwards it is an effect whose value cell holds the run's
    /// output, and with no scope installed it is certainly alive, since
    /// disposal reaches nodes only through ownership. That the computation
    /// itself was invoked is not a statement about the final store and so
    /// cannot stand in an `ensures`; the tests exercise it.
    pub fn new<C: Computation>(rt: &mut Runtime<C>, computation: C) -> (e: Effect)
        requires
            old(rt).wf(),
        ensures
            final(rt).wf(),
            final(rt).n() > old(rt).n(),
            same_context(old(rt), final(rt)),
            e.node_id().index() == old(rt).n(),
            !old(rt).live(e.node_id()),
            final(rt).live(e.node_id()) ==> final(rt).state_of(e.node_id()) == NodeState::Clean
                && final(rt).value_of(e.node_id()) is Some && final(rt).is_effect_node(
                e.node_id(),
            ),
            old(rt).scope_id() is None ==> final(rt).live(e.node_id()),
    {
        let id = rt.create_effect(None, computation);
        let ghost created = *rt;
        rt.update_if_necessary(id);
        proof {
            if old(rt).scope_id() is None {
                assert(created.live(id) && created.parent_of(id) is None);
                assert(rt.live(id));
            }
        }
        Effect { _id: id }
    }
}

} // verus!
