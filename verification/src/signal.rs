//! Typed signal handles.
//!
//! A [`Signal`] is a small copyable handle naming one signal node of a
//! runtime. Reads performed through `get` and `with` are tracked: inside a
//! running effect they record a dependency edge. The `_untracked` variants
//! take the runtime immutably, so they can record nothing: this is the one
//! intended way to read a signal without subscribing to it.
//!
//! A handle may outlive its node (an enclosing effect re-run disposes the
//! nodes the previous run created): writes through a stale handle degrade to
//! a silent no-op answering `None`, and the `try_` reads degrade to "value
//! absent" the same way. The plain reads, which hand the value out directly,
//! instead rule the stale case out by precondition. A handle whose type does
//! not match the stored value is a programmer error, ruled out by
//! precondition everywhere: it can not arise from handles used as issued.

use vstd::prelude::*;

use crate::node::Computation;
use crate::node::NodeId;
use crate::node::NodeState;
use crate::runtime::same_context;
use crate::runtime::same_edges;
use crate::runtime::same_nodes;
use crate::runtime::same_ownership;
use crate::runtime::Runtime;
use crate::value::SignalValue;

verus! {

/// A typed handle to a signal node.
pub struct Signal<T> {
    id: NodeId,
    marker: core::marker::PhantomData<T>,
}

impl<T> Clone for Signal<T> {
    fn clone(&self) -> (r: Self)
        ensures
            r == *self,
    {
        Signal { id: self.id, marker: core::marker::PhantomData }
    }
}

impl<T> Copy for Signal<T> {

}

/// Creates a signal with a specified initial value.
pub fn create_signal<T: SignalValue, C>(rt: &mut Runtime<C>, value: T) -> (s: Signal<T>)
    requires
        old(rt).wf(),
    ensures
        final(rt).wf(),
        !old(rt).live(s.node_id()),
        final(rt).live(s.node_id()),
        s.compatible(final(rt)),
        final(rt).state_of(s.node_id()) == NodeState::Clean,
        !final(rt).is_effect_node(s.node_id()),
        s.current(final(rt)) == Some(value),
        final(rt).subs_of(s.node_id()) == Seq::<NodeId>::empty(),
        final(rt).n() == old(rt).n() + 1,
        s.node_id().index() == old(rt).n(),
        same_context(old(rt), final(rt)),
        final(rt).pending() == old(rt).pending(),
        forall|x: NodeId|
            x.index() < old(rt).n() ==> (#[trigger] final(rt).live(x)) == old(rt).live(x),
        forall|x: NodeId|
            x.index() < old(rt).n() && old(rt).live(x) ==> (#[trigger] final(rt).state_of(x))
                == old(rt).state_of(x) && final(rt).value_of(x) == old(rt).value_of(x) && final(rt).is_effect_node(x) == old(rt).is_effect_node(x),
        forall|x: NodeId| x.index() < old(rt).n() ==> (#[trigger] final(rt).subs_of(x)) == old(rt).subs_of(x),
{
    Signal::new(rt, value)
}

impl<T: SignalValue> Signal<T> {
    /// The id of the node this handle reads and writes.
    pub closed spec fn node_id(self) -> NodeId {
        self.id
    }

    /// What a typed read of the node yields now: `None` once the node is
    /// disposed (or on a type mismatch, which handles used as issued never
    /// produce).
    pub open spec fn current<C>(self, rt: &Runtime<C>) -> Option<T> {
        if rt.live(self.node_id()) {
            match rt.value_of(self.node_id()) {
                Some(v) => T::of_value_spec(v),
                None => None,
            }
        } else {
            None
        }
    }

    /// The handle matches its node: as long as the node is alive it is a
    /// signal holding a `T`-tagged value.
    pub open spec fn compatible<C>(self, rt: &Runtime<C>) -> bool {
        rt.live(self.node_id()) ==> (!rt.is_effect_node(self.node_id()) && self.current(
            rt,
        ) is Some)
    }

    /// Creates a signal holding `value`.
    pub fn new<C>(rt: &mut Runtime<C>, value: T) -> (s: Signal<T>)
        requires
            old(rt).wf(),
        ensures
            final(rt).wf(),
            !old(rt).live(s.node_id()),
            final(rt).live(s.node_id()),
            s.compatible(final(rt)),
            final(rt).state_of(s.node_id()) == NodeState::Clean,
            !final(rt).is_effect_node(s.node_id()),
            s.current(final(rt)) == Some(value),
            final(rt).subs_of(s.node_id()) == Seq::<NodeId>::empty(),
            final(rt).n() == old(rt).n() + 1,
            s.node_id().index() == old(rt).n(),
            same_context(old(rt), final(rt)),
            final(rt).pending() == old(rt).pending(),
            forall|x: NodeId|
                x.index() < old(rt).n() ==> (#[trigger] final(rt).live(x)) == old(rt).live(x),
            forall|x: NodeId|
                x.index() < old(rt).n() && old(rt).live(x) ==> (#[trigger] final(rt).state_of(x))
                    == old(rt).state_of(x) && final(rt).value_of(x) == old(rt).value_of(x)
                    && final(rt).is_effect_node(x) == old(rt).is_effect_node(x),
            forall|x: NodeId| x.index() < old(rt).n() ==> (#[trigger] final(rt).subs_of(x)) == old(rt).subs_of(x),
    {
        let wrapped = value.wrap();
        let id = rt.create_signal(wrapped);
        proof {
            value.lemma_wrap_roundtrip();
        }
        Signal { id, marker: core::marker::PhantomData }
    }

    /// Tracked read: records the current observer as a subscriber of this
    /// node and this node as a source of the observer, then returns a copy
    /// of the value.
    pub fn get<C>(&self, rt: &mut Runtime<C>) -> (r: T)
        requires
            old(rt).wf(),
            old(rt).live(self.node_id()),
            self.compatible(old(rt)),
        ensures
            final(rt).wf(),
            Some(r) == self.current(old(rt)),
            self.current(final(rt)) == self.current(old(rt)),
            self.compatible(final(rt)),
            same_nodes(old(rt), final(rt)),
            same_ownership(old(rt), final(rt)),
            same_context(old(rt), final(rt)),
            final(rt).pending() == old(rt).pending(),
            old(rt).observer_id() is None ==> *final(rt) == *old(rt),
            old(rt).observer_id() matches Some(obs) ==> (old(rt).live(obs) ==> final(rt).subs_of(
                self.node_id(),
                ).contains(obs) && final(rt).srcs_of(obs).contains(self.node_id())),
    {
        self.track(rt);
        let v = match rt.get_node_value(self.id) {
            Some(v) => v,
            None => vstd::pervasive::unreached(),
        };
        match T::read(v) {
            Some(t) => t,
            None => vstd::pervasive::unreached(),
        }
    }

    /// Tracked read through a handle that may have been disposed: the value
    /// if the node is alive and matches, `None` once it is gone. Disposal
    /// legitimately races with handles captured in closures from an earlier
    /// run; this read degrades to "value absent" instead of being ruled out.
    pub fn try_get<C>(&self, rt: &mut Runtime<C>) -> (r: Option<T>)
        requires
            old(rt).wf(),
        ensures
            final(rt).wf(),
            r == self.current(old(rt)),
            self.current(final(rt)) == self.current(old(rt)),
            same_nodes(old(rt), final(rt)),
            same_ownership(old(rt), final(rt)),
            same_context(old(rt), final(rt)),
            final(rt).pending() == old(rt).pending(),
    {
        self.track(rt);
        match rt.get_node_value(self.id) {
            Some(v) => T::read(v),
            None => None,
        }
    }

    /// Untracked read through a handle that may have been disposed; records
    /// nothing and degrades to `None` once the node is gone.
    pub fn try_get_untracked<C>(&self, rt: &Runtime<C>) -> (r: Option<T>)
        requires
            rt.wf(),
        ensures
            r == self.current(rt),
    {
        match rt.get_node_value(self.id) {
            Some(v) => T::read(v),
            None => None,
        }
    }

    /// Tracked read-by-reference through a handle that may have been
    /// disposed: hands the value to `func` if the node is alive and
    /// matching, degrades to `None` once it is gone.
    pub fn try_with<C, Ret>(&self, rt: &mut Runtime<C>, func: impl FnOnce(&T) -> Ret) -> (r: Option<
        Ret,
    >)
        requires
            old(rt).wf(),
            forall|t: &T| Some(*t) == self.current(old(rt)) ==> call_requires(func, (t,)),
        ensures
            final(rt).wf(),
            r is Some <==> self.current(old(rt)) is Some,
            r matches Some(ret) ==> exists|t: &T|
                Some(*t) == self.current(old(rt)) && call_ensures(func, (t,), ret),
            self.current(final(rt)) == self.current(old(rt)),
            same_nodes(old(rt), final(rt)),
            same_ownership(old(rt), final(rt)),
            same_context(old(rt), final(rt)),
            final(rt).pending() == old(rt).pending(),
    {
        match self.try_get(rt) {
            Some(value) => Some(func(&value)),
            None => None,
        }
    }

    /// Untracked read-by-reference through a handle that may have been
    /// disposed: records nothing, and degrades to `None` once the node is
    /// gone.
    pub fn try_with_untracked<C, Ret>(&self, rt: &Runtime<C>, func: impl FnOnce(&T) -> Ret) -> (r:
        Option<Ret>)
        requires
            rt.wf(),
            forall|t: &T| Some(*t) == self.current(rt) ==> call_requires(func, (t,)),
        ensures
            r is Some <==> self.current(rt) is Some,
            r matches Some(ret) ==> exists|t: &T|
                Some(*t) == self.current(rt) && call_ensures(func, (t,), ret),
    {
        match self.try_get_untracked(rt) {
            Some(value) => Some(func(&value)),
            None => None,
        }
    }

    /// Untracked read: the runtime is borrowed immutably, so no dependency
    /// edge can be recorded.
    pub fn get_untracked<C>(&self, rt: &Runtime<C>) -> (r: T)
        requires
            rt.wf(),
            rt.live(self.node_id()),
            self.compatible(rt),
        ensures
            Some(r) == self.current(rt),
    {
        let v = match rt.get_node_value(self.id) {
            Some(v) => v,
            None => vstd::pervasive::unreached(),
        };
        match T::read(v) {
            Some(t) => t,
            None => vstd::pervasive::unreached(),
        }
    }

    /// Tracked read-by-reference: records the dependency edge exactly like
    /// `get`, then hands the value to `func`.
    pub fn with<C, Ret>(&self, rt: &mut Runtime<C>, func: impl FnOnce(&T) -> Ret) -> (r: Ret)
        requires
            old(rt).wf(),
            old(rt).live(self.node_id()),
            self.compatible(old(rt)),
            forall|t: &T| Some(*t) == self.current(old(rt)) ==> call_requires(func, (t,)),
        ensures
            final(rt).wf(),
            exists|t: &T| Some(*t) == self.current(old(rt)) && call_ensures(func, (t,), r),
            self.current(final(rt)) == self.current(old(rt)),
            self.compatible(final(rt)),
            same_nodes(old(rt), final(rt)),
            same_ownership(old(rt), final(rt)),
            same_context(old(rt), final(rt)),
            final(rt).pending() == old(rt).pending(),
            old(rt).observer_id() matches Some(obs) ==> (old(rt).live(obs) ==> final(rt).subs_of(
                self.node_id(),
                ).contains(obs) && final(rt).srcs_of(obs).contains(self.node_id())),
    {
        let value = self.get(rt);
        func(&value)
    }

    /// Untracked read-by-reference: records no dependency edge.
    pub fn with_untracked<C, Ret>(&self, rt: &Runtime<C>, func: impl FnOnce(&T) -> Ret) -> (r: Ret)
        requires
            rt.wf(),
            rt.live(self.node_id()),
            self.compatible(rt),
            forall|t: &T| Some(*t) == self.current(rt) ==> call_requires(func, (t,)),
        ensures
            exists|t: &T| Some(*t) == self.current(rt) && call_ensures(func, (t,), r),
    {
        let value = self.get_untracked(rt);
        func(&value)
    }

    /// Records this signal as a source of the current observer, if any:
    /// the observer becomes a subscriber of this node and this node a
    /// source of the observer, both as idempotent set insertions. With no
    /// observer installed, or through a stale handle, nothing is recorded.
    pub fn track<C>(&self, rt: &mut Runtime<C>)
        requires
            old(rt).wf(),
        ensures
            final(rt).wf(),
            same_nodes(old(rt), final(rt)),
            same_ownership(old(rt), final(rt)),
            same_context(old(rt), final(rt)),
            final(rt).pending() == old(rt).pending(),
            self.current(final(rt)) == self.current(old(rt)),
            self.compatible(old(rt)) ==> self.compatible(final(rt)),
            old(rt).observer_id() is None ==> *final(rt) == *old(rt),
            old(rt).observer_id() matches Some(obs) ==> {
                &&& (!old(rt).live(self.node_id()) || !old(rt).live(obs)) ==> *final(rt) == *old(rt)
                &&& old(rt).live(self.node_id()) && old(rt).live(obs) ==> {
                    &&& (forall|x: NodeId|
                        final(rt).subs_of(self.node_id()).contains(x) <==> old(rt).subs_of(
                            self.node_id(),
                        ).contains(x) || x == obs)
                    &&& (forall|x: NodeId|
                        final(rt).srcs_of(obs).contains(x) <==> old(rt).srcs_of(obs).contains(x)
                            || x == self.node_id())
                    &&& (forall|x: NodeId|
                        x.index() < old(rt).n() && x != self.node_id() ==> (#[trigger] final(rt).subs_of(x)) == old(rt).subs_of(x))
                    &&& (forall|x: NodeId|
                        x.index() < old(rt).n() && x != obs ==> (#[trigger] final(rt).srcs_of(x))
                            == old(rt).srcs_of(x))
                }
            },
    {
        rt.track(self.id);
        proof {
            if old(rt).live(self.id) {
                old(rt).lemma_live_in_bounds(self.id);
                assert(rt.live(self.id));
                assert(rt.value_of(self.id) == old(rt).value_of(self.id));
            }
        }
    }

    /// Writes a new value and synchronously drives propagation: descendants
    /// are marked, pending effects run, and only then does the call return.
    ///
    /// Returns the previous value, or `None` as a silent no-op when the node
    /// has been disposed. When nothing subscribes to this signal and no
    /// flush is pending, the write stores the value, triggers nothing and
    /// changes nothing else; with subscribers present, the final store is
    /// whatever the flushed effects made of it, which no contract over the
    /// store alone can pin down.
    pub fn set<C: Computation>(&self, rt: &mut Runtime<C>, value: T) -> (r: Option<T>)
        requires
            old(rt).wf(),
            self.compatible(old(rt)),
        ensures
            final(rt).wf(),
            final(rt).n() >= old(rt).n(),
            same_context(old(rt), final(rt)),
            !old(rt).live(self.node_id()) ==> *final(rt) == *old(rt) && r is None,
            old(rt).live(self.node_id()) ==> r == self.current(old(rt)) && r is Some,
            forall|x: NodeId|
                x.index() < old(rt).n() && !old(rt).live(x) ==> !(#[trigger] final(rt).live(x)),
            final(rt).live(self.node_id()) ==> final(rt).state_of(self.node_id())
                == NodeState::Clean,
            old(rt).live(self.node_id()) && old(rt).subs_of(self.node_id()).len() == 0 && old(rt).pending().len() == 0 ==> {
                &&& self.current(final(rt)) == Some(value)
                &&& final(rt).state_of(self.node_id()) == NodeState::Clean
                &&& final(rt).pending().len() == 0
                &&& final(rt).n() == old(rt).n()
                &&& (forall|x: NodeId|
                    x.index() < old(rt).n() ==> (#[trigger] final(rt).live(x)) == old(rt).live(x))
                &&& (forall|x: NodeId|
                    x.index() < old(rt).n() && old(rt).live(x) && x != self.node_id() ==> (
                    #[trigger] final(rt).state_of(x)) == old(rt).state_of(x) && final(rt).value_of(
                        x,
                    ) == old(rt).value_of(x))
                &&& same_edges(old(rt), final(rt))
                &&& same_ownership(old(rt), final(rt))
            },
    {
        if !rt.is_live(self.id) {
            return None;
        }
        proof {
            old(rt).lemma_live_in_bounds(self.id);
        }
        let ghost quiet = old(rt).subs_of(self.id).len() == 0 && old(rt).pending().len() == 0;
        let wrapped = value.wrap();
        let prev = rt.replace_node_value(self.id, wrapped);
        let ghost stored = *rt;
        rt.mark_descendants_dirty(self.id);
        let ghost marked = *rt;
        proof {
            if quiet {
                value.lemma_wrap_roundtrip();
                assert(stored.subs_of(self.id).len() == 0);
                stored.lemma_no_subscribers_unreachable(self.id);
                assert forall|x: NodeId|
                    x.index() < old(rt).n() && old(rt).live(x) && x != self.node_id() implies (
                #[trigger] marked.state_of(x)) == old(rt).state_of(x) && marked.value_of(x) == old(rt).value_of(x) by {
                    assert(stored.live(x));
                    assert(marked.state_of(x) == stored.state_of(x) || stored.reaches(
                        self.node_id(),
                        x,
                    ));
                    assert(marked.value_of(x) == stored.value_of(x));
                }
                assert(marked.pending().len() == 0) by {
                    if marked.pending().len() > 0 {
                        assert(stored.reaches(self.node_id(), marked.pending()[0]));
                    }
                }
                assert(marked.live(self.id));
                assert(marked.value_of(self.id) == Some(value.to_value_spec()));
            }
        }
        rt.run_effects();
        proof {
            if quiet {
                assert(*rt == marked);
            }
        }
        let ghost flushed = *rt;
        // the pass-scoped mark on the mutation root ends with the pass: a
        // root that no subscriber pulled during the flush is resolved here
        rt.mark_clean(self.id);
        proof {
            assert forall|x: NodeId|
                x.index() < old(rt).n() && !old(rt).live(x) implies !(rt.live(x)) by {
                assert(!stored.live(x));
                assert(!marked.live(x));
                assert(!flushed.live(x));
            }
            if rt.live(self.id) {
                assert(flushed.live(self.id));
                assert(rt.state_of(self.id) == NodeState::Clean);
            }
            if quiet {
                assert(rt.n() == old(rt).n());
                assert forall|x: NodeId|
                    x.index() < old(rt).n() implies (#[trigger] rt.live(x)) == old(rt).live(x) by {
                    assert(rt.live(x) == flushed.live(x));
                    assert(flushed.live(x) == stored.live(x));
                    assert(stored.live(x) == old(rt).live(x));
                }
                assert(flushed.live(self.id));
                assert(rt.live(self.id));
                assert(rt.value_of(self.id) == flushed.value_of(self.id));
                assert(rt.value_of(self.id) == Some(value.to_value_spec()));
                assert(rt.state_of(self.id) == NodeState::Clean);
                assert forall|x: NodeId|
                    x.index() < old(rt).n() && old(rt).live(x) && x != self.node_id() implies (
                #[trigger] rt.state_of(x)) == old(rt).state_of(x) && rt.value_of(x) == old(rt).value_of(x) by {
                    assert(flushed.live(x));
                    assert(rt.state_of(x) == flushed.state_of(x));
                    assert(rt.value_of(x) == flushed.value_of(x));
                }
                assert(same_edges(old(rt), rt)) by {
                    assert forall|x: NodeId|
                        x.index() < old(rt).n() implies (#[trigger] rt.subs_of(x)) == old(rt).subs_of(x) by {
                        assert(rt.subs_of(x) == marked.subs_of(x));
                        assert(marked.subs_of(x) == stored.subs_of(x));
                    }
                    assert forall|x: NodeId|
                        x.index() < old(rt).n() implies (#[trigger] rt.srcs_of(x)) == old(rt).srcs_of(x) by {
                        assert(rt.srcs_of(x) == marked.srcs_of(x));
                        assert(marked.srcs_of(x) == stored.srcs_of(x));
                    }
                }
                assert(same_ownership(old(rt), rt)) by {
                    assert forall|x: NodeId|
                        x.index() < old(rt).n() implies (#[trigger] rt.children_of(x)) == old(rt).children_of(x) && rt.parent_of(x) == old(rt).parent_of(x) by {
                        assert(rt.children_of(x) == marked.children_of(x));
                        assert(marked.children_of(x) == stored.children_of(x));
                        assert(rt.parent_of(x) == marked.parent_of(x));
                        assert(marked.parent_of(x) == stored.parent_of(x));
                    }
                }
            }
        }
        match prev {
            Some(v) => T::read(v),
            None => None,
        }
    }

    /// Writes a new value without propagating: no descendant is marked and
    /// no effect runs. Returns the previous value, or `None` as a silent
    /// no-op when the node has been disposed.
    pub fn set_untracked<C>(&self, rt: &mut Runtime<C>, value: T) -> (r: Option<T>)
        requires
            old(rt).wf(),
            self.compatible(old(rt)),
        ensures
            final(rt).wf(),
            same_context(old(rt), final(rt)),
            !old(rt).live(self.node_id()) ==> *final(rt) == *old(rt) && r is None,
            old(rt).live(self.node_id()) ==> r == self.current(old(rt)) && r is Some
                && self.current(final(rt)) == Some(value),
            self.compatible(final(rt)),
            final(rt).pending() == old(rt).pending(),
            final(rt).n() == old(rt).n(),
            forall|x: NodeId|
                x.index() < old(rt).n() ==> (#[trigger] final(rt).live(x)) == old(rt).live(x),
            forall|x: NodeId|
                x.index() < old(rt).n() && old(rt).live(x) ==> (#[trigger] final(rt).state_of(x))
                    == old(rt).state_of(x) && final(rt).is_effect_node(x) == old(rt).is_effect_node(
                    x,
                ),
            forall|x: NodeId|
                x.index() < old(rt).n() && old(rt).live(x) && x != self.node_id() ==> (
                #[trigger] final(rt).value_of(x)) == old(rt).value_of(x),
            same_edges(old(rt), final(rt)),
            same_ownership(old(rt), final(rt)),
    {
        if !rt.is_live(self.id) {
            return None;
        }
        proof {
            old(rt).lemma_live_in_bounds(self.id);
        }
        let wrapped = value.wrap();
        let prev = rt.replace_node_value(self.id, wrapped);
        proof {
            value.lemma_wrap_roundtrip();
            assert(rt.live(self.id));
            assert(rt.value_of(self.id) == Some(value.to_value_spec()));
            assert(rt.state_of(self.id) == old(rt).state_of(self.id));
            assert(rt.is_effect_node(self.id) == old(rt).is_effect_node(self.id));
        }
        match prev {
            Some(v) => T::read(v),
            None => None,
        }
    }

    /// Read-modify-write with propagation: applies `func` to the current
    /// value, stores the new value, and synchronously drives propagation.
    ///
    /// Returns `func`'s companion result, or `None` as a silent no-op when
    /// the node has been disposed.
    pub fn update<C: Computation, Ret>(
        &self,
        rt: &mut Runtime<C>,
        func: impl FnOnce(T) -> (T, Ret),
    ) -> (r: Option<Ret>)
        requires
            old(rt).wf(),
            self.compatible(old(rt)),
            forall|t: T| Some(t) == self.current(old(rt)) ==> call_requires(func, (t,)),
        ensures
            final(rt).wf(),
            final(rt).n() >= old(rt).n(),
            same_context(old(rt), final(rt)),
            !old(rt).live(self.node_id()) ==> *final(rt) == *old(rt) && r is None,
            old(rt).live(self.node_id()) ==> (exists|t2: T, ret2: Ret|
                call_ensures(func, (self.current(old(rt))->Some_0,), (t2, ret2)) && r == Some(
                    ret2,
                )),
            forall|x: NodeId|
                x.index() < old(rt).n() && !old(rt).live(x) ==> !(#[trigger] final(rt).live(x)),
            final(rt).live(self.node_id()) ==> final(rt).state_of(self.node_id())
                == NodeState::Clean,
            old(rt).live(self.node_id()) && old(rt).subs_of(self.node_id()).len() == 0 && old(rt).pending().len() == 0 ==> {
                &&& (exists|t2: T, ret2: Ret|
                    call_ensures(func, (self.current(old(rt))->Some_0,), (t2, ret2)) && r == Some(
                        ret2,
                    ) && self.current(final(rt)) == Some(t2))
                &&& final(rt).pending().len() == 0
                &&& final(rt).n() == old(rt).n()
                &&& (forall|x: NodeId|
                    x.index() < old(rt).n() ==> (#[trigger] final(rt).live(x)) == old(rt).live(x))
                &&& (forall|x: NodeId|
                    x.index() < old(rt).n() && old(rt).live(x) && x != self.node_id() ==> (
                    #[trigger] final(rt).state_of(x)) == old(rt).state_of(x) && final(rt).value_of(
                        x,
                    ) == old(rt).value_of(x))
                &&& same_edges(old(rt), final(rt))
                &&& same_ownership(old(rt), final(rt))
            },
    {
        if !rt.is_live(self.id) {
            return None;
        }
        proof {
            old(rt).lemma_live_in_bounds(self.id);
        }
        let ghost quiet = old(rt).subs_of(self.id).len() == 0 && old(rt).pending().len() == 0;
        let t = self.get_untracked(rt);
        let ghost tg = t;
        let pair = func(t);
        let ghost pairg = pair;
        proof {
            assert(Some(tg) == self.current(old(rt)));
            assert(call_ensures(func, (tg,), pairg));
            assert(pairg == (pairg.0, pairg.1));
        }
        let t2 = pair.0;
        let ret = pair.1;
        let ghost t2g = t2;
        let wrapped = t2.wrap();
        proof {
            t2g.lemma_wrap_roundtrip();
        }
        let _prev = rt.replace_node_value(self.id, wrapped);
        let ghost stored = *rt;
        rt.mark_descendants_dirty(self.id);
        let ghost marked = *rt;
        proof {
            if quiet {
                assert(stored.subs_of(self.id).len() == 0);
                stored.lemma_no_subscribers_unreachable(self.id);
                assert forall|x: NodeId|
                    x.index() < old(rt).n() && old(rt).live(x) && x != self.node_id() implies (
                #[trigger] marked.state_of(x)) == old(rt).state_of(x) && marked.value_of(x) == old(rt).value_of(x) by {
                    assert(stored.live(x));
                    assert(marked.state_of(x) == stored.state_of(x) || stored.reaches(
                        self.node_id(),
                        x,
                    ));
                    assert(marked.value_of(x) == stored.value_of(x));
                }
                assert(marked.pending().len() == 0) by {
                    if marked.pending().len() > 0 {
                        assert(stored.reaches(self.node_id(), marked.pending()[0]));
                    }
                }
                assert(marked.live(self.id));
                assert(marked.value_of(self.id) == Some(t2g.to_value_spec()));
            }
        }
        rt.run_effects();
        proof {
            if quiet {
                assert(*rt == marked);
            }
        }
        let ghost flushed = *rt;
        // the pass-scoped mark on the mutation root ends with the pass
        rt.mark_clean(self.id);
        proof {
            assert(call_ensures(func, (self.current(old(rt))->Some_0,), (pairg.0, pairg.1)));
            assert forall|x: NodeId|
                x.index() < old(rt).n() && !old(rt).live(x) implies !(rt.live(x)) by {
                assert(!stored.live(x));
                assert(!marked.live(x));
                assert(!flushed.live(x));
            }
            if rt.live(self.id) {
                assert(flushed.live(self.id));
                assert(rt.state_of(self.id) == NodeState::Clean);
            }
            if quiet {
                assert(rt.n() == old(rt).n());
                assert forall|x: NodeId|
                    x.index() < old(rt).n() implies (#[trigger] rt.live(x)) == old(rt).live(x) by {
                    assert(rt.live(x) == flushed.live(x));
                    assert(flushed.live(x) == stored.live(x));
                    assert(stored.live(x) == old(rt).live(x));
                }
                assert(flushed.live(self.id));
                assert(rt.live(self.id));
                assert(rt.value_of(self.id) == flushed.value_of(self.id));
                assert(rt.value_of(self.id) == Some(t2g.to_value_spec()));
                assert(self.current(rt) == Some(t2g));
                assert forall|x: NodeId|
                    x.index() < old(rt).n() && old(rt).live(x) && x != self.node_id() implies (
                #[trigger] rt.state_of(x)) == old(rt).state_of(x) && rt.value_of(x) == old(rt).value_of(x) by {
                    assert(flushed.live(x));
                    assert(rt.state_of(x) == flushed.state_of(x));
                    assert(rt.value_of(x) == flushed.value_of(x));
                }
                assert(same_edges(old(rt), rt)) by {
                    assert forall|x: NodeId|
                        x.index() < old(rt).n() implies (#[trigger] rt.subs_of(x)) == old(rt).subs_of(x) by {
                        assert(rt.subs_of(x) == marked.subs_of(x));
                        assert(marked.subs_of(x) == stored.subs_of(x));
                    }
                    assert forall|x: NodeId|
                        x.index() < old(rt).n() implies (#[trigger] rt.srcs_of(x)) == old(rt).srcs_of(x) by {
                        assert(rt.srcs_of(x) == marked.srcs_of(x));
                        assert(marked.srcs_of(x) == stored.srcs_of(x));
                    }
                }
                assert(same_ownership(old(rt), rt)) by {
                    assert forall|x: NodeId|
                        x.index() < old(rt).n() implies (#[trigger] rt.children_of(x)) == old(rt).children_of(x) && rt.parent_of(x) == old(rt).parent_of(x) by {
                        assert(rt.children_of(x) == marked.children_of(x));
                        assert(marked.children_of(x) == stored.children_of(x));
                        assert(rt.parent_of(x) == marked.parent_of(x));
                        assert(marked.parent_of(x) == stored.parent_of(x));
                    }
                }
            }
        }
        Some(ret)
    }

    /// Read-modify-write without propagation.
    ///
    /// Returns `func`'s companion result, or `None` as a silent no-op when
    /// the node has been disposed.
    pub fn update_untracked<C, Ret>(
        &self,
        rt: &mut Runtime<C>,
        func: impl FnOnce(T) -> (T, Ret),
    ) -> (r: Option<Ret>)
        requires
            old(rt).wf(),
            self.compatible(old(rt)),
            forall|t: T| Some(t) == self.current(old(rt)) ==> call_requires(func, (t,)),
        ensures
            final(rt).wf(),
            same_context(old(rt), final(rt)),
            final(rt).pending() == old(rt).pending(),
            !old(rt).live(self.node_id()) ==> *final(rt) == *old(rt) && r is None,
            old(rt).live(self.node_id()) ==> r is Some && (exists|t2: T|
                call_ensures(func, (self.current(old(rt))->Some_0,), (t2, r->Some_0))
                    && self.current(final(rt)) == Some(t2)),
            self.compatible(final(rt)),
            final(rt).n() == old(rt).n(),
            forall|x: NodeId|
                x.index() < old(rt).n() ==> (#[trigger] final(rt).live(x)) == old(rt).live(x),
            forall|x: NodeId|
                x.index() < old(rt).n() && old(rt).live(x) ==> (#[trigger] final(rt).state_of(x))
                    == old(rt).state_of(x) && final(rt).is_effect_node(x) == old(rt).is_effect_node(
                    x,
                ),
            forall|x: NodeId|
                x.index() < old(rt).n() && old(rt).live(x) && x != self.node_id() ==> (
                #[trigger] final(rt).value_of(x)) == old(rt).value_of(x),
            same_edges(old(rt), final(rt)),
            same_ownership(old(rt), final(rt)),
    {
        if !rt.is_live(self.id) {
            return None;
        }
        proof {
            old(rt).lemma_live_in_bounds(self.id);
        }
        let t = self.get_untracked(rt);
        let ghost tg = t;
        let pair = func(t);
        let ghost pairg = pair;
        proof {
            assert(Some(tg) == self.current(old(rt)));
            assert(call_ensures(func, (tg,), pairg));
            assert(pairg == (pairg.0, pairg.1));
        }
        let t2 = pair.0;
        let ret = pair.1;
        let ghost t2g = t2;
        let wrapped = t2.wrap();
        proof {
            t2g.lemma_wrap_roundtrip();
        }
        let _prev = rt.replace_node_value(self.id, wrapped);
        proof {
            assert(rt.live(self.id));
            assert(rt.value_of(self.id) == Some(t2g.to_value_spec()));
            assert(self.current(rt) == Some(t2g));
            assert(rt.state_of(self.id) == old(rt).state_of(self.id));
            assert(rt.is_effect_node(self.id) == old(rt).is_effect_node(self.id));
        }
        Some(ret)
    }
}

} // verus!
