//! The reactive runtime: node store, dependency tracker, dirty propagation,
//! update scheduler, and ownership-based disposal.
//!
//! The runtime is an explicit context object: every entry point takes it by
//! reference. It is confined to one thread by construction (it is not `Sync`
//! to share nor meant to be sent mid-run); there is no hidden global
//! instance.

use vstd::prelude::*;

use crate::node::rank;
use crate::node::Computation;
use crate::node::Node;
use crate::node::NodeId;
use crate::node::NodeKind;
use crate::node::NodeState;
use crate::value::Value;

verus! {

/// How many levels of sources one pull-based resolution descends through.
///
/// Source chains are bounded by the call depth that built them, which is
/// far below this budget; it exists only to make the recursion well-founded.
pub const SOURCE_DEPTH_BUDGET: u64 = 0xFFFF_FFFF;

/// No two entries of the row are equal.
spec fn distinct_ids(s: Seq<NodeId>) -> bool {
    forall|i: int, j: int| 0 <= i < j < s.len() ==> s[i] != s[j]
}

/// Every entry of the row names one of the first `n` arena slots.
spec fn ids_below(s: Seq<NodeId>, n: nat) -> bool {
    forall|k: int| 0 <= k < s.len() ==> (#[trigger] s[k]).idx < n
}

/// An adjacency row: a duplicate-free list of ids of existing slots.
spec fn row_ok(s: Seq<NodeId>, n: nat) -> bool {
    distinct_ids(s) && ids_below(s, n)
}

/// Every row is duplicate-free and within the arena bound.
spec fn rows_ok(rows: Seq<Vec<NodeId>>, n: nat) -> bool {
    forall|i: int| 0 <= i < rows.len() ==> row_ok((#[trigger] rows[i])@, n)
}

/// The subscriber and source maps are exact mirrors of each other.
spec fn mirror_ok(subs: Seq<Vec<NodeId>>, srcs: Seq<Vec<NodeId>>, n: nat) -> bool {
    forall|a: NodeId, b: NodeId|
        #![trigger subs[a.idx as int]@.contains(b)]
        #![trigger srcs[b.idx as int]@.contains(a)]
        a.idx < n && b.idx < n ==> (subs[a.idx as int]@.contains(b) <==> srcs[b.idx
            as int]@.contains(a))
}

/// A children entry names a node whose parent entry points back, and every
/// parent was created before its child, so the forest is acyclic.
spec fn children_ok(children: Seq<Vec<NodeId>>, parents: Seq<Option<NodeId>>, n: nat) -> bool {
    &&& (forall|a: NodeId, b: NodeId|
        #![trigger children[a.idx as int]@.contains(b)]
        a.idx < n && b.idx < n && children[a.idx as int]@.contains(b) ==> parents[b.idx as int]
            == Some(a))
    &&& (forall|b: NodeId|
        b.idx < n && (#[trigger] parents[b.idx as int]) is Some ==> parents[b.idx
            as int]->Some_0.idx < b.idx)
}

/// A disposed slot keeps no edges and no ownership entries.
spec fn dead_rows_empty<C>(
    nodes: Seq<Option<Node<C>>>,
    subs: Seq<Vec<NodeId>>,
    srcs: Seq<Vec<NodeId>>,
    children: Seq<Vec<NodeId>>,
    parents: Seq<Option<NodeId>>,
) -> bool {
    forall|a: NodeId|
        a.idx < nodes.len() && nodes[a.idx as int] is None ==> (#[trigger] subs[a.idx
            as int])@.len() == 0 && srcs[a.idx as int]@.len() == 0 && children[a.idx
            as int]@.len() == 0 && parents[a.idx as int] is None
}

/// A node with a parent entry stands in that parent's children row. This
/// holds whenever no disposal pass is underway; the pass restores it before
/// it hands control back.
spec fn parents_covered(children: Seq<Vec<NodeId>>, parents: Seq<Option<NodeId>>, n: nat) -> bool {
    forall|a: NodeId, b: NodeId|
        #![trigger children[a.idx as int]@.contains(b)]
        #![trigger parents[b.idx as int], a.idx]
        a.idx < n && b.idx < n && parents[b.idx as int] == Some(a) ==> children[a.idx
            as int]@.contains(b)
}

/// The threaded reactive runtime.
///
/// Manages the reactive nodes (signals and effects) and their lifetime.
///
/// The nodes have two kinds of relationships:
///
///  - Source - Subscriber. This forms the dependency graph along which
///    updates propagate.
///
///  - Parent - Child. This is a forest which determines the lifetime of
///    nodes, their ownership, and drives cleanup.
pub struct Runtime<C> {
    /// Reactive nodes, one slot per id ever issued. Disposal frees the
    /// node's payload, value and edges; the emptied slot itself remains, so
    /// a stale id can never alias a live node. Trading slot reuse for that
    /// proved alias-freedom costs one `Option` discriminant and four empty
    /// rows per disposed node.
    nodes: Vec<Option<Node<C>>>,
    /// Mapping between nodes and their subscribers.
    ///
    /// If node A is a subscriber of node B, then updates of B will also
    /// cause an update of A.
    node_subscribers: Vec<Vec<NodeId>>,
    /// Mapping between nodes and their sources, i.e. dependencies.
    ///
    /// If A is a subscriber of B, then B is a source of A, and vice versa.
    node_sources: Vec<Vec<NodeId>>,
    /// Mapping between nodes and their parent. When a parent is disposed,
    /// all of its descendants in the hierarchy are also disposed.
    node_parents: Vec<Option<NodeId>>,
    /// Mapping between nodes and their children: the reverse of
    /// `node_parents`.
    node_children: Vec<Vec<NodeId>>,
    /// Current scope, implicitly assigned as the parent of nodes created
    /// under it.
    scope: Option<NodeId>,
    /// Node that is currently being updated; reads performed while it is
    /// installed are recorded as its dependencies.
    observer: Option<NodeId>,
    /// Effects scheduled to be run by `run_effects`.
    pending_effects: Vec<NodeId>,
}

impl<C> Runtime<C> {
    /// How many ids the arena has ever issued.
    pub closed spec fn n(&self) -> nat {
        self.nodes@.len()
    }

    /// Whether `id` names a node that exists now.
    pub closed spec fn live(&self, id: NodeId) -> bool {
        id.idx < self.nodes@.len() && self.nodes@[id.idx as int] is Some
    }

    spec fn node_of(&self, id: NodeId) -> Node<C> {
        self.nodes@[id.idx as int]->Some_0
    }

    /// The propagation state of a live node.
    pub closed spec fn state_of(&self, id: NodeId) -> NodeState {
        self.node_of(id).state
    }

    /// The value cell of a live node.
    pub closed spec fn value_of(&self, id: NodeId) -> Option<Value> {
        self.node_of(id).value
    }

    /// Whether a live node is an effect (rather than a signal).
    pub closed spec fn is_effect_node(&self, id: NodeId) -> bool {
        self.node_of(id).kind.is_effect_kind()
    }

    /// The subscribers recorded for `id`.
    pub closed spec fn subs_of(&self, id: NodeId) -> Seq<NodeId> {
        self.node_subscribers@[id.idx as int]@
    }

    /// The sources recorded for `id`.
    pub closed spec fn srcs_of(&self, id: NodeId) -> Seq<NodeId> {
        self.node_sources@[id.idx as int]@
    }

    /// The children owned by `id`.
    pub closed spec fn children_of(&self, id: NodeId) -> Seq<NodeId> {
        self.node_children@[id.idx as int]@
    }

    /// The owner of `id`, if any.
    pub closed spec fn parent_of(&self, id: NodeId) -> Option<NodeId> {
        self.node_parents@[id.idx as int]
    }

    /// The node currently installed as observer.
    pub closed spec fn observer_id(&self) -> Option<NodeId> {
        self.observer
    }

    /// The node currently installed as owning scope.
    pub closed spec fn scope_id(&self) -> Option<NodeId> {
        self.scope
    }

    /// The queue of effects scheduled for the next flush.
    pub closed spec fn pending(&self) -> Seq<NodeId> {
        self.pending_effects@
    }

    /// The runtime's structural invariant.
    ///
    /// The two adjacency maps are exact mirrors of each other, as are the
    /// parent and children maps; rows are duplicate-free and in bounds; a
    /// disposed slot keeps no edges and no ownership entries; parents were
    /// created before their children, so the ownership forest is acyclic.
    /// Everything of the invariant except that parent entries are covered
    /// by children rows; the disposal pass breaks that one part while it
    /// walks the subtree.
    spec fn wf_core(&self) -> bool {
        let n = self.nodes@.len();
        &&& self.node_subscribers@.len() == n
        &&& self.node_sources@.len() == n
        &&& self.node_parents@.len() == n
        &&& self.node_children@.len() == n
        &&& rows_ok(self.node_subscribers@, n)
        &&& rows_ok(self.node_sources@, n)
        &&& rows_ok(self.node_children@, n)
        &&& mirror_ok(self.node_subscribers@, self.node_sources@, n)
        &&& children_ok(self.node_children@, self.node_parents@, n)
        &&& dead_rows_empty(
            self.nodes@,
            self.node_subscribers@,
            self.node_sources@,
            self.node_children@,
            self.node_parents@,
        )
        &&& (self.observer is Some ==> self.observer->Some_0.idx < n)
        &&& (self.scope is Some ==> self.scope->Some_0.idx < n)
        &&& ids_below(self.pending_effects@, n)
    }

    /// The runtime's structural invariant.
    ///
    /// The two adjacency maps are exact mirrors of each other, as are the
    /// parent and children maps; rows are duplicate-free and in bounds; a
    /// disposed slot keeps no edges and no ownership entries; parents were
    /// created before their children, so the ownership forest is acyclic.
    pub closed spec fn wf(&self) -> bool {
        self.wf_core() && parents_covered(
            self.node_children@,
            self.node_parents@,
            self.nodes@.len(),
        )
    }
}

/// The node stores, states and values of `b` agree with those of `a`.
pub open spec fn same_nodes<C>(a: &Runtime<C>, b: &Runtime<C>) -> bool {
    &&& b.n() == a.n()
    &&& (forall|x: NodeId| x.index() < a.n() ==> (#[trigger] b.live(x)) == a.live(x))
    &&& (forall|x: NodeId|
        x.index() < a.n() && a.live(x) ==> (#[trigger] b.state_of(x)) == a.state_of(x))
    &&& (forall|x: NodeId|
        x.index() < a.n() && a.live(x) ==> (#[trigger] b.value_of(x)) == a.value_of(x))
    &&& (forall|x: NodeId|
        x.index() < a.n() && a.live(x) ==> (#[trigger] b.is_effect_node(x)) == a.is_effect_node(
            x,
        ))
}

/// The dependency edges of `b` agree with those of `a`.
pub open spec fn same_edges<C>(a: &Runtime<C>, b: &Runtime<C>) -> bool {
    &&& (forall|x: NodeId| x.index() < a.n() ==> (#[trigger] b.subs_of(x)) == a.subs_of(x))
    &&& (forall|x: NodeId| x.index() < a.n() ==> (#[trigger] b.srcs_of(x)) == a.srcs_of(x))
}

/// The ownership forest of `b` agrees with that of `a`.
pub open spec fn same_ownership<C>(a: &Runtime<C>, b: &Runtime<C>) -> bool {
    &&& (forall|x: NodeId| x.index() < a.n() ==> (#[trigger] b.children_of(x)) == a.children_of(x))
    &&& (forall|x: NodeId| x.index() < a.n() ==> (#[trigger] b.parent_of(x)) == a.parent_of(x))
}

/// The observer and scope registers of `b` agree with those of `a`.
pub open spec fn same_context<C>(a: &Runtime<C>, b: &Runtime<C>) -> bool {
    b.observer_id() == a.observer_id() && b.scope_id() == a.scope_id()
}

/// Whether the row `v` holds `id`.
fn contains_id(v: &Vec<NodeId>, id: NodeId) -> (r: bool)
    ensures
        r == v@.contains(id),
{
    let mut i: usize = 0;
    while i < v.len()
        invariant
            i <= v@.len(),
            forall|k: int| 0 <= k < i ==> v@[k] != id,
        decreases v@.len() - i,
    {
        if v[i] == id {
            return true;
        }
        i = i + 1;
    }
    false
}

/// Copies a row.
fn clone_ids(v: &Vec<NodeId>) -> (r: Vec<NodeId>)
    ensures
        r@ == v@,
{
    let mut r: Vec<NodeId> = Vec::new();
    let mut i: usize = 0;
    while i < v.len()
        invariant
            i <= v@.len(),
            r@ == v@.subrange(0, i as int),
        decreases v@.len() - i,
    {
        r.push(v[i]);
        assert(r@ == v@.subrange(0, i as int + 1));
        i = i + 1;
    }
    assert(v@.subrange(0, v@.len() as int) == v@);
    r
}

/// Inserts `id` into the row as an idempotent set operation.
fn insert_id(v: &mut Vec<NodeId>, id: NodeId)
    ensures
        old(v)@.contains(id) ==> final(v)@ == old(v)@,
        !old(v)@.contains(id) ==> final(v)@ == old(v)@.push(id),
        distinct_ids(old(v)@) ==> distinct_ids(final(v)@),
        forall|x: NodeId| final(v)@.contains(x) <==> old(v)@.contains(x) || x == id,
{
    if !contains_id(v, id) {
        v.push(id);
        assert forall|x: NodeId| v@.contains(x) <==> (old(v)@.contains(x) || x == id) by {
            if old(v)@.contains(x) {
                let k = choose|k: int| 0 <= k < old(v)@.len() && old(v)@[k] == x;
                assert(v@[k] == x);
                assert(v@.contains(x));
            }
            if x == id {
                assert(v@[v@.len() - 1] == x);
                assert(v@.contains(x));
            }
            if v@.contains(x) {
                let k = choose|k: int| 0 <= k < v@.len() && v@[k] == x;
                if k < old(v)@.len() {
                    assert(old(v)@[k] == x);
                    assert(old(v)@.contains(x));
                } else {
                    assert(x == id);
                }
            }
        }
        proof {
            if distinct_ids(old(v)@) {
                assert forall|a: int, b: int| 0 <= a < b < v@.len() implies v@[a] != v@[b] by {
                    if b == v@.len() - 1 {
                        assert(old(v)@[a] == v@[a]);
                        assert(old(v)@.contains(old(v)@[a]));
                    }
                }
            }
        }
    }
}

/// Removes `id` from the row, if present.
fn remove_id(v: &mut Vec<NodeId>, id: NodeId)
    requires
        distinct_ids(old(v)@),
    ensures
        distinct_ids(final(v)@),
        forall|x: NodeId| final(v)@.contains(x) <==> old(v)@.contains(x) && x != id,
        !old(v)@.contains(id) ==> final(v)@ == old(v)@,
        final(v)@.len() <= old(v)@.len(),
{
    let mut i: usize = 0;
    while i < v.len()
        invariant
            i <= v@.len(),
            v@ == old(v)@,
            distinct_ids(v@),
            forall|k: int| 0 <= k < i ==> v@[k] != id,
        decreases v@.len() - i,
    {
        if v[i] == id {
            let ghost pre = v@;
            v.remove(i);
            assert forall|x: NodeId| v@.contains(x) <==> pre.contains(x) && x != id by {
                if v@.contains(x) {
                    let k = choose|k: int| 0 <= k < v@.len() && v@[k] == x;
                    if k < i {
                        assert(pre[k] == x);
                    } else {
                        assert(pre[k + 1] == x);
                    }
                    assert(pre.contains(x));
                    assert(x != id);
                }
                if pre.contains(x) && x != id {
                    let k = choose|k: int| 0 <= k < pre.len() && pre[k] == x;
                    if k < i {
                        assert(v@[k] == x);
                    } else {
                        assert(v@[k - 1] == x);
                    }
                }
            }
            assert forall|a: int, b: int| 0 <= a < b < v@.len() implies v@[a] != v@[b] by {
                let pa = if a < i { a } else { a + 1 };
                let pb = if b < i { b } else { b + 1 };
                assert(v@[a] == pre[pa] && v@[b] == pre[pb]);
            }
            return ;
        }
        i = i + 1;
    }
    assert(!v@.contains(id));
}

/// How many slots of `s` hold a node.
spec fn count_live<C>(s: Seq<Option<Node<C>>>) -> nat
    decreases s.len(),
{
    if s.len() == 0 {
        0
    } else {
        count_live(s.drop_last()) + live_one(s.last())
    }
}

spec fn live_one<C>(o: Option<Node<C>>) -> nat {
    if o is Some {
        1
    } else {
        0
    }
}

proof fn lemma_count_live_update<C>(s: Seq<Option<Node<C>>>, i: int, v: Option<Node<C>>)
    requires
        0 <= i < s.len(),
    ensures
        count_live(s.update(i, v)) + live_one(s[i]) == count_live(s) + live_one(v),
    decreases s.len(),
{
    let t = s.update(i, v);
    if i == s.len() - 1 {
        assert(t.drop_last() =~= s.drop_last());
        assert(t.last() == v);
    } else {
        assert(t.last() == s.last());
        assert(t.drop_last() =~= s.drop_last().update(i, v));
        lemma_count_live_update(s.drop_last(), i, v);
    }
}

impl<C> Runtime<C> {
    /// Whether `b` lies in the ownership subtree of `anc`: following parent
    /// entries from `b` reaches `anc`. Parents are older than their
    /// children, so the walk is well founded.
    pub open spec fn owned_by(&self, anc: NodeId, b: NodeId) -> bool
        decreases b.index(),
    {
        b.index() < self.n() && (match self.parent_of(b) {
            Some(p) => p.index() < b.index() && (p == anc || self.owned_by(anc, p)),
            None => false,
        })
    }

    /// An owner was created before everything it transitively owns.
    proof fn lemma_owned_by_above(&self, anc: NodeId, x: NodeId)
        requires
            self.owned_by(anc, x),
        ensures
            anc.index() < x.index(),
        decreases x.index(),
    {
        let p = self.parent_of(x)->Some_0;
        if p != anc {
            self.lemma_owned_by_above(anc, p);
        }
    }

    /// Ownership descent is unaffected by a parent entry rewritten at
    /// `cut`, for subtrees that do not pass through `cut`.
    proof fn lemma_owned_by_cut_avoid(&self, other: &Runtime<C>, cut: NodeId, anc: NodeId, x: NodeId)
        requires
            self.n() == other.n(),
            forall|i: NodeId|
                i.index() < self.n() && i.idx != cut.idx ==> self.parent_of(i) == (
                #[trigger] other.parent_of(i)),
            self.owned_by(anc, x),
            x != cut,
            !self.owned_by(cut, x),
        ensures
            other.owned_by(anc, x),
        decreases x.index(),
    {
        let p = self.parent_of(x)->Some_0;
        assert(other.parent_of(x) == self.parent_of(x));
        if p == cut {
            assert(self.owned_by(cut, x));
        }
        if p != anc {
            if self.owned_by(cut, p) {
                assert(self.owned_by(cut, x));
            }
            self.lemma_owned_by_cut_avoid(other, cut, anc, p);
        }
    }

    /// Ownership descent towards an ancestor younger than `cut` never reads
    /// the parent entry of `cut`.
    proof fn lemma_owned_by_cut_below(&self, other: &Runtime<C>, cut: NodeId, anc: NodeId, x: NodeId)
        requires
            self.n() == other.n(),
            forall|i: NodeId|
                i.index() < self.n() && i.idx != cut.idx ==> self.parent_of(i) == (
                #[trigger] other.parent_of(i)),
            self.owned_by(anc, x),
            cut.index() <= anc.index(),
        ensures
            other.owned_by(anc, x),
        decreases x.index(),
    {
        self.lemma_owned_by_above(anc, x);
        assert(x.idx != cut.idx);
        assert(other.parent_of(x) == self.parent_of(x));
        let p = self.parent_of(x)->Some_0;
        if p != anc {
            self.lemma_owned_by_cut_below(other, cut, anc, p);
        }
    }

    /// Ownership descent transfers verbatim between runtimes whose parent
    /// maps agree.
    proof fn lemma_owned_by_same_parents(&self, other: &Runtime<C>, anc: NodeId, x: NodeId)
        requires
            self.n() == other.n(),
            forall|i: NodeId|
                i.index() < self.n() ==> self.parent_of(i) == (#[trigger] other.parent_of(i)),
            self.owned_by(anc, x),
        ensures
            other.owned_by(anc, x),
        decreases x.index(),
    {
        let p = self.parent_of(x)->Some_0;
        assert(other.parent_of(x) == self.parent_of(x));
        if p != anc {
            self.lemma_owned_by_same_parents(other, anc, p);
        }
    }

    /// Every owned descendant is reached through one direct child.
    proof fn lemma_owned_by_through(&self, anc: NodeId, x: NodeId)
        requires
            self.owned_by(anc, x),
        ensures
            exists|q: NodeId|
                q.index() < self.n() && (#[trigger] self.parent_of(q)) == Some(anc) && (q == x
                    || self.owned_by(q, x)),
        decreases x.index(),
    {
        let p = self.parent_of(x)->Some_0;
        if p == anc {
            assert(self.parent_of(x) == Some(anc) && x.index() < self.n());
        } else {
            self.lemma_owned_by_through(anc, p);
            let q = choose|q: NodeId|
                q.index() < self.n() && (#[trigger] self.parent_of(q)) == Some(anc) && (q == p
                    || self.owned_by(q, p));
            assert(self.owned_by(q, x));
        }
    }

    /// One subscriber hop: `b` is a direct subscriber of `a`.
    pub open spec fn step(&self, a: NodeId, b: NodeId) -> bool {
        a.index() < self.n() && self.subs_of(a).contains(b)
    }

    /// Whether `to` is a strict descendant of `from` along subscriber edges.
    pub open spec fn reaches(&self, from: NodeId, to: NodeId) -> bool {
        exists|p: Seq<NodeId>|
            p.len() >= 2 && p[0] == from && p[p.len() - 1] == to && (forall|k: int|
                0 <= k < p.len() - 1 ==> #[trigger] self.step(p[k], p[k + 1]))
    }

    /// A node with no recorded subscribers reaches nothing over subscriber
    /// edges: marking it dirty can touch no other node.
    pub proof fn lemma_no_subscribers_unreachable(&self, root: NodeId)
        requires
            self.subs_of(root).len() == 0,
        ensures
            forall|x: NodeId| !self.reaches(root, x),
    {
        assert forall|x: NodeId| !self.reaches(root, x) by {
            if self.reaches(root, x) {
                assert(exists|p: Seq<NodeId>|
                    p.len() >= 2 && p[0] == root && p[p.len() - 1] == x && (forall|k: int|
                        0 <= k < p.len() - 1 ==> #[trigger] self.step(p[k], p[k + 1])));
                let p = choose|p: Seq<NodeId>|
                    p.len() >= 2 && p[0] == root && p[p.len() - 1] == x && (forall|k: int|
                        0 <= k < p.len() - 1 ==> #[trigger] self.step(p[k], p[k + 1]));
                assert(0 <= 0 < p.len() - 1);
                assert(self.step(p[0int], p[0int + 1]));
                assert(self.step(p[0], p[1]));
                assert(self.subs_of(root).contains(p[1]));
            }
        }
    }

    proof fn lemma_reaches_base(&self, from: NodeId, to: NodeId)
        requires
            self.step(from, to),
        ensures
            self.reaches(from, to),
    {
        let p = seq![from, to];
        assert(p.len() >= 2 && p[0] == from && p[p.len() - 1] == to);
        assert forall|k: int| 0 <= k < p.len() - 1 implies #[trigger] self.step(p[k], p[k + 1]) by {
            assert(p[0] == from && p[1] == to);
        }
    }

    proof fn lemma_reaches_step(&self, from: NodeId, mid: NodeId, to: NodeId)
        requires
            self.reaches(from, mid),
            self.step(mid, to),
        ensures
            self.reaches(from, to),
    {
        let p = choose|p: Seq<NodeId>|
            p.len() >= 2 && p[0] == from && p[p.len() - 1] == mid && (forall|k: int|
                0 <= k < p.len() - 1 ==> #[trigger] self.step(p[k], p[k + 1]));
        let q = p.push(to);
        assert(q.len() >= 2 && q[0] == from && q[q.len() - 1] == to);
        assert forall|k: int| 0 <= k < q.len() - 1 implies #[trigger] self.step(q[k], q[k + 1]) by {
            if k < p.len() - 1 {
                assert(q[k] == p[k] && q[k + 1] == p[k + 1]);
                assert(self.step(p[k], p[k + 1]));
            } else {
                assert(q[k] == mid && q[k + 1] == to);
            }
        }
    }

}

/// The exact outcome of resolving a dirty signal that owns no children:
/// each direct subscriber is escalated to dirty, the signal itself reads
/// clean, and nothing else changes.
pub open spec fn signal_resolved<C>(a: &Runtime<C>, b: &Runtime<C>, id: NodeId) -> bool {
    &&& same_but_marks(a, b)
    &&& b.pending() == a.pending()
    &&& b.state_of(id) == NodeState::Clean
    &&& (forall|x: NodeId|
        x.index() < a.n() && a.live(x) && x != id ==> (#[trigger] b.state_of(x)) == (
        if a.subs_of(id).contains(x) {
            NodeState::Dirty
        } else {
            a.state_of(x)
        }))
}

/// The exact outcome of resolving a node none of whose sources was dirty:
/// the node itself reads clean and nothing else changes.
pub open spec fn settled_clean<C>(a: &Runtime<C>, b: &Runtime<C>, id: NodeId) -> bool {
    &&& same_but_marks(a, b)
    &&& b.pending() == a.pending()
    &&& b.state_of(id) == NodeState::Clean
    &&& (forall|x: NodeId|
        x.index() < a.n() && a.live(x) && x != id ==> (#[trigger] b.state_of(x)) == a.state_of(x))
}

/// Every recorded source of `id` exists and is clean.
pub open spec fn sources_all_clean<C>(rt: &Runtime<C>, id: NodeId) -> bool {
    forall|s: NodeId|
        #[trigger] rt.srcs_of(id).contains(s) ==> rt.live(s) && rt.state_of(s) == NodeState::Clean
}

/// A duplicate-free list of ids naming slots below `n` has at most `n`
/// entries.
proof fn lemma_distinct_bounded_len(s: Seq<NodeId>, n: nat)
    requires
        distinct_ids(s),
        ids_below(s, n),
    ensures
        s.len() <= n,
    decreases n,
{
    if n == 0 {
        if s.len() > 0 {
            assert(s[0].idx < 0);
        }
    } else {
        if exists|i: int| 0 <= i < s.len() && (#[trigger] s[i]).idx + 1 == n {
            let i = choose|i: int| 0 <= i < s.len() && (#[trigger] s[i]).idx + 1 == n;
            let t = s.remove(i);
            assert forall|a: int, b: int| 0 <= a < b < t.len() implies t[a] != t[b] by {
                let pa = if a < i {
                    a
                } else {
                    a + 1
                };
                let pb = if b < i {
                    b
                } else {
                    b + 1
                };
                assert(t[a] == s[pa] && t[b] == s[pb]);
            }
            assert forall|k: int| 0 <= k < t.len() implies (#[trigger] t[k]).idx < n - 1 by {
                let pk = if k < i {
                    k
                } else {
                    k + 1
                };
                assert(t[k] == s[pk]);
                if s[pk].idx + 1 == n {
                    assert(s[pk] == (NodeId { idx: s[pk].idx }));
                    assert(s[i] == (NodeId { idx: s[i].idx }));
                    assert(s[pk] == s[i]);
                    assert(pk == i);
                    assert(false);
                }
            }
            lemma_distinct_bounded_len(t, (n - 1) as nat);
        } else {
            assert forall|k: int| 0 <= k < s.len() implies (#[trigger] s[k]).idx < n - 1 by {
                if s[k].idx + 1 == n {
                    assert(false);
                }
            }
            lemma_distinct_bounded_len(s, (n - 1) as nat);
        }
    }
}

/// Every parentless live node of `a` is still live and parentless in `b`:
/// disposal reaches nodes only through ownership, so a node owned by no
/// scope survives any sequence of public calls.
pub open spec fn orphans_kept<C>(a: &Runtime<C>, b: &Runtime<C>) -> bool {
    forall|x: NodeId|
        x.index() < a.n() && a.live(x) && a.parent_of(x) is None ==> (#[trigger] b.live(x))
            && b.parent_of(x) is None
}

/// Everything except the propagation states of live nodes and the pending
/// queue agrees between `a` and `b`.
pub open spec fn same_but_marks<C>(a: &Runtime<C>, b: &Runtime<C>) -> bool {
    &&& b.n() == a.n()
    &&& (forall|x: NodeId| x.index() < a.n() ==> (#[trigger] b.live(x)) == a.live(x))
    &&& (forall|x: NodeId|
        x.index() < a.n() && a.live(x) ==> (#[trigger] b.value_of(x)) == a.value_of(x))
    &&& (forall|x: NodeId|
        x.index() < a.n() && a.live(x) ==> (#[trigger] b.is_effect_node(x)) == a.is_effect_node(
            x,
        ))
    &&& same_edges(a, b)
    &&& same_ownership(a, b)
    &&& same_context(a, b)
}

proof fn lemma_marks_trans<C>(a: &Runtime<C>, b: &Runtime<C>, c: &Runtime<C>)
    requires
        same_but_marks(a, b),
        same_but_marks(b, c),
    ensures
        same_but_marks(a, c),
{
    assert forall|x: NodeId| x.index() < a.n() implies (#[trigger] c.live(x)) == a.live(x) by {
        assert(b.live(x) == a.live(x));
    }
    assert forall|x: NodeId| x.index() < a.n() && a.live(x) implies (#[trigger] c.value_of(x))
        == a.value_of(x) by {
        assert(b.live(x) == a.live(x));
        assert(b.value_of(x) == a.value_of(x));
    }
    assert forall|x: NodeId| x.index() < a.n() && a.live(x) implies (#[trigger] c.is_effect_node(x))
        == a.is_effect_node(x) by {
        assert(b.live(x) == a.live(x));
        assert(b.is_effect_node(x) == a.is_effect_node(x));
    }
    assert forall|x: NodeId| x.index() < a.n() implies (#[trigger] c.subs_of(x)) == a.subs_of(
        x,
    ) by {
        assert(b.subs_of(x) == a.subs_of(x));
    }
    assert forall|x: NodeId| x.index() < a.n() implies (#[trigger] c.srcs_of(x)) == a.srcs_of(
        x,
    ) by {
        assert(b.srcs_of(x) == a.srcs_of(x));
    }
    assert forall|x: NodeId| x.index() < a.n() implies (#[trigger] c.children_of(x))
        == a.children_of(x) by {
        assert(b.children_of(x) == a.children_of(x));
    }
    assert forall|x: NodeId| x.index() < a.n() implies (#[trigger] c.parent_of(x)) == a.parent_of(
        x,
    ) by {
        assert(b.parent_of(x) == a.parent_of(x));
    }
}

/// Well-formedness depends only on slot liveness, never on the stored
/// states, values or kinds, so rewriting node contents in place keeps it.
proof fn lemma_wf_nodes_only<C>(a: &Runtime<C>, b: &Runtime<C>)
    requires
        a.wf(),
        b.nodes@.len() == a.nodes@.len(),
        forall|i: int|
            0 <= i < a.nodes@.len() ==> ((#[trigger] b.nodes@[i]) is Some <==> a.nodes@[i] is Some),
        b.node_subscribers == a.node_subscribers,
        b.node_sources == a.node_sources,
        b.node_parents == a.node_parents,
        b.node_children == a.node_children,
        b.observer == a.observer,
        b.scope == a.scope,
        b.pending_effects == a.pending_effects,
    ensures
        b.wf(),
{
    let n = b.nodes@.len();
    assert forall|x: NodeId|
        x.idx < n && b.nodes@[x.idx as int] is None implies (
    #[trigger] b.node_subscribers@[x.idx as int])@.len() == 0 && b.node_sources@[x.idx
        as int]@.len() == 0 && b.node_children@[x.idx as int]@.len() == 0 && b.node_parents@[x.idx
        as int] is None by {
        assert(b.nodes@[x.idx as int] is Some <==> a.nodes@[x.idx as int] is Some);
        assert(a.nodes@[x.idx as int] is None);
        assert(a.node_subscribers@[x.idx as int]@.len() == 0);
        assert(b.node_subscribers@[x.idx as int]@.len() == 0);
    }
}

impl<C> Runtime<C> {
    /// Creates an empty runtime with no observer and no scope installed.
    pub fn new() -> (rt: Runtime<C>)
        ensures
            rt.wf(),
            rt.n() == 0,
            rt.observer_id() is None,
            rt.scope_id() is None,
            rt.pending() == Seq::<NodeId>::empty(),
    {
        let rt = Runtime {
            nodes: Vec::new(),
            node_subscribers: Vec::new(),
            node_sources: Vec::new(),
            node_parents: Vec::new(),
            node_children: Vec::new(),
            scope: None,
            observer: None,
            pending_effects: Vec::new(),
        };
        assert(rt.pending() =~= Seq::<NodeId>::empty());
        rt
    }

    /// An existing node's id indexes the arena.
    pub proof fn lemma_live_in_bounds(&self, id: NodeId)
        requires
            self.live(id),
        ensures
            id.index() < self.n(),
    {
    }

    /// Whether `id` names a node that exists now.
    pub fn is_live(&self, id: NodeId) -> (r: bool)
        ensures
            r == self.live(id),
    {
        id.idx < self.nodes.len() && self.nodes[id.idx].is_some()
    }

    /// The state of a node; a disposed or unknown id reads as clean.
    fn node_state(&self, id: NodeId) -> (s: NodeState)
        ensures
            s == if self.live(id) {
                self.state_of(id)
            } else {
                NodeState::Clean
            },
    {
        if id.idx >= self.nodes.len() {
            return NodeState::Clean;
        }
        match &self.nodes[id.idx] {
            Some(node) => node.state,
            None => NodeState::Clean,
        }
    }

    /// Returns the value of a node, if the node exists and has a value.
    pub fn get_node_value(&self, id: NodeId) -> (r: Option<Value>)
        ensures
            r == if self.live(id) {
                self.value_of(id)
            } else {
                None::<Value>
            },
    {
        if id.idx >= self.nodes.len() {
            return None;
        }
        match &self.nodes[id.idx] {
            Some(node) => match &node.value {
                Some(v) => Some(v.clone()),
                None => None,
            },
            None => None,
        }
    }

    /// Sets the state of a live node, changing nothing else.
    fn set_state(&mut self, id: NodeId, s: NodeState)
        requires
            old(self).wf(),
            old(self).live(id),
        ensures
            final(self).wf(),
            same_but_marks(old(self), final(self)),
            final(self).pending() == old(self).pending(),
            final(self).state_of(id) == s,
            forall|x: NodeId|
                x.index() < old(self).n() && old(self).live(x) && x != id ==> final(self).state_of(x) == old(self).state_of(x),
            count_live(final(self).nodes@) == count_live(old(self).nodes@),
    {
        if let Some(node) = &mut self.nodes[id.idx] {
            node.state = s;
        }
        proof {
            lemma_wf_nodes_only(&*old(self), &*self);
            assert forall|x: NodeId| x.index() < old(self).n() implies (self.live(x) == old(self).live(x)) by {
                assert(self.nodes@[id.idx as int] is Some);
            }
            let i = id.idx as int;
            assert(self.nodes@ == old(self).nodes@.update(i, self.nodes@[i]));
            lemma_count_live_update(old(self).nodes@, i, self.nodes@[i]);
        }
    }

    /// Appends an effect to the pending queue, changing nothing else.
    fn push_pending(&mut self, id: NodeId)
        requires
            old(self).wf(),
            id.index() < old(self).n(),
        ensures
            final(self).wf(),
            final(self).pending() == old(self).pending().push(id),
            final(self).nodes == old(self).nodes,
            final(self).node_subscribers == old(self).node_subscribers,
            final(self).node_sources == old(self).node_sources,
            final(self).node_children == old(self).node_children,
            final(self).node_parents == old(self).node_parents,
            same_context(old(self), final(self)),
    {
        self.pending_effects.push(id);
        proof {
            assert forall|k: int|
                0 <= k < self.pending_effects@.len() implies (
            #[trigger] self.pending_effects@[k]).idx < self.nodes@.len() by {
                if k < old(self).pending_effects@.len() {
                    assert(old(self).pending_effects@[k].idx < self.nodes@.len());
                }
            }
            assert(self.wf());
        }
    }

    /// Whether a live node is an effect.
    fn is_effect(&self, id: NodeId) -> (r: bool)
        requires
            self.live(id),
        ensures
            r == self.is_effect_node(id),
    {
        match &self.nodes[id.idx] {
            Some(node) => match &node.kind {
                NodeKind::Signal => false,
                NodeKind::Effect { .. } => true,
            },
            None => false,
        }
    }

    /// A subscriber recorded for an existing node is itself live: the
    /// adjacency rows never hold a disposed id, because disposal purges the
    /// disposed node from both rows of every partner it touched.
    pub proof fn lemma_subs_live(&self, a: NodeId, b: NodeId)
        requires
            self.wf(),
            a.index() < self.n(),
            self.subs_of(a).contains(b),
        ensures
            b.index() < self.n(),
            self.live(b),
    {
        let n = self.nodes@.len();
        let k = choose|k: int|
            0 <= k < self.subs_of(a).len() && self.subs_of(a)[k] == b;
        assert(row_ok(self.node_subscribers@[a.idx as int]@, n));
        assert(self.node_subscribers@[a.idx as int]@[k].idx < n);
        assert(self.node_sources@[b.idx as int]@.contains(a));
        if self.nodes@[b.idx as int] is None {
            assert(self.node_subscribers@[b.idx as int]@.len() == 0);
            assert(self.node_sources@[b.idx as int]@.len() == 0);
            assert(false);
        }
    }

    /// A source recorded for an existing node is itself live: the mirror
    /// image of [`Self::lemma_subs_live`].
    pub proof fn lemma_srcs_live(&self, a: NodeId, b: NodeId)
        requires
            self.wf(),
            a.index() < self.n(),
            self.srcs_of(a).contains(b),
        ensures
            b.index() < self.n(),
            self.live(b),
    {
        let n = self.nodes@.len();
        let k = choose|k: int| 0 <= k < self.srcs_of(a).len() && self.srcs_of(a)[k] == b;
        assert(row_ok(self.node_sources@[a.idx as int]@, n));
        assert(self.node_sources@[a.idx as int]@[k].idx < n);
        assert(self.node_subscribers@[b.idx as int]@.contains(a));
        if self.nodes@[b.idx as int] is None {
            assert(self.node_subscribers@[b.idx as int]@.len() == 0);
            assert(false);
        }
    }

    /// Marks the node dirty. All of its descendants in the subscriber
    /// hierarchy are promoted to check, i.e. they will be re-run only if one
    /// of their sources actually changes.
    ///
    /// Each reachable descendant found clean or dirty is visited exactly
    /// once: a clean one is promoted to check, a dirty one keeps its state,
    /// and either way a visited effect other than the node currently
    /// observing is appended to the pending queue and its subscribers are
    /// traversed, so a dirty effect left unqueued by an earlier flush is
    /// picked up by the next pass. Nodes already at check or dirty-marked
    /// are skipped together with their subtrees, which were marked when they
    /// left the clean state. Traversal order across sibling subscribers is
    /// unspecified: only the set of nodes that leave the clean state, and
    /// the set appended to the queue, are promised.
    #[verifier::rlimit(100)]
    #[verifier::spinoff_prover]
    pub fn mark_descendants_dirty(&mut self, root_id: NodeId)
        requires
            old(self).wf(),
        ensures
            final(self).wf(),
            same_but_marks(old(self), final(self)),
            old(self).pending().is_prefix_of(final(self).pending()),
            (!old(self).live(root_id) || old(self).state_of(root_id) == NodeState::DirtyMarked)
                ==> *final(self) == *old(self),
            old(self).live(root_id) && old(self).state_of(root_id) != NodeState::DirtyMarked
                ==> final(self).state_of(root_id) == NodeState::DirtyMarked,
            forall|x: NodeId|
                x.index() < old(self).n() && old(self).live(x) && x != root_id ==> ((#[trigger] final(self).state_of(x))
                    == old(self).state_of(x) || (old(self).state_of(x) == NodeState::Clean
                    && final(self).state_of(x) == NodeState::Check)),
            forall|x: NodeId|
                x.index() < old(self).n() && old(self).live(x) ==> rank(
                    #[trigger] final(self).state_of(x),
                ) >= rank(old(self).state_of(x)),
            forall|x: NodeId|
                x.index() < old(self).n() && old(self).live(x) && x != root_id && final(self).state_of(x)
                    != old(self).state_of(x) ==> old(self).reaches(root_id, x),
            forall|x: NodeId|
                final(self).pending().contains(x) ==> old(self).pending().contains(x) || (old(self).reaches(root_id, x)
                    && old(self).live(x) && x != root_id && (old(self).state_of(x)
                    == NodeState::Clean || old(self).state_of(x) == NodeState::Dirty) && old(self).is_effect_node(x) && old(self).observer_id()
                    != Some(x)),
            forall|x: NodeId|
                x.index() < old(self).n() && old(self).live(x) && x != root_id && old(self).state_of(x)
                    == NodeState::Clean && final(self).state_of(x) == NodeState::Check && old(self).is_effect_node(x)
                    && old(self).observer_id() != Some(x) ==> final(self).pending().contains(x),
            old(self).live(root_id) && old(self).state_of(root_id) != NodeState::DirtyMarked
                ==> forall|x: NodeId|
                old(self).subs_of(root_id).contains(x) && x != root_id && old(self).state_of(x)
                    == NodeState::Dirty && old(self).is_effect_node(x) && old(self).observer_id()
                    != Some(x) ==> final(self).pending().contains(x),
            old(self).live(root_id) && old(self).state_of(root_id) != NodeState::DirtyMarked
                ==> forall|x: NodeId|
                old(self).subs_of(root_id).contains(x) ==> rank(#[trigger] final(self).state_of(x))
                    >= 1,
            forall|j: int|
                old(self).pending().len() <= j < final(self).pending().len() ==> old(self).reaches(
                    root_id,
                    #[trigger] final(self).pending()[j],
                ) && old(self).live(final(self).pending()[j]) && final(self).pending()[j]
                    != root_id && (old(self).state_of(final(self).pending()[j])
                    == NodeState::Clean || old(self).state_of(final(self).pending()[j])
                    == NodeState::Dirty) && old(self).is_effect_node(final(self).pending()[j])
                    && old(self).observer_id() != Some(final(self).pending()[j]),
            forall|i: int, j: int|
                old(self).pending().len() <= i < j < final(self).pending().len() ==> final(self).pending()[i] != final(self).pending()[j],
            old(self).live(root_id) && old(self).state_of(root_id) != NodeState::DirtyMarked
                ==> (forall|y: NodeId, z: NodeId|
                y.index() < old(self).n() && old(self).live(y) && old(self).state_of(y)
                    == NodeState::Clean && final(self).state_of(y) == NodeState::Check && (
                #[trigger] old(self).subs_of(y).contains(z)) ==> rank(final(self).state_of(z))
                    >= 1),
    {
        if root_id.idx >= self.nodes.len() {
            return ;
        }
        if self.nodes[root_id.idx].is_none() {
            return ;
        }
        let root_state = self.node_state(root_id);
        if root_state == NodeState::DirtyMarked {
            return ;
        }
        self.set_state(root_id, NodeState::DirtyMarked);
        let mut stack: Vec<NodeId> = clone_ids(&self.node_subscribers[root_id.idx]);
        let mut visited: Vec<NodeId> = Vec::new();
        proof {
            assert(self.subs_of(root_id) == old(self).subs_of(root_id));
            assert(stack@ == old(self).subs_of(root_id));
            assert forall|k: int| 0 <= k < stack@.len() implies old(self).reaches(
                root_id,
                #[trigger] stack@[k],
            ) by {
                assert(old(self).subs_of(root_id).contains(stack@[k]));
                old(self).lemma_reaches_base(root_id, stack@[k]);
            }
            assert forall|x: NodeId|
                old(self).subs_of(root_id).contains(x) && x != root_id implies stack@.contains(x)
                    || visited@.contains(x) || old(self).state_of(x) == NodeState::Check || old(self).state_of(x) == NodeState::DirtyMarked by {}
            assert forall|y: NodeId, z: NodeId|
                y.index() < old(self).n() && old(self).live(y) && old(self).state_of(y)
                    == NodeState::Clean && self.state_of(y) == NodeState::Check && (
            #[trigger] old(self).subs_of(y).contains(z)) implies stack@.contains(z) || rank(
                self.state_of(z),
            ) >= 1 by {
                if y != root_id {
                    assert(self.state_of(y) == old(self).state_of(y));
                }
            }
        }
        while stack.len() > 0
            invariant
                old(self).wf(),
                old(self).live(root_id),
                root_id.index() < old(self).n(),
                self.wf(),
                same_but_marks(old(self), self),
                self.state_of(root_id) == NodeState::DirtyMarked,
                old(self).pending().is_prefix_of(self.pending()),
                ids_below(stack@, old(self).n()),
                forall|k: int|
                    0 <= k < stack@.len() ==> old(self).reaches(root_id, #[trigger] stack@[k]),
                forall|x: NodeId|
                    x.index() < old(self).n() && old(self).live(x) && x != root_id ==> ((
                    #[trigger] self.state_of(x)) == old(self).state_of(x) || (old(self).state_of(x)
                        == NodeState::Clean && self.state_of(x) == NodeState::Check)),
                forall|x: NodeId|
                    x.index() < old(self).n() && old(self).live(x) && x != root_id
                        && #[trigger] self.state_of(x) != old(self).state_of(x) ==> old(self).reaches(root_id, x),
                forall|x: NodeId|
                    self.pending().contains(x) ==> old(self).pending().contains(x) || (old(self).reaches(root_id, x)
                        && old(self).live(x) && x != root_id && (old(self).state_of(x)
                        == NodeState::Clean || old(self).state_of(x) == NodeState::Dirty) && old(self).is_effect_node(x)
                        && old(self).observer_id() != Some(x)),
                forall|x: NodeId|
                    x.index() < old(self).n() && old(self).live(x) && x != root_id && old(self).state_of(x)
                        == NodeState::Clean && #[trigger] self.state_of(x) == NodeState::Check
                        && old(self).is_effect_node(x) && old(self).observer_id() != Some(x)
                        ==> self.pending().contains(x),
                forall|j: int|
                    old(self).pending().len() <= j < self.pending().len() ==> old(self).reaches(
                        root_id,
                        #[trigger] self.pending()[j],
                    ) && old(self).live(self.pending()[j]) && self.pending()[j] != root_id && (old(self).state_of(self.pending()[j]) == NodeState::Clean || old(self).state_of(
                        self.pending()[j],
                    ) == NodeState::Dirty) && old(self).is_effect_node(self.pending()[j]) && old(self).observer_id() != Some(self.pending()[j]),
                forall|j: int|
                    old(self).pending().len() <= j < self.pending().len() ==> visited@.contains(
                        #[trigger] self.pending()[j],
                    ),
                forall|i: int, j: int|
                    old(self).pending().len() <= i < j < self.pending().len() ==> self.pending()[i]
                        != self.pending()[j],
                distinct_ids(visited@),
                ids_below(visited@, old(self).n()),
                visited@.len() <= old(self).n(),
                forall|k: int|
                    0 <= k < visited@.len() ==> old(self).live(#[trigger] visited@[k])
                        && visited@[k] != root_id && (old(self).state_of(visited@[k])
                        == NodeState::Clean || old(self).state_of(visited@[k])
                        == NodeState::Dirty) && old(self).reaches(root_id, visited@[k]) && rank(
                        self.state_of(visited@[k]),
                    ) >= 1 && ((old(self).is_effect_node(visited@[k]) && old(self).observer_id()
                        != Some(visited@[k])) ==> self.pending().contains(visited@[k])),
                forall|x: NodeId|
                    x.index() < old(self).n() && old(self).live(x) && x != root_id && old(self).state_of(x)
                        == NodeState::Clean && #[trigger] self.state_of(x) == NodeState::Check
                        ==> visited@.contains(x),
                forall|x: NodeId|
                    old(self).subs_of(root_id).contains(x) && x != root_id ==> stack@.contains(x)
                        || visited@.contains(x) || old(self).state_of(x) == NodeState::Check || old(self).state_of(x) == NodeState::DirtyMarked,
                forall|y: NodeId, z: NodeId|
                    y.index() < old(self).n() && old(self).live(y) && old(self).state_of(y)
                        == NodeState::Clean && self.state_of(y) == NodeState::Check && (
                    #[trigger] old(self).subs_of(y).contains(z)) ==> stack@.contains(z) || rank(
                        self.state_of(z),
                    ) >= 1,
            decreases old(self).n() - visited@.len(), stack@.len(),
        {
            let ghost pre_stack = stack@;
            let ghost pre_rt = *self;
            let ghost pre_visited = visited@;
            let id = stack.pop().unwrap();
            assert(pre_stack.contains(id)) by {
                assert(pre_stack[pre_stack.len() - 1] == id);
            }
            proof {
                assert forall|x: NodeId|
                    pre_stack.contains(x) implies stack@.contains(x) || x == id by {
                    let k = choose|k: int| 0 <= k < pre_stack.len() && pre_stack[k] == x;
                    if k < pre_stack.len() - 1 {
                        assert(stack@[k] == x);
                    }
                }
            }
            if id.idx >= self.nodes.len() {
                proof {
                    assert forall|x: NodeId|
                        old(self).subs_of(root_id).contains(x) && x != root_id implies stack@.contains(x) || visited@.contains(x) || old(self).state_of(x) == NodeState::Check
                        || old(self).state_of(x) == NodeState::DirtyMarked by {
                        if !stack@.contains(x) && !visited@.contains(x) && pre_stack.contains(x)
                            && x == id {
                            old(self).lemma_subs_live(root_id, x);
                            assert(old(self).live(id));
                            assert(self.n() == old(self).n());
                            assert(self.live(id));
                            assert(false);
                        }
                    }
                    assert forall|y: NodeId, z: NodeId|
                        y.index() < old(self).n() && old(self).live(y) && old(self).state_of(y)
                            == NodeState::Clean && self.state_of(y) == NodeState::Check && (
                    #[trigger] old(self).subs_of(y).contains(z)) implies stack@.contains(z) || rank(
                        self.state_of(z),
                    ) >= 1 by {
                        if !stack@.contains(z) && rank(self.state_of(z)) < 1 {
                            assert(pre_stack.contains(z));
                            assert(z == id);
                            old(self).lemma_subs_live(y, z);
                            assert(old(self).live(id));
                            assert(self.n() == old(self).n());
                            assert(self.live(id));
                            assert(false);
                        }
                    }
                }
                continue ;
            }
            if self.nodes[id.idx].is_none() {
                proof {
                    assert forall|x: NodeId|
                        old(self).subs_of(root_id).contains(x) && x != root_id implies stack@.contains(x) || visited@.contains(x) || old(self).state_of(x) == NodeState::Check
                        || old(self).state_of(x) == NodeState::DirtyMarked by {
                        if !stack@.contains(x) && !visited@.contains(x) && pre_stack.contains(x)
                            && x == id {
                            old(self).lemma_subs_live(root_id, x);
                            assert(old(self).live(id));
                            assert(self.live(id));
                            assert(false);
                        }
                    }
                    assert forall|y: NodeId, z: NodeId|
                        y.index() < old(self).n() && old(self).live(y) && old(self).state_of(y)
                            == NodeState::Clean && self.state_of(y) == NodeState::Check && (
                    #[trigger] old(self).subs_of(y).contains(z)) implies stack@.contains(z) || rank(
                        self.state_of(z),
                    ) >= 1 by {
                        if !stack@.contains(z) && rank(self.state_of(z)) < 1 {
                            assert(pre_stack.contains(z));
                            assert(z == id);
                            old(self).lemma_subs_live(y, z);
                            assert(old(self).live(id));
                            assert(self.live(id));
                            assert(false);
                        }
                    }
                }
                continue ;
            }
            if contains_id(&visited, id) {
                proof {
                    let kv = choose|kv: int|
                        0 <= kv < visited@.len() && visited@[kv] == id;
                    assert(rank(self.state_of(id)) >= 1);
                    assert forall|y: NodeId, z: NodeId|
                        y.index() < old(self).n() && old(self).live(y) && old(self).state_of(y)
                            == NodeState::Clean && self.state_of(y) == NodeState::Check && (
                    #[trigger] old(self).subs_of(y).contains(z)) implies stack@.contains(z) || rank(
                        self.state_of(z),
                    ) >= 1 by {
                        if !stack@.contains(z) && rank(self.state_of(z)) < 1 {
                            assert(pre_stack.contains(z));
                            assert(z == id);
                            assert(false);
                        }
                    }
                }
                continue ;
            }
            let state = self.node_state(id);
            if state == NodeState::Check || state == NodeState::DirtyMarked {
                proof {
                    assert(self.live(id));
                    assert(old(self).live(id));
                    assert forall|x: NodeId|
                        old(self).subs_of(root_id).contains(x) && x != root_id implies stack@.contains(x) || visited@.contains(x) || old(self).state_of(x) == NodeState::Check
                        || old(self).state_of(x) == NodeState::DirtyMarked by {
                        if !stack@.contains(x) && !visited@.contains(x) && pre_stack.contains(x)
                            && x == id {
                            assert(self.state_of(id) == state);
                            if state == NodeState::Check {
                                if old(self).state_of(id) != NodeState::Check {
                                    assert(old(self).state_of(id) == NodeState::Clean);
                                    assert(visited@.contains(id));
                                    assert(false);
                                }
                            } else {
                                assert(old(self).state_of(id) == NodeState::DirtyMarked);
                            }
                        }
                    }
                    assert forall|y: NodeId, z: NodeId|
                        y.index() < old(self).n() && old(self).live(y) && old(self).state_of(y)
                            == NodeState::Clean && self.state_of(y) == NodeState::Check && (
                    #[trigger] old(self).subs_of(y).contains(z)) implies stack@.contains(z) || rank(
                        self.state_of(z),
                    ) >= 1 by {
                        if !stack@.contains(z) && rank(self.state_of(z)) < 1 {
                            assert(pre_stack.contains(z));
                            assert(z == id);
                            assert(self.state_of(id) == state);
                            assert(false);
                        }
                    }
                }
                continue ;
            }
            assert(id != root_id);
            proof {
                assert(self.live(id));
                assert(old(self).live(id));
                assert(pre_rt.state_of(id) == state);
                assert(old(self).state_of(id) == NodeState::Clean || old(self).state_of(id)
                    == NodeState::Dirty);
                let grown = visited@.push(id);
                assert forall|a: int, b: int| 0 <= a < b < grown.len() implies grown[a]
                    != grown[b] by {
                    if b == grown.len() - 1 {
                        assert(grown[a] == visited@[a]);
                        assert(visited@.contains(visited@[a]));
                    }
                }
                assert forall|k: int| 0 <= k < grown.len() implies (#[trigger] grown[k]).idx < old(self).n() by {
                    if k < visited@.len() {
                        assert(grown[k] == visited@[k]);
                    } else {
                        assert(grown[k] == id);
                    }
                }
                lemma_distinct_bounded_len(grown, old(self).n());
            }
            visited.push(id);
            if state == NodeState::Clean {
                self.set_state(id, NodeState::Check);
            }
            let ghost after_set = *self;
            let is_effect_node = self.is_effect(id);
            let is_observer = match self.observer {
                Some(o) => o == id,
                None => false,
            };
            if is_effect_node && !is_observer {
                self.push_pending(id);
            }
            proof {
                assert(pre_stack[pre_stack.len() - 1] == id);
                assert(id.idx < old(self).n());
                assert(after_set.subs_of(id) == pre_rt.subs_of(id));
                assert(self.subs_of(id) == after_set.subs_of(id));
                assert(pre_rt.subs_of(id) == old(self).subs_of(id));
                assert forall|x: NodeId|
                    x.index() < old(self).n() && pre_rt.live(x) && x != id implies (
                #[trigger] self.state_of(x)) == pre_rt.state_of(x) by {
                    assert(after_set.state_of(x) == pre_rt.state_of(x));
                }
                assert(rank(self.state_of(id)) >= 1);
            }
            let mut row = clone_ids(&self.node_subscribers[id.idx]);
            proof {
                assert(row@ == old(self).subs_of(id));
                assert forall|k: int| 0 <= k < row@.len() implies old(self).reaches(
                    root_id,
                    #[trigger] row@[k],
                ) by {
                    assert(old(self).subs_of(id).contains(row@[k]));
                    assert(old(self).step(id, row@[k]));
                    old(self).lemma_reaches_step(root_id, id, row@[k]);
                }
                assert forall|k: int| 0 <= k < row@.len() implies (#[trigger] row@[k]).idx < old(self).n() by {
                    assert(old(self).subs_of(id).contains(row@[k]));
                    old(self).lemma_subs_live(id, row@[k]);
                }
            }
            let ghost pre_append = stack@;
            stack.append(&mut row);
            proof {
                assert(stack@ == pre_append + old(self).subs_of(id));
                assert(same_but_marks(&pre_rt, &after_set));
                assert(same_but_marks(&after_set, self));
                lemma_marks_trans(&pre_rt, &after_set, self);
                lemma_marks_trans(old(self), &pre_rt, self);
                assert(self.is_effect_node(id) == old(self).is_effect_node(id));
                assert(self.observer_id() == old(self).observer_id());
                assert(old(self).reaches(root_id, id));
                if self.pending() == pre_rt.pending().push(id) {
                    assert(self.pending()[self.pending().len() - 1] == id);
                    assert(self.pending().contains(id));
                }
                assert forall|x: NodeId|
                    pre_rt.pending().contains(x) implies self.pending().contains(x) by {
                    let k = choose|k: int|
                        0 <= k < pre_rt.pending().len() && pre_rt.pending()[k] == x;
                    assert(self.pending()[k] == x);
                }
                assert(old(self).pending().is_prefix_of(self.pending())) by {
                    assert(old(self).pending().is_prefix_of(pre_rt.pending()));
                    assert(pre_rt.pending().is_prefix_of(self.pending())) by {
                        if self.pending() != pre_rt.pending() {
                            assert(self.pending() == pre_rt.pending().push(id));
                            assert(pre_rt.pending() =~= self.pending().subrange(
                                0,
                                pre_rt.pending().len() as int,
                            ));
                        }
                    }
                    assert(old(self).pending() =~= self.pending().subrange(
                        0,
                        old(self).pending().len() as int,
                    ));
                }
                assert forall|x: NodeId|
                    x.index() < old(self).n() && old(self).live(x) && x != root_id && old(self).state_of(x) == NodeState::Clean && #[trigger] self.state_of(x)
                        == NodeState::Check && old(self).is_effect_node(x) && old(self).observer_id() != Some(x) implies self.pending().contains(x) by {
                    if x == id {
                        assert(self.pending().contains(id));
                    } else {
                        assert(self.state_of(x) == pre_rt.state_of(x));
                        assert(pre_rt.pending().contains(x));
                    }
                }
                assert forall|x: NodeId|
                    self.pending().contains(x) implies old(self).pending().contains(x) || (old(self).reaches(root_id, x) && old(self).live(x) && x != root_id && (old(self).state_of(
                        x,
                    ) == NodeState::Clean || old(self).state_of(x) == NodeState::Dirty) && old(self).is_effect_node(x) && old(self).observer_id() != Some(x)) by {
                    if !pre_rt.pending().contains(x) {
                        assert(x == id) by {
                            let k = choose|k: int|
                                0 <= k < self.pending().len() && self.pending()[k] == x;
                            assert(self.pending() == pre_rt.pending().push(id));
                            if k < pre_rt.pending().len() {
                                assert(pre_rt.pending()[k] == x);
                            }
                        }
                    }
                }
                assert forall|j: int|
                    old(self).pending().len() <= j < self.pending().len() implies old(self).reaches(
                        root_id,
                        #[trigger] self.pending()[j],
                    ) && old(self).live(self.pending()[j]) && self.pending()[j] != root_id && (old(self).state_of(self.pending()[j]) == NodeState::Clean || old(self).state_of(
                        self.pending()[j],
                    ) == NodeState::Dirty) && old(self).is_effect_node(self.pending()[j]) && old(self).observer_id() != Some(self.pending()[j]) by {
                    if j < pre_rt.pending().len() {
                        assert(self.pending()[j] == pre_rt.pending()[j]);
                    } else {
                        assert(self.pending() == pre_rt.pending().push(id));
                        assert(self.pending()[j] == id);
                    }
                }
                assert forall|j: int|
                    old(self).pending().len() <= j < self.pending().len() implies visited@.contains(
                        #[trigger] self.pending()[j],
                    ) by {
                    if j < pre_rt.pending().len() {
                        assert(self.pending()[j] == pre_rt.pending()[j]);
                        assert(pre_visited.contains(pre_rt.pending()[j]));
                        let k = choose|k: int|
                            0 <= k < pre_visited.len() && pre_visited[k] == self.pending()[j];
                        assert(visited@[k] == self.pending()[j]);
                    } else {
                        assert(self.pending() == pre_rt.pending().push(id));
                        assert(self.pending()[j] == id);
                        assert(visited@[visited@.len() - 1] == id);
                    }
                }
                assert forall|i: int, j: int|
                    old(self).pending().len() <= i < j < self.pending().len() implies self.pending()[i] != self.pending()[j] by {
                    if j < pre_rt.pending().len() {
                        assert(self.pending()[i] == pre_rt.pending()[i]);
                        assert(self.pending()[j] == pre_rt.pending()[j]);
                    } else {
                        assert(self.pending() == pre_rt.pending().push(id));
                        assert(self.pending()[j] == id);
                        assert(self.pending()[i] == pre_rt.pending()[i]);
                        assert(pre_visited.contains(pre_rt.pending()[i]));
                        assert(!pre_visited.contains(id));
                    }
                }
                assert forall|k: int|
                    0 <= k < visited@.len() implies old(self).live(#[trigger] visited@[k])
                        && visited@[k] != root_id && (old(self).state_of(visited@[k])
                        == NodeState::Clean || old(self).state_of(visited@[k])
                        == NodeState::Dirty) && old(self).reaches(root_id, visited@[k]) && rank(
                        self.state_of(visited@[k]),
                    ) >= 1 && ((old(self).is_effect_node(visited@[k]) && old(self).observer_id()
                        != Some(visited@[k])) ==> self.pending().contains(visited@[k])) by {
                    if k < pre_visited.len() {
                        assert(visited@[k] == pre_visited[k]);
                        let v = pre_visited[k];
                        assert(v != id);
                        assert(pre_rt.live(v));
                        assert(self.state_of(v) == pre_rt.state_of(v));
                        if old(self).is_effect_node(v) && old(self).observer_id() != Some(v) {
                            assert(pre_rt.pending().contains(v));
                        }
                    } else {
                        assert(visited@[k] == id);
                    }
                }
                assert forall|x: NodeId|
                    x.index() < old(self).n() && old(self).live(x) && x != root_id && old(self).state_of(x) == NodeState::Clean && #[trigger] self.state_of(x)
                        == NodeState::Check implies visited@.contains(x) by {
                    if x == id {
                        assert(visited@[visited@.len() - 1] == id);
                    } else {
                        assert(self.state_of(x) == pre_rt.state_of(x));
                        assert(pre_visited.contains(x));
                        let k = choose|k: int| 0 <= k < pre_visited.len() && pre_visited[k] == x;
                        assert(visited@[k] == x);
                    }
                }
                assert forall|x: NodeId|
                    old(self).subs_of(root_id).contains(x) && x != root_id implies stack@.contains(
                        x,
                    ) || visited@.contains(x) || old(self).state_of(x) == NodeState::Check || old(self).state_of(x) == NodeState::DirtyMarked by {
                    if pre_stack.contains(x) {
                        if x == id {
                            assert(visited@[visited@.len() - 1] == id);
                        } else {
                            let k = choose|k: int|
                                0 <= k < pre_stack.len() && pre_stack[k] == x;
                            assert(k < pre_stack.len() - 1);
                            assert(pre_append[k] == x);
                            assert(stack@[k] == x);
                        }
                    } else if pre_visited.contains(x) {
                        let k = choose|k: int| 0 <= k < pre_visited.len() && pre_visited[k] == x;
                        assert(visited@[k] == x);
                    }
                }
                assert forall|y: NodeId, z: NodeId|
                    y.index() < old(self).n() && old(self).live(y) && old(self).state_of(y)
                        == NodeState::Clean && self.state_of(y) == NodeState::Check && (
                #[trigger] old(self).subs_of(y).contains(z)) implies stack@.contains(z) || rank(
                    self.state_of(z),
                ) >= 1 by {
                    if y == id {
                        let k = choose|k: int|
                            0 <= k < old(self).subs_of(id).len() && old(self).subs_of(id)[k] == z;
                        assert(stack@[pre_append.len() + k] == z);
                        assert(stack@.contains(z));
                    } else {
                        assert(pre_rt.live(y));
                        assert(self.state_of(y) == pre_rt.state_of(y));
                        assert(pre_stack.contains(z) || rank(pre_rt.state_of(z)) >= 1);
                        if pre_stack.contains(z) {
                            if z == id {
                                assert(rank(self.state_of(id)) >= 1);
                            } else {
                                let k2 = choose|k2: int|
                                    0 <= k2 < pre_stack.len() && pre_stack[k2] == z;
                                assert(k2 < pre_stack.len() - 1);
                                assert(pre_append[k2] == z);
                                assert(stack@[k2] == z);
                            }
                        } else {
                            if z == id {
                                assert(rank(self.state_of(id)) >= 1);
                            } else {
                                old(self).lemma_subs_live(y, z);
                                assert(pre_rt.live(z));
                                assert(self.state_of(z) == pre_rt.state_of(z));
                            }
                        }
                    }
                }
            }
        }
        proof {
            if old(self).live(root_id) && old(self).state_of(root_id) != NodeState::DirtyMarked {
                assert forall|x: NodeId|
                    old(self).subs_of(root_id).contains(x) implies rank(
                        #[trigger] self.state_of(x),
                    ) >= 1 by {
                    old(self).lemma_subs_live(root_id, x);
                    if x == root_id {
                        assert(self.state_of(root_id) == NodeState::DirtyMarked);
                    } else {
                        assert(!stack@.contains(x)) by {
                            if stack@.contains(x) {
                                let k = choose|k: int|
                                    0 <= k < stack@.len() && stack@[k] == x;
                                assert(false);
                            }
                        }
                        if visited@.contains(x) {
                            let k = choose|k: int|
                                0 <= k < visited@.len() && visited@[k] == x;
                            assert(rank(self.state_of(visited@[k])) >= 1);
                        } else {
                            assert(old(self).state_of(x) == NodeState::Check || old(self).state_of(
                                x,
                            ) == NodeState::DirtyMarked);
                            assert(rank(self.state_of(x)) >= rank(old(self).state_of(x)));
                        }
                    }
                }
                assert forall|x: NodeId|
                    old(self).subs_of(root_id).contains(x) && x != root_id && old(self).state_of(x)
                        == NodeState::Dirty && old(self).is_effect_node(x) && old(self).observer_id() != Some(x) implies self.pending().contains(x) by {
                    old(self).lemma_subs_live(root_id, x);
                    assert(!stack@.contains(x)) by {
                        if stack@.contains(x) {
                            let k = choose|k: int| 0 <= k < stack@.len() && stack@[k] == x;
                            assert(false);
                        }
                    }
                    assert(visited@.contains(x));
                    let k = choose|k: int| 0 <= k < visited@.len() && visited@[k] == x;
                    assert(self.pending().contains(visited@[k]));
                }
            }
        }
    }

    /// Removes one node from the store and purges it symmetrically from
    /// every adjacency row of every partner it touches.
    ///
    /// Called by the disposal pass once the node's own children row has been
    /// drained and no children row lists it any more.
    fn detach_node(&mut self, child: NodeId)
        requires
            old(self).wf_core(),
            old(self).live(child),
            forall|a: NodeId|
                a.idx < old(self).n() ==> !(#[trigger] old(self).node_children@[a.idx
                    as int])@.contains(child),
            old(self).node_children@[child.idx as int]@.len() == 0,
        ensures
            final(self).wf_core(),
            final(self).nodes@ == old(self).nodes@.update(child.idx as int, None::<Node<C>>),
            final(self).node_children == old(self).node_children,
            final(self).node_parents@ == old(self).node_parents@.update(
                child.idx as int,
                None::<NodeId>,
            ),
            final(self).observer == old(self).observer,
            final(self).scope == old(self).scope,
            final(self).pending_effects == old(self).pending_effects,
            forall|b: NodeId, x: NodeId|
                b.idx < old(self).n() ==> ((#[trigger] final(self).node_sources@[b.idx
                    as int]@.contains(x)) <==> old(self).node_sources@[b.idx as int]@.contains(x)
                    && x != child && b != child),
            forall|b: NodeId, x: NodeId|
                b.idx < old(self).n() ==> ((#[trigger] final(self).node_subscribers@[b.idx
                    as int]@.contains(x)) <==> old(self).node_subscribers@[b.idx
                    as int]@.contains(x) && x != child && b != child),
            count_live(final(self).nodes@) + 1 == count_live(old(self).nodes@),
    {
        let ghost n = old(self).n();
        let subs_row = clone_ids(&self.node_subscribers[child.idx]);
        let ghost s_row = subs_row@;
        self.node_subscribers[child.idx] = Vec::new();
        let srcs_row = clone_ids(&self.node_sources[child.idx]);
        let ghost t_row = srcs_row@;
        self.node_sources[child.idx] = Vec::new();
        proof {
            assert(distinct_ids(s_row) && ids_below(s_row, n));
            assert(distinct_ids(t_row) && ids_below(t_row, n));
        }
        let mut k: usize = 0;
        while k < subs_row.len()
            invariant
                old(self).wf_core(),
                old(self).live(child),
                child.idx < n,
                k <= s_row.len(),
                subs_row@ == s_row,
                distinct_ids(s_row),
                ids_below(s_row, n),
                s_row == old(self).node_subscribers@[child.idx as int]@,
                t_row == old(self).node_sources@[child.idx as int]@,
                self.nodes == old(self).nodes,
                self.node_children == old(self).node_children,
                self.node_parents == old(self).node_parents,
                self.observer == old(self).observer,
                self.scope == old(self).scope,
                self.pending_effects == old(self).pending_effects,
                self.node_subscribers@.len() == n,
                self.node_sources@.len() == n,
                self.node_subscribers@[child.idx as int]@.len() == 0,
                self.node_sources@[child.idx as int]@.len() == 0,
                forall|i: int|
                    0 <= i < n && i != child.idx as int ==> (#[trigger] self.node_subscribers@[i])
                        == old(self).node_subscribers@[i],
                forall|i: int|
                    0 <= i < n ==> row_ok((#[trigger] self.node_sources@[i])@, n),
                forall|b: NodeId, x: NodeId|
                    b.idx < n && x != child ==> ((#[trigger] self.node_sources@[b.idx
                        as int]@.contains(x)) <==> old(self).node_sources@[b.idx
                        as int]@.contains(x) && b != child),
                forall|b: NodeId|
                    b.idx < n && (#[trigger] self.node_sources@[b.idx as int]@.contains(child))
                        ==> exists|j: int| k <= j < s_row.len() && s_row[j] == b,
            decreases subs_row@.len() - k,
        {
            let b = subs_row[k];
            let ghost pre = *self;
            remove_id(&mut self.node_sources[b.idx], child);
            proof {
                assert(self.node_sources@ == pre.node_sources@.update(
                    b.idx as int,
                    self.node_sources@[b.idx as int],
                ));
                assert forall|i: int| 0 <= i < n implies row_ok(
                    (#[trigger] self.node_sources@[i])@,
                    n,
                ) by {
                    assert(row_ok(pre.node_sources@[i]@, n));
                    if i == b.idx as int {
                        assert forall|k3: int|
                            0 <= k3 < self.node_sources@[i]@.len() implies (
                        #[trigger] self.node_sources@[i]@[k3]).idx < n by {
                            let y = self.node_sources@[i]@[k3];
                            assert(self.node_sources@[i]@.contains(y));
                            assert(pre.node_sources@[i]@.contains(y));
                            let k4 = choose|k4: int|
                                0 <= k4 < pre.node_sources@[i]@.len() && pre.node_sources@[i]@[k4]
                                    == y;
                            assert(pre.node_sources@[i]@[k4].idx < n);
                        }
                    } else {
                        assert(self.node_sources@[i] == pre.node_sources@[i]);
                    }
                }
                assert forall|b2: NodeId|
                    b2.idx < n && (#[trigger] self.node_sources@[b2.idx as int]@.contains(
                        child,
                    )) implies exists|j: int| k + 1 <= j < s_row.len() && s_row[j] == b2 by {
                    assert(pre.node_sources@[b2.idx as int]@.contains(child));
                    let j = choose|j: int| k <= j < s_row.len() && s_row[j] == b2;
                    if j == k {
                        assert(b2 == b);
                        assert(!self.node_sources@[b.idx as int]@.contains(child));
                    } else {
                        assert(k + 1 <= j < s_row.len() && s_row[j] == b2);
                    }
                }
            }
            k = k + 1;
        }
        let mut k2: usize = 0;
        while k2 < srcs_row.len()
            invariant
                old(self).wf_core(),
                old(self).live(child),
                child.idx < n,
                k2 <= t_row.len(),
                srcs_row@ == t_row,
                distinct_ids(t_row),
                ids_below(t_row, n),
                s_row == old(self).node_subscribers@[child.idx as int]@,
                t_row == old(self).node_sources@[child.idx as int]@,
                self.nodes == old(self).nodes,
                self.node_children == old(self).node_children,
                self.node_parents == old(self).node_parents,
                self.observer == old(self).observer,
                self.scope == old(self).scope,
                self.pending_effects == old(self).pending_effects,
                self.node_subscribers@.len() == n,
                self.node_sources@.len() == n,
                self.node_subscribers@[child.idx as int]@.len() == 0,
                self.node_sources@[child.idx as int]@.len() == 0,
                forall|i: int|
                    0 <= i < n ==> row_ok((#[trigger] self.node_subscribers@[i])@, n),
                forall|i: int|
                    0 <= i < n ==> row_ok((#[trigger] self.node_sources@[i])@, n),
                forall|b: NodeId, x: NodeId|
                    b.idx < n && x != child ==> ((#[trigger] self.node_sources@[b.idx
                        as int]@.contains(x)) <==> old(self).node_sources@[b.idx
                        as int]@.contains(x) && b != child),
                forall|b: NodeId|
                    b.idx < n ==> !(#[trigger] self.node_sources@[b.idx as int]@.contains(child)),
                forall|b: NodeId, x: NodeId|
                    b.idx < n && x != child ==> ((#[trigger] self.node_subscribers@[b.idx
                        as int]@.contains(x)) <==> old(self).node_subscribers@[b.idx
                        as int]@.contains(x) && b != child),
                forall|b: NodeId|
                    b.idx < n && (#[trigger] self.node_subscribers@[b.idx as int]@.contains(child))
                        ==> exists|j: int| k2 <= j < t_row.len() && t_row[j] == b,
            decreases srcs_row@.len() - k2,
        {
            let b = srcs_row[k2];
            let ghost pre = *self;
            remove_id(&mut self.node_subscribers[b.idx], child);
            proof {
                assert(self.node_subscribers@ == pre.node_subscribers@.update(
                    b.idx as int,
                    self.node_subscribers@[b.idx as int],
                ));
                assert forall|i: int| 0 <= i < n implies row_ok(
                    (#[trigger] self.node_subscribers@[i])@,
                    n,
                ) by {
                    assert(row_ok(pre.node_subscribers@[i]@, n));
                    if i == b.idx as int {
                        assert forall|k3: int|
                            0 <= k3 < self.node_subscribers@[i]@.len() implies (
                        #[trigger] self.node_subscribers@[i]@[k3]).idx < n by {
                            let y = self.node_subscribers@[i]@[k3];
                            assert(self.node_subscribers@[i]@.contains(y));
                            assert(pre.node_subscribers@[i]@.contains(y));
                            let k4 = choose|k4: int|
                                0 <= k4 < pre.node_subscribers@[i]@.len()
                                    && pre.node_subscribers@[i]@[k4] == y;
                            assert(pre.node_subscribers@[i]@[k4].idx < n);
                        }
                    } else {
                        assert(self.node_subscribers@[i] == pre.node_subscribers@[i]);
                    }
                }
                assert forall|b2: NodeId|
                    b2.idx < n && (#[trigger] self.node_subscribers@[b2.idx as int]@.contains(
                        child,
                    )) implies exists|j: int| k2 + 1 <= j < t_row.len() && t_row[j] == b2 by {
                    assert(pre.node_subscribers@[b2.idx as int]@.contains(child));
                    let j = choose|j: int| k2 <= j < t_row.len() && t_row[j] == b2;
                    if j == k2 {
                        assert(b2 == b);
                        assert(!self.node_subscribers@[b.idx as int]@.contains(child));
                    } else {
                        assert(k2 + 1 <= j < t_row.len() && t_row[j] == b2);
                    }
                }
            }
            k2 = k2 + 1;
        }
        self.node_parents[child.idx] = None;
        self.nodes[child.idx] = None;
        proof {
            let post = &*self;
            assert forall|a: NodeId, b: NodeId|
                a.idx < n && b.idx < n implies (post.node_subscribers@[a.idx as int]@.contains(b)
                <==> post.node_sources@[b.idx as int]@.contains(a)) by {
                if b == child {
                    if post.node_subscribers@[a.idx as int]@.contains(child) {
                        assert(false);
                    }
                    if post.node_sources@[child.idx as int]@.contains(a) {
                        assert(post.node_sources@[child.idx as int]@.len() == 0);
                        assert(false);
                    }
                } else if a == child {
                    if post.node_subscribers@[child.idx as int]@.contains(b) {
                        assert(false);
                    }
                    if post.node_sources@[b.idx as int]@.contains(child) {
                        assert(false);
                    }
                } else {
                    assert(post.node_subscribers@[a.idx as int]@.contains(b)
                        <==> old(self).node_subscribers@[a.idx as int]@.contains(b));
                    assert(post.node_sources@[b.idx as int]@.contains(a) <==> old(self).node_sources@[b.idx as int]@.contains(a));
                    assert(old(self).node_subscribers@[a.idx as int]@.contains(b)
                        <==> old(self).node_sources@[b.idx as int]@.contains(a));
                }
            }
            assert forall|a: NodeId, b: NodeId|
                a.idx < n && b.idx < n && (#[trigger] post.node_children@[a.idx as int]@.contains(
                    b,
                )) implies post.node_parents@[b.idx as int] == Some(a) by {
                assert(old(self).node_children@[a.idx as int]@.contains(b));
                assert(b != child);
                assert(post.node_parents@[b.idx as int] == old(self).node_parents@[b.idx as int]);
            }
            assert forall|b: NodeId|
                b.idx < n && (#[trigger] post.node_parents@[b.idx as int]) is Some implies post.node_parents@[b.idx
                as int]->Some_0.idx < b.idx by {
                assert(b != child);
            }
            assert forall|a: NodeId|
                a.idx < n && post.nodes@[a.idx as int] is None implies (
            #[trigger] post.node_subscribers@[a.idx as int])@.len() == 0
                && post.node_sources@[a.idx as int]@.len() == 0 && post.node_children@[a.idx
                as int]@.len() == 0 && post.node_parents@[a.idx as int] is None by {
                if a == child {
                } else {
                    assert(old(self).nodes@[a.idx as int] is None);
                    assert(old(self).node_subscribers@[a.idx as int]@.len() == 0);
                    assert(old(self).node_sources@[a.idx as int]@.len() == 0);
                    if post.node_subscribers@[a.idx as int]@.len() > 0 {
                        let y = post.node_subscribers@[a.idx as int]@[0];
                        assert(post.node_subscribers@[a.idx as int]@.contains(y));
                        if y == child {
                        } else {
                            assert(old(self).node_subscribers@[a.idx as int]@.contains(y));
                        }
                        assert(false);
                    }
                    if post.node_sources@[a.idx as int]@.len() > 0 {
                        let y = post.node_sources@[a.idx as int]@[0];
                        assert(post.node_sources@[a.idx as int]@.contains(y));
                        if y == child {
                        } else {
                            assert(old(self).node_sources@[a.idx as int]@.contains(y));
                        }
                        assert(false);
                    }
                }
            }
            assert(post.wf_core());
            lemma_count_live_update(old(self).nodes@, child.idx as int, None::<Node<C>>);
            assert forall|b: NodeId, x: NodeId|
                b.idx < n implies ((#[trigger] post.node_sources@[b.idx as int]@.contains(x))
                <==> old(self).node_sources@[b.idx as int]@.contains(x) && x != child && b
                != child) by {
                if b == child {
                    if post.node_sources@[b.idx as int]@.contains(x) {
                        assert(false);
                    }
                } else if x == child {
                    assert(!post.node_sources@[b.idx as int]@.contains(child));
                }
            }
            assert forall|b: NodeId, x: NodeId|
                b.idx < n implies ((#[trigger] post.node_subscribers@[b.idx as int]@.contains(x))
                <==> old(self).node_subscribers@[b.idx as int]@.contains(x) && x != child && b
                != child) by {
                if b == child {
                    if post.node_subscribers@[b.idx as int]@.contains(x) {
                        assert(false);
                    }
                } else if x == child {
                    assert(!post.node_subscribers@[b.idx as int]@.contains(child));
                }
            }
        }
    }

    /// Disposes every node that `node_id` owns, recursively: each owned
    /// child is removed from the node store together with its own subtree,
    /// and purged from both adjacency maps on every partner it touches.
    ///
    /// This runs immediately before an effect re-executes, so each re-run
    /// starts from a clean slate of owned nodes. Disposal is eager and
    /// synchronous. Disposing a node a second time, or a node whose subtree
    /// loops back on a stale entry, degrades to a no-op for the entries
    /// already gone.
    #[verifier::rlimit(100)]
    #[verifier::spinoff_prover]
    fn cleanup_children(&mut self, node_id: NodeId)
        requires
            old(self).wf(),
        ensures
            final(self).wf(),
            final(self).n() == old(self).n(),
            same_context(old(self), final(self)),
            final(self).pending() == old(self).pending(),
            forall|b: NodeId|
                node_id.index() < old(self).n() && old(self).children_of(node_id).contains(b)
                    ==> !final(self).live(b),
            forall|b: NodeId| old(self).owned_by(node_id, b) ==> !final(self).live(b),
            node_id.index() < old(self).n() ==> final(self).children_of(node_id).len() == 0,
            final(self).live(node_id) == old(self).live(node_id),
            old(self).live(node_id) ==> final(self).state_of(node_id) == old(self).state_of(
                node_id,
            ) && final(self).value_of(node_id) == old(self).value_of(node_id) && final(self).is_effect_node(node_id) == old(self).is_effect_node(node_id),
            (node_id.index() >= old(self).n() || old(self).children_of(node_id).len() == 0)
                ==> *final(self) == *old(self),
            forall|x: NodeId|
                x.index() < old(self).n() && (#[trigger] final(self).live(x)) ==> old(self).live(x)
                    && final(self).state_of(x) == old(self).state_of(x) && final(self).value_of(x)
                    == old(self).value_of(x) && final(self).is_effect_node(x) == old(self).is_effect_node(x),
            forall|x: NodeId, y: NodeId|
                x.index() < old(self).n() && (#[trigger] final(self).subs_of(x).contains(y))
                    ==> old(self).subs_of(x).contains(y),
            forall|x: NodeId, y: NodeId|
                x.index() < old(self).n() && (#[trigger] final(self).srcs_of(x).contains(y))
                    ==> old(self).srcs_of(x).contains(y),
            orphans_kept(old(self), final(self)),
    {
        if node_id.idx >= self.nodes.len() {
            proof {
                assert forall|b: NodeId| !old(self).owned_by(node_id, b) by {
                    if old(self).owned_by(node_id, b) {
                        old(self).lemma_owned_by_through(node_id, b);
                        let q = choose|q: NodeId|
                            q.index() < old(self).n() && (#[trigger] old(self).parent_of(q))
                                == Some(node_id) && (q == b || old(self).owned_by(q, b));
                        assert(old(self).node_parents@[q.idx as int]->Some_0.idx < q.idx);
                    }
                }
            }
            return ;
        }
        if self.node_children[node_id.idx].len() == 0 {
            proof {
                assert forall|b: NodeId| !old(self).owned_by(node_id, b) by {
                    if old(self).owned_by(node_id, b) {
                        old(self).lemma_owned_by_through(node_id, b);
                        let q = choose|q: NodeId|
                            q.index() < old(self).n() && (#[trigger] old(self).parent_of(q))
                                == Some(node_id) && (q == b || old(self).owned_by(q, b));
                        assert(old(self).node_children@[node_id.idx as int]@.contains(q));
                    }
                }
            }
            return ;
        }
        let ghost n = old(self).n();
        let mut stack: Vec<NodeId> = clone_ids(&self.node_children[node_id.idx]);
        self.node_children[node_id.idx] = Vec::new();
        proof {
            assert(stack@ == old(self).children_of(node_id));
            if old(self).nodes@[node_id.idx as int] is None {
                assert(old(self).node_subscribers@[node_id.idx as int]@.len() == 0);
                assert(old(self).node_children@[node_id.idx as int]@.len() == 0);
                assert(false);
            }
            assert forall|i: int| 0 <= i < n implies row_ok(
                (#[trigger] self.node_children@[i])@,
                n,
            ) by {
                assert(row_ok(old(self).node_children@[i]@, n));
                if i != node_id.idx as int {
                    assert(self.node_children@[i] == old(self).node_children@[i]);
                }
            }
            assert forall|a: NodeId, b: NodeId|
                a.idx < n && b.idx < n && (#[trigger] self.node_children@[a.idx as int]@.contains(
                    b,
                )) implies self.node_parents@[b.idx as int] == Some(a) by {
                assert(old(self).node_children@[a.idx as int]@.contains(b));
            }
            assert forall|a: NodeId|
                a.idx < n && self.nodes@[a.idx as int] is None implies (
            #[trigger] self.node_subscribers@[a.idx as int])@.len() == 0
                && self.node_sources@[a.idx as int]@.len() == 0 && self.node_children@[a.idx
                as int]@.len() == 0 && self.node_parents@[a.idx as int] is None by {
                assert(old(self).nodes@[a.idx as int] is None);
                assert(old(self).node_subscribers@[a.idx as int]@.len() == 0);
                assert(a.idx != node_id.idx);
                assert(self.node_children@[a.idx as int] == old(self).node_children@[a.idx
                    as int]);
            }
            assert(self.wf_core());
            assert forall|j: int, a: NodeId|
                0 <= j < stack@.len() && a.idx < n implies !(
            #[trigger] self.node_children@[a.idx as int]@.contains(#[trigger] stack@[j])) by {
                if self.node_children@[a.idx as int]@.contains(stack@[j]) {
                    assert(old(self).node_children@[a.idx as int]@.contains(stack@[j]));
                    assert(old(self).node_parents@[stack@[j].idx as int] == Some(a));
                    assert(old(self).node_children@[node_id.idx as int]@.contains(stack@[j]));
                    assert(old(self).node_parents@[stack@[j].idx as int] == Some(node_id));
                    assert(a == node_id);
                    assert(self.node_children@[node_id.idx as int]@.len() == 0);
                }
            }
            assert forall|j: int| 0 <= j < stack@.len() implies node_id.idx < (
            #[trigger] stack@[j]).idx by {
                assert(old(self).node_children@[node_id.idx as int]@.contains(stack@[j]));
                assert(old(self).node_parents@[stack@[j].idx as int] == Some(node_id));
            }
            assert forall|j: int|
                0 <= j < stack@.len() implies (self.node_parents@[(#[trigger] stack@[j]).idx
                    as int] is Some || !self.live(stack@[j])) by {
                assert(old(self).node_children@[node_id.idx as int]@.contains(stack@[j]));
                assert(old(self).node_parents@[stack@[j].idx as int] == Some(node_id));
            }
            assert forall|b: NodeId|
                old(self).owned_by(node_id, b) && self.live(b) implies (exists|j: int|
                0 <= j < stack@.len() && (stack@[j] == b || self.owned_by(
                    #[trigger] stack@[j],
                    b,
                ))) by {
                old(self).lemma_owned_by_through(node_id, b);
                let q = choose|q: NodeId|
                    q.index() < old(self).n() && (#[trigger] old(self).parent_of(q)) == Some(
                        node_id,
                    ) && (q == b || old(self).owned_by(q, b));
                assert(old(self).node_children@[node_id.idx as int]@.contains(q));
                let j = choose|j: int| 0 <= j < stack@.len() && stack@[j] == q;
                if q != b {
                    old(self).lemma_owned_by_same_parents(&*self, q, b);
                    assert(self.owned_by(stack@[j], b));
                } else {
                    assert(stack@[j] == b);
                }
            }
        }
        while stack.len() > 0
            invariant
                old(self).wf(),
                node_id.idx < n,
                n == old(self).n(),
                self.wf_core(),
                self.nodes@.len() == n,
                ids_below(stack@, n),
                forall|j: int| 0 <= j < stack@.len() ==> node_id.idx < (#[trigger] stack@[j]).idx,
                forall|j: int, a: NodeId|
                    0 <= j < stack@.len() && a.idx < n ==> !(#[trigger] self.node_children@[a.idx
                        as int]@.contains(#[trigger] stack@[j])),
                forall|a: NodeId, b: NodeId|
                    #![trigger self.node_children@[a.idx as int]@.contains(b)]
                    #![trigger self.node_parents@[b.idx as int], a.idx]
                    a.idx < n && b.idx < n && self.node_parents@[b.idx as int] == Some(a) ==> self.node_children@[a.idx as int]@.contains(b) || stack@.contains(b),
                forall|b: NodeId|
                    old(self).children_of(node_id).contains(b) ==> !self.live(b)
                        || stack@.contains(b),
                forall|b: NodeId|
                    old(self).owned_by(node_id, b) && self.live(b) ==> (exists|j: int|
                        0 <= j < stack@.len() && (stack@[j] == b || self.owned_by(
                            #[trigger] stack@[j],
                            b,
                        ))),
                self.nodes@[node_id.idx as int] == old(self).nodes@[node_id.idx as int],
                self.node_children@[node_id.idx as int]@.len() == 0,
                forall|j: int|
                    0 <= j < stack@.len() ==> (self.node_parents@[(#[trigger] stack@[j]).idx
                        as int] is Some || !self.live(stack@[j])),
                forall|x: NodeId|
                    x.index() < old(self).n() && old(self).live(x) && old(self).parent_of(
                        x,
                    ) is None ==> (#[trigger] self.live(x)) && self.parent_of(x) is None,
                self.observer == old(self).observer,
                self.scope == old(self).scope,
                self.pending_effects == old(self).pending_effects,
                forall|i: int|
                    0 <= i < n ==> (#[trigger] self.nodes@[i]) == old(self).nodes@[i]
                        || self.nodes@[i] is None,
                forall|i: int|
                    0 <= i < n ==> (#[trigger] self.node_children@[i]) == old(self).node_children@[i]
                        || self.node_children@[i]@.len() == 0,
                forall|b: NodeId, x: NodeId|
                    b.idx < n && (#[trigger] self.node_subscribers@[b.idx as int]@.contains(x))
                        ==> old(self).node_subscribers@[b.idx as int]@.contains(x),
                forall|b: NodeId, x: NodeId|
                    b.idx < n && (#[trigger] self.node_sources@[b.idx as int]@.contains(x))
                        ==> old(self).node_sources@[b.idx as int]@.contains(x),
            decreases count_live(self.nodes@), stack@.len(),
        {
            let ghost pre_stack = stack@;
            let child = stack.pop().unwrap();
            proof {
                assert(pre_stack[pre_stack.len() - 1] == child);
                assert(pre_stack.contains(child));
                assert forall|x: NodeId|
                    pre_stack.contains(x) implies stack@.contains(x) || x == child by {
                    let k = choose|k: int| 0 <= k < pre_stack.len() && pre_stack[k] == x;
                    if k < pre_stack.len() - 1 {
                        assert(stack@[k] == x);
                    }
                }
            }
            if self.nodes[child.idx].is_none() {
                proof {
                    assert(self.node_subscribers@[child.idx as int]@.len() == 0);
                    assert(self.node_parents@[child.idx as int] is None);
                    assert forall|b: NodeId|
                        old(self).children_of(node_id).contains(b) implies !self.live(b)
                            || stack@.contains(b) by {
                        if self.live(b) && !stack@.contains(b) {
                            assert(pre_stack.contains(b));
                            assert(b == child);
                            assert(false);
                        }
                    }
                    assert forall|b: NodeId|
                        old(self).owned_by(node_id, b) && self.live(b) implies (exists|j: int|
                        0 <= j < stack@.len() && (stack@[j] == b || self.owned_by(
                            #[trigger] stack@[j],
                            b,
                        ))) by {
                        let j0 = choose|j0: int|
                            0 <= j0 < pre_stack.len() && (pre_stack[j0] == b || self.owned_by(
                                pre_stack[j0],
                                b,
                            ));
                        let s = pre_stack[j0];
                        if s == child {
                            assert(b != child);
                            assert(self.owned_by(child, b));
                            self.lemma_owned_by_through(child, b);
                            let q = choose|q: NodeId|
                                q.index() < self.n() && (#[trigger] self.parent_of(q)) == Some(
                                    child,
                                ) && (q == b || self.owned_by(q, b));
                            assert(self.node_children@[child.idx as int]@.len() == 0);
                            assert(self.node_parents@[q.idx as int] == Some(child));
                            assert(pre_stack.contains(q));
                            assert(q != child);
                            let i = choose|i: int| 0 <= i < pre_stack.len() && pre_stack[i] == q;
                            assert(i < pre_stack.len() - 1);
                            assert(stack@[i] == q);
                        } else {
                            assert(j0 < pre_stack.len() - 1);
                            assert(stack@[j0] == s);
                        }
                    }
                    assert forall|a: NodeId, b: NodeId|
                        #![trigger self.node_children@[a.idx as int]@.contains(b)]
                        #![trigger self.node_parents@[b.idx as int], a.idx]
                        a.idx < n && b.idx < n && self.node_parents@[b.idx as int] == Some(
                            a,
                        ) implies self.node_children@[a.idx as int]@.contains(b)
                        || stack@.contains(b) by {
                        if !self.node_children@[a.idx as int]@.contains(b) {
                            assert(pre_stack.contains(b));
                            assert(b != child);
                        }
                    }
                }
                continue ;
            }
            let ghost pre_rt = *self;
            let mut kids = clone_ids(&self.node_children[child.idx]);
            self.node_children[child.idx] = Vec::new();
            let ghost kid_row = kids@;
            let ghost pre_append = stack@;
            stack.append(&mut kids);
            proof {
                assert(kid_row == pre_rt.node_children@[child.idx as int]@);
                assert forall|j: int| 0 <= j < kid_row.len() implies child.idx < (
                #[trigger] kid_row[j]).idx && kid_row[j].idx < n by {
                    assert(pre_rt.node_children@[child.idx as int]@.contains(kid_row[j]));
                    assert(pre_rt.node_parents@[kid_row[j].idx as int] == Some(child));
                }
                assert(self.node_children@ == pre_rt.node_children@.update(
                    child.idx as int,
                    self.node_children@[child.idx as int],
                ));
                assert forall|i: int| 0 <= i < n implies row_ok(
                    (#[trigger] self.node_children@[i])@,
                    n,
                ) by {
                    assert(row_ok(pre_rt.node_children@[i]@, n));
                    if i != child.idx as int {
                        assert(self.node_children@[i] == pre_rt.node_children@[i]);
                    }
                }
                assert forall|a: NodeId, b: NodeId|
                    a.idx < n && b.idx < n && (#[trigger] self.node_children@[a.idx
                        as int]@.contains(b)) implies self.node_parents@[b.idx as int] == Some(
                        a,
                    ) by {
                    assert(pre_rt.node_children@[a.idx as int]@.contains(b));
                }
                assert forall|a: NodeId|
                    a.idx < n && self.nodes@[a.idx as int] is None implies (
                #[trigger] self.node_subscribers@[a.idx as int])@.len() == 0
                    && self.node_sources@[a.idx as int]@.len() == 0 && self.node_children@[a.idx
                    as int]@.len() == 0 && self.node_parents@[a.idx as int] is None by {
                    assert(pre_rt.nodes@[a.idx as int] is None);
                    assert(pre_rt.node_subscribers@[a.idx as int]@.len() == 0);
                    assert(a.idx != child.idx);
                    assert(self.node_children@[a.idx as int] == pre_rt.node_children@[a.idx
                        as int]);
                }
                assert(self.node_subscribers == pre_rt.node_subscribers);
                assert(self.node_sources == pre_rt.node_sources);
                assert(rows_ok(self.node_subscribers@, n));
                assert(rows_ok(self.node_sources@, n));
                assert(mirror_ok(self.node_subscribers@, self.node_sources@, n));
                assert(ids_below(self.pending_effects@, n));
                assert(self.wf_core());
                assert forall|a: NodeId|
                    a.idx < n implies !(#[trigger] self.node_children@[a.idx as int]@.contains(
                        child,
                    )) by {
                    if self.node_children@[a.idx as int]@.contains(child) {
                        assert(pre_rt.node_children@[a.idx as int]@.contains(child));
                        assert(pre_stack.contains(child));
                    }
                }
            }
            let ghost mid_rt = *self;
            self.detach_node(child);
            proof {
                let post = &*self;
                assert(stack@ == pre_append + kid_row);
                assert forall|x: NodeId|
                    pre_stack.contains(x) && x != child implies stack@.contains(x) by {
                    let k = choose|k: int| 0 <= k < pre_stack.len() && pre_stack[k] == x;
                    assert(k < pre_stack.len() - 1);
                    assert(pre_append[k] == x);
                    assert(stack@[k] == x);
                }
                assert forall|j: int| 0 <= j < stack@.len() implies node_id.idx < (
                #[trigger] stack@[j]).idx && stack@[j].idx < n by {
                    if j < pre_append.len() {
                        assert(stack@[j] == pre_append[j]);
                    } else {
                        assert(stack@[j] == kid_row[j - pre_append.len()]);
                    }
                }
                assert forall|j: int, a: NodeId|
                    0 <= j < stack@.len() && a.idx < n implies !(
                #[trigger] post.node_children@[a.idx as int]@.contains(#[trigger] stack@[j])) by {
                    assert(post.node_children@[a.idx as int] == mid_rt.node_children@[a.idx
                        as int]);
                    if j < pre_append.len() {
                        assert(stack@[j] == pre_append[j]);
                        assert(pre_stack.contains(stack@[j]));
                        if mid_rt.node_children@[a.idx as int]@.contains(stack@[j]) {
                            assert(pre_rt.node_children@[a.idx as int]@.contains(stack@[j]));
                        }
                    } else {
                        let kid = kid_row[j - pre_append.len()];
                        assert(stack@[j] == kid);
                        if mid_rt.node_children@[a.idx as int]@.contains(kid) {
                            assert(pre_rt.node_children@[a.idx as int]@.contains(kid));
                            assert(pre_rt.node_parents@[kid.idx as int] == Some(a));
                            assert(pre_rt.node_children@[child.idx as int]@.contains(kid));
                            assert(pre_rt.node_parents@[kid.idx as int] == Some(child));
                            assert(a == child);
                            assert(mid_rt.node_children@[child.idx as int]@.len() == 0);
                        }
                    }
                }
                assert forall|a: NodeId, b: NodeId|
                    #![trigger post.node_children@[a.idx as int]@.contains(b)]
                    #![trigger post.node_parents@[b.idx as int], a.idx]
                    a.idx < n && b.idx < n && post.node_parents@[b.idx as int] == Some(
                        a,
                    ) implies post.node_children@[a.idx as int]@.contains(b) || stack@.contains(
                        b,
                    ) by {
                    if !post.node_children@[a.idx as int]@.contains(b) {
                        assert(b != child);
                        assert(pre_rt.node_parents@[b.idx as int] == Some(a));
                        if pre_rt.node_children@[a.idx as int]@.contains(b) {
                            if a == child {
                                assert(pre_rt.node_parents@[b.idx as int] == Some(child));
                                assert(kid_row.contains(b));
                                let k = choose|k: int|
                                    0 <= k < kid_row.len() && kid_row[k] == b;
                                assert(stack@[pre_append.len() + k] == b);
                            } else {
                                assert(post.node_children@[a.idx as int]
                                    == pre_rt.node_children@[a.idx as int]);
                            }
                        } else {
                            assert(pre_stack.contains(b));
                            assert forall|x: NodeId|
                                pre_append.contains(x) implies stack@.contains(x) by {
                                let k = choose|k: int|
                                    0 <= k < pre_append.len() && pre_append[k] == x;
                                assert(stack@[k] == x);
                            }
                        }
                    }
                }
                assert forall|b: NodeId|
                    old(self).children_of(node_id).contains(b) implies !post.live(b)
                        || stack@.contains(b) by {
                    if post.live(b) && !stack@.contains(b) {
                        assert(b != child);
                        assert(pre_rt.live(b));
                        assert(pre_stack.contains(b));
                        assert(stack@.contains(b));
                    }
                }
                assert(post.n() == pre_rt.n());
                assert forall|i: NodeId|
                    i.index() < pre_rt.n() && i.idx != child.idx implies pre_rt.parent_of(i) == (
                #[trigger] post.parent_of(i)) by {}
                assert forall|b: NodeId|
                    old(self).owned_by(node_id, b) && post.live(b) implies (exists|j: int|
                    0 <= j < stack@.len() && (stack@[j] == b || post.owned_by(
                        #[trigger] stack@[j],
                        b,
                    ))) by {
                    assert(b != child);
                    assert(pre_rt.live(b));
                    let j0 = choose|j0: int|
                        0 <= j0 < pre_stack.len() && (pre_stack[j0] == b || pre_rt.owned_by(
                            pre_stack[j0],
                            b,
                        ));
                    let s = pre_stack[j0];
                    if s == b {
                        assert(j0 < pre_stack.len() - 1);
                        assert(stack@[j0] == b);
                    } else {
                        assert(pre_rt.owned_by(s, b));
                        if pre_rt.owned_by(child, b) {
                            pre_rt.lemma_owned_by_through(child, b);
                            let q = choose|q: NodeId|
                                q.index() < pre_rt.n() && (#[trigger] pre_rt.parent_of(q)) == Some(
                                    child,
                                ) && (q == b || pre_rt.owned_by(q, b));
                            assert(pre_rt.node_parents@[q.idx as int] == Some(child));
                            assert(child.idx < q.idx);
                            if q != b {
                                pre_rt.lemma_owned_by_cut_below(post, child, q, b);
                            }
                            if kid_row.contains(q) {
                                let k = choose|k: int| 0 <= k < kid_row.len() && kid_row[k] == q;
                                assert(stack@[pre_append.len() + k] == q);
                                assert(stack@[pre_append.len() + k] == b || post.owned_by(
                                    stack@[pre_append.len() + k],
                                    b,
                                ));
                            } else {
                                assert(pre_rt.node_children@[child.idx as int]@ == kid_row);
                                assert(pre_stack.contains(q));
                                assert(q != child);
                                let i = choose|i: int|
                                    0 <= i < pre_stack.len() && pre_stack[i] == q;
                                assert(i < pre_stack.len() - 1);
                                assert(stack@[i] == q);
                                assert(stack@[i] == b || post.owned_by(stack@[i], b));
                            }
                        } else {
                            if s == child {
                                assert(pre_rt.owned_by(child, b));
                                assert(false);
                            }
                            assert(j0 < pre_stack.len() - 1);
                            assert(stack@[j0] == s);
                            pre_rt.lemma_owned_by_cut_avoid(post, child, s, b);
                            assert(post.owned_by(stack@[j0], b));
                        }
                    }
                }
                assert forall|j: int|
                    0 <= j < stack@.len() implies (post.node_parents@[(#[trigger] stack@[j]).idx
                        as int] is Some || !post.live(stack@[j])) by {
                    let e = stack@[j];
                    if e.idx == child.idx {
                        assert(!post.live(e));
                    } else {
                        assert(post.node_parents@[e.idx as int] == pre_rt.node_parents@[e.idx
                            as int]);
                        if j < pre_append.len() {
                            assert(e == pre_append[j]);
                            assert(pre_stack.contains(e));
                            if pre_rt.live(e) {
                            } else {
                                assert(!post.live(e));
                            }
                        } else {
                            assert(e == kid_row[j - pre_append.len()]);
                            assert(pre_rt.node_children@[child.idx as int]@.contains(e));
                            assert(pre_rt.node_parents@[e.idx as int] == Some(child));
                        }
                    }
                }
                assert forall|x: NodeId|
                    x.index() < old(self).n() && old(self).live(x) && old(self).parent_of(
                        x,
                    ) is None implies (#[trigger] post.live(x)) && post.parent_of(x) is None by {
                    assert(pre_rt.live(x));
                    assert(pre_rt.parent_of(x) is None);
                    assert(pre_rt.node_parents@[child.idx as int] is Some);
                    assert(x.idx != child.idx);
                    assert(post.nodes@[x.idx as int] == pre_rt.nodes@[x.idx as int]);
                    assert(post.node_parents@[x.idx as int] == pre_rt.node_parents@[x.idx as int]);
                }
                assert(count_live(post.nodes@) + 1 == count_live(pre_rt.nodes@));
            }
        }
        proof {
            assert(parents_covered(self.node_children@, self.node_parents@, self.nodes@.len()));
            assert(stack@.len() == 0);
            assert forall|b: NodeId|
                node_id.index() < old(self).n() && old(self).children_of(node_id).contains(
                    b,
                ) implies !self.live(b) by {
                assert(!self.live(b) || stack@.contains(b));
                if stack@.contains(b) {
                    let k = choose|k: int| 0 <= k < stack@.len() && stack@[k] == b;
                    assert(false);
                }
            }
            assert forall|b: NodeId| old(self).owned_by(node_id, b) implies !self.live(b) by {
                if self.live(b) {
                    let j = choose|j: int|
                        0 <= j < stack@.len() && (stack@[j] == b || self.owned_by(stack@[j], b));
                    assert(false);
                }
            }
        }
    }

    /// Replaces the value cell of a node; a no-op answering `None` when the
    /// node has been disposed.
    pub fn replace_node_value(&mut self, id: NodeId, value: Value) -> (prev: Option<Value>)
        requires
            old(self).wf(),
        ensures
            final(self).wf(),
            !old(self).live(id) ==> *final(self) == *old(self) && prev is None,
            old(self).live(id) ==> prev == old(self).value_of(id) && final(self).value_of(id)
                == Some(value),
            same_context(old(self), final(self)),
            final(self).pending() == old(self).pending(),
            final(self).n() == old(self).n(),
            forall|x: NodeId|
                x.index() < old(self).n() ==> (#[trigger] final(self).live(x)) == old(self).live(
                    x,
                ),
            forall|x: NodeId|
                x.index() < old(self).n() && old(self).live(x) ==> (#[trigger] final(self).state_of(x)) == old(self).state_of(x) && final(self).is_effect_node(x) == old(self).is_effect_node(x),
            forall|x: NodeId|
                x.index() < old(self).n() && old(self).live(x) && x != id ==> (#[trigger] final(self).value_of(x)) == old(self).value_of(x),
            same_edges(old(self), final(self)),
            same_ownership(old(self), final(self)),
    {
        if id.idx >= self.nodes.len() {
            return None;
        }
        if self.nodes[id.idx].is_none() {
            return None;
        }
        let mut prev: Option<Value> = None;
        if let Some(node) = &mut self.nodes[id.idx] {
            prev = match &node.value {
                Some(v) => Some(v.clone()),
                None => None,
            };
            node.value = Some(value);
        }
        proof {
            lemma_wf_nodes_only(&*old(self), &*self);
            assert forall|x: NodeId| x.index() < old(self).n() implies (self.live(x) == old(self).live(x)) by {
                assert(self.nodes@[id.idx as int] is Some);
            }
        }
        prev
    }

    /// Marks a node clean; a no-op on a disposed id.
    pub(crate) fn mark_clean(&mut self, id: NodeId)
        requires
            old(self).wf(),
        ensures
            final(self).wf(),
            same_but_marks(old(self), final(self)),
            final(self).pending() == old(self).pending(),
            old(self).live(id) ==> final(self).state_of(id) == NodeState::Clean,
            forall|x: NodeId|
                x.index() < old(self).n() && old(self).live(x) && x != id ==> final(self).state_of(x) == old(self).state_of(x),
            (!old(self).live(id) || old(self).state_of(id) == NodeState::Clean) ==> *final(self)
                == *old(self),
    {
        if id.idx >= self.nodes.len() {
            return ;
        }
        let cur = match &self.nodes[id.idx] {
            Some(node) => node.state,
            None => {
                return ;
            },
        };
        if cur == NodeState::Clean {
            return ;
        }
        self.set_state(id, NodeState::Clean);
    }

    /// Creates a node and assigns it to the current scope.
    ///
    /// The fresh id has never been issued before, so it aliases no live node
    /// and no previously disposed one.
    pub fn create_node(&mut self, node: Node<C>) -> (id: NodeId)
        requires
            old(self).wf(),
        ensures
            final(self).wf(),
            id.index() == old(self).n(),
            final(self).n() == old(self).n() + 1,
            !old(self).live(id),
            final(self).live(id),
            final(self).state_of(id) == node.state,
            final(self).value_of(id) == node.value,
            final(self).is_effect_node(id) == node.kind.is_effect_kind(),
            final(self).subs_of(id) == Seq::<NodeId>::empty(),
            final(self).srcs_of(id) == Seq::<NodeId>::empty(),
            final(self).children_of(id) == Seq::<NodeId>::empty(),
            final(self).parent_of(id) == (if old(self).scope_id() is Some && old(self).live(
                old(self).scope_id()->Some_0,
            ) {
                old(self).scope_id()
            } else {
                None::<NodeId>
            }),
            same_context(old(self), final(self)),
            final(self).pending() == old(self).pending(),
            forall|x: NodeId| x.index() < old(self).n() ==> (#[trigger] final(self).live(x)) == old(self).live(x),
            forall|x: NodeId|
                x.index() < old(self).n() && old(self).live(x) ==> (#[trigger] final(self).state_of(x)) == old(self).state_of(x)
                    && final(self).value_of(x) == old(self).value_of(x)
                    && final(self).is_effect_node(x) == old(self).is_effect_node(x),
            same_edges(old(self), final(self)),
            forall|x: NodeId| x.index() < old(self).n() ==> (#[trigger] final(self).parent_of(x)) == old(self).parent_of(x),
            forall|x: NodeId|
                x.index() < old(self).n() && final(self).parent_of(id) != Some(x) ==> (
                #[trigger] final(self).children_of(x)) == old(self).children_of(x),
            final(self).parent_of(id) matches Some(s) ==> final(self).children_of(s) == old(self).children_of(s).push(id),
    {
        let id = NodeId { idx: self.nodes.len() };
        self.nodes.push(Some(node));
        self.node_subscribers.push(Vec::new());
        self.node_sources.push(Vec::new());
        self.node_children.push(Vec::new());
        let parent: Option<NodeId> = match self.scope {
            Some(s) => {
                if s.idx < self.nodes.len() && self.nodes[s.idx].is_some() {
                    Some(s)
                } else {
                    None
                }
            },
            None => None,
        };
        self.node_parents.push(parent);
        if let Some(s) = parent {
            let row = &mut self.node_children[s.idx];
            proof {
                assert forall|k: int| 0 <= k < row@.len() implies (#[trigger] row@[k]) != id by {
                    assert(row@[k].idx < old(self).n());
                }
            }
            row.push(id);
        }
        proof {
            let pre = &*old(self);
            let post = &*self;
            let n = post.nodes@.len();
            assert forall|i: int| 0 <= i < n implies row_ok(
                (#[trigger] post.node_subscribers@[i])@,
                n,
            ) by {
                if i < pre.nodes@.len() {
                    assert(post.node_subscribers@[i] == pre.node_subscribers@[i]);
                    assert(row_ok(pre.node_subscribers@[i]@, pre.nodes@.len()));
                    assert forall|k: int|
                        0 <= k < post.node_subscribers@[i]@.len() implies (
                    #[trigger] post.node_subscribers@[i]@[k]).idx < n by {}
                } else {
                    assert(post.node_subscribers@[i]@.len() == 0);
                }
            }
            assert forall|i: int| 0 <= i < n implies row_ok(
                (#[trigger] post.node_sources@[i])@,
                n,
            ) by {
                if i < pre.nodes@.len() {
                    assert(post.node_sources@[i] == pre.node_sources@[i]);
                    assert(row_ok(pre.node_sources@[i]@, pre.nodes@.len()));
                    assert forall|k: int|
                        0 <= k < post.node_sources@[i]@.len() implies (
                    #[trigger] post.node_sources@[i]@[k]).idx < n by {}
                } else {
                    assert(post.node_sources@[i]@.len() == 0);
                }
            }
            assert forall|i: int| 0 <= i < n implies row_ok(
                (#[trigger] post.node_children@[i])@,
                n,
            ) by {
                if i < pre.nodes@.len() {
                    let prerow = pre.node_children@[i]@;
                    assert(row_ok(prerow, pre.nodes@.len()));
                    if i == id.idx as int {
                    } else if post.node_children@[i]@ == prerow {
                        assert forall|k: int|
                            0 <= k < post.node_children@[i]@.len() implies (
                        #[trigger] post.node_children@[i]@[k]).idx < n by {}
                    } else {
                        let newrow = post.node_children@[i]@;
                        assert(newrow == prerow.push(id));
                        assert forall|k: int| 0 <= k < newrow.len() implies (
                        #[trigger] newrow[k]).idx < n by {
                            if k < prerow.len() {
                                assert(newrow[k] == prerow[k]);
                            } else {
                                assert(newrow[k] == id);
                            }
                        }
                        assert forall|k: int, l: int| 0 <= k < l < newrow.len() implies newrow[k]
                            != newrow[l] by {
                            if l == newrow.len() - 1 {
                                assert(newrow[k] == prerow[k]);
                                assert(prerow[k].idx < pre.nodes@.len());
                            }
                        }
                    }
                } else {
                    assert(post.node_children@[i]@.len() == 0);
                }
            }
            assert forall|a: NodeId, b: NodeId|
                a.idx < n && b.idx < n implies (post.node_subscribers@[a.idx as int]@.contains(b)
                <==> post.node_sources@[b.idx as int]@.contains(a)) by {
                if a.idx < pre.nodes@.len() && b.idx < pre.nodes@.len() {
                    assert(pre.node_subscribers@[a.idx as int]@.contains(b)
                        <==> pre.node_sources@[b.idx as int]@.contains(a));
                } else {
                    if a.idx == pre.nodes@.len() {
                        assert(post.node_subscribers@[a.idx as int]@.len() == 0);
                    }
                    if b.idx == pre.nodes@.len() {
                        assert(post.node_sources@[b.idx as int]@.len() == 0);
                    }
                    if a.idx == pre.nodes@.len() && b.idx < pre.nodes@.len() {
                        if pre.node_sources@[b.idx as int]@.contains(a) {
                            assert(a.idx < pre.nodes@.len());
                        }
                    }
                    if b.idx == pre.nodes@.len() && a.idx < pre.nodes@.len() {
                        if pre.node_subscribers@[a.idx as int]@.contains(b) {
                            assert(b.idx < pre.nodes@.len());
                        }
                    }
                }
            }
            assert forall|a: NodeId, b: NodeId|
                a.idx < n && b.idx < n implies (post.node_children@[a.idx as int]@.contains(b)
                <==> post.node_parents@[b.idx as int] == Some(a)) by {
                if b.idx < pre.nodes@.len() {
                    if a.idx < pre.nodes@.len() {
                        if post.node_children@[a.idx as int]@ == pre.node_children@[a.idx as int]@ {
                            if pre.node_children@[a.idx as int]@.contains(b) {
                            }
                        } else {
                            let prerow = pre.node_children@[a.idx as int]@;
                            let newrow = post.node_children@[a.idx as int]@;
                            assert(newrow == prerow.push(id));
                            if newrow.contains(b) {
                                let k = choose|k: int| 0 <= k < newrow.len() && newrow[k] == b;
                                if k < prerow.len() {
                                    assert(prerow.contains(b));
                                } else {
                                    assert(b == id);
                                    assert(b.idx >= pre.nodes@.len());
                                }
                            }
                            if prerow.contains(b) {
                                let k = choose|k: int| 0 <= k < prerow.len() && prerow[k] == b;
                                assert(newrow[k] == b);
                                assert(newrow.contains(b));
                            }
                        }
                    } else {
                        assert(post.node_children@[a.idx as int]@.len() == 0);
                        assert(post.node_parents@[b.idx as int] == pre.node_parents@[b.idx as int]);
                        if pre.node_parents@[b.idx as int] == Some(a) {
                            assert(a.idx < pre.nodes@.len());
                        }
                    }
                } else {
                    assert(b == id);
                    assert(post.node_parents@[b.idx as int] == parent);
                    match parent {
                        Some(s) => {
                            if a == s {
                                let newrow = post.node_children@[s.idx as int]@;
                                assert(newrow == pre.node_children@[s.idx as int]@.push(id));
                                assert(newrow[newrow.len() - 1] == id);
                                assert(newrow.contains(id));
                            } else {
                                if a.idx < pre.nodes@.len() {
                                    if post.node_children@[a.idx as int]@.contains(b) {
                                        assert(pre.node_children@[a.idx as int]@.contains(b));
                                        assert(b.idx < pre.nodes@.len());
                                    }
                                } else {
                                    assert(post.node_children@[a.idx as int]@.len() == 0);
                                }
                            }
                        },
                        None => {
                            if a.idx < pre.nodes@.len() {
                                if a.idx as int == id.idx as int {
                                } else {
                                    if post.node_children@[a.idx as int]@.contains(b) {
                                        assert(pre.node_children@[a.idx as int]@.contains(b));
                                        assert(b.idx < pre.nodes@.len());
                                    }
                                }
                            } else {
                                assert(post.node_children@[a.idx as int]@.len() == 0);
                            }
                        },
                    }
                }
            }
            assert(rows_ok(post.node_subscribers@, n));
            assert(rows_ok(post.node_sources@, n));
            assert(rows_ok(post.node_children@, n));
            assert(mirror_ok(post.node_subscribers@, post.node_sources@, n));
            assert forall|a2: NodeId, b2: NodeId|
                a2.idx < n && b2.idx < n && #[trigger] post.node_children@[a2.idx
                    as int]@.contains(b2) implies post.node_parents@[b2.idx as int] == Some(
                a2,
            ) by {
                assert(post.node_children@[a2.idx as int]@.contains(b2)
                    <==> post.node_parents@[b2.idx as int] == Some(a2));
            }
            assert forall|a2: NodeId, b2: NodeId|
                a2.idx < n && b2.idx < n && post.node_parents@[b2.idx as int] == Some(
                    a2,
                ) implies #[trigger] post.node_children@[a2.idx as int]@.contains(b2) by {
                assert(post.node_children@[a2.idx as int]@.contains(b2)
                    <==> post.node_parents@[b2.idx as int] == Some(a2));
            }
            assert(parents_covered(post.node_children@, post.node_parents@, n));
            assert forall|b2: NodeId|
                b2.idx < n && (#[trigger] post.node_parents@[b2.idx as int]) is Some implies post.node_parents@[b2.idx
                as int]->Some_0.idx < b2.idx by {
                if b2.idx < pre.nodes@.len() {
                    assert(post.node_parents@[b2.idx as int] == pre.node_parents@[b2.idx as int]);
                } else {
                    assert(post.node_parents@[b2.idx as int] == parent);
                }
            }
            assert(children_ok(post.node_children@, post.node_parents@, n));
            assert forall|a2: NodeId|
                a2.idx < n && post.nodes@[a2.idx as int] is None implies (
            #[trigger] post.node_subscribers@[a2.idx as int])@.len() == 0
                && post.node_sources@[a2.idx as int]@.len() == 0 && post.node_children@[a2.idx
                as int]@.len() == 0 && post.node_parents@[a2.idx as int] is None by {
                assert(a2.idx < pre.nodes@.len());
                assert(pre.nodes@[a2.idx as int] is None);
                assert(pre.node_subscribers@[a2.idx as int]@.len() == 0);
                assert(post.node_subscribers@[a2.idx as int] == pre.node_subscribers@[a2.idx
                    as int]);
                assert(post.node_sources@[a2.idx as int] == pre.node_sources@[a2.idx as int]);
                assert(post.node_parents@[a2.idx as int] == pre.node_parents@[a2.idx as int]);
                match parent {
                    Some(s) => {
                        assert(pre.nodes@[s.idx as int] is Some);
                        assert(a2.idx != s.idx);
                        assert(post.node_children@[a2.idx as int] == pre.node_children@[a2.idx
                            as int]);
                    },
                    None => {
                        assert(post.node_children@[a2.idx as int] == pre.node_children@[a2.idx
                            as int]);
                    },
                }
            }
            assert(dead_rows_empty(
                post.nodes@,
                post.node_subscribers@,
                post.node_sources@,
                post.node_children@,
                post.node_parents@,
            ));
            assert forall|k: int|
                0 <= k < post.pending_effects@.len() implies (
            #[trigger] post.pending_effects@[k]).idx < n by {
                assert(pre.pending_effects@[k].idx < pre.nodes@.len());
            }
            assert(post.wf());
            assert(post.subs_of(id) =~= Seq::<NodeId>::empty());
            assert(post.srcs_of(id) =~= Seq::<NodeId>::empty());
            assert(post.children_of(id) =~= Seq::<NodeId>::empty());
        }
        id
    }

    /// Creates a signal with a specified initial value.
    pub fn create_signal(&mut self, value: Value) -> (id: NodeId)
        requires
            old(self).wf(),
        ensures
            final(self).wf(),
            id.index() == old(self).n(),
            final(self).n() == old(self).n() + 1,
            !old(self).live(id),
            final(self).live(id),
            final(self).state_of(id) == NodeState::Clean,
            final(self).value_of(id) == Some(value),
            !final(self).is_effect_node(id),
            final(self).parent_of(id) == (if old(self).scope_id() is Some && old(self).live(
                old(self).scope_id()->Some_0,
            ) {
                old(self).scope_id()
            } else {
                None::<NodeId>
            }),
            final(self).subs_of(id) == Seq::<NodeId>::empty(),
            final(self).srcs_of(id) == Seq::<NodeId>::empty(),
            same_context(old(self), final(self)),
            final(self).pending() == old(self).pending(),
            forall|x: NodeId| x.index() < old(self).n() ==> (#[trigger] final(self).live(x)) == old(self).live(x),
            forall|x: NodeId|
                x.index() < old(self).n() && old(self).live(x) ==> (#[trigger] final(self).state_of(x)) == old(self).state_of(x)
                    && final(self).value_of(x) == old(self).value_of(x)
                    && final(self).is_effect_node(x) == old(self).is_effect_node(x),
            same_edges(old(self), final(self)),
    {
        self.create_node(
            Node { value: Some(value), state: NodeState::Clean, kind: NodeKind::Signal },
        )
    }

    /// Creates an effect with a specified initial value and a computation.
    ///
    /// Note that the effect will not be run unless `update_if_necessary` is
    /// called on it: it is created dirty, so that call performs the first
    /// run.
    pub fn create_effect(&mut self, value: Option<Value>, computation: C) -> (id: NodeId)
        requires
            old(self).wf(),
        ensures
            final(self).wf(),
            id.index() == old(self).n(),
            final(self).n() == old(self).n() + 1,
            !old(self).live(id),
            final(self).live(id),
            final(self).state_of(id) == NodeState::Dirty,
            final(self).value_of(id) == value,
            final(self).is_effect_node(id),
            final(self).parent_of(id) == (if old(self).scope_id() is Some && old(self).live(
                old(self).scope_id()->Some_0,
            ) {
                old(self).scope_id()
            } else {
                None::<NodeId>
            }),
            same_context(old(self), final(self)),
            final(self).pending() == old(self).pending(),
            forall|x: NodeId| x.index() < old(self).n() ==> (#[trigger] final(self).live(x)) == old(self).live(x),
            forall|x: NodeId|
                x.index() < old(self).n() && old(self).live(x) ==> (#[trigger] final(self).state_of(x)) == old(self).state_of(x)
                    && final(self).value_of(x) == old(self).value_of(x)
                    && final(self).is_effect_node(x) == old(self).is_effect_node(x),
            same_edges(old(self), final(self)),
    {
        self.create_node(
            Node { value, state: NodeState::Dirty, kind: NodeKind::Effect { computation } },
        )
    }

    /// Tracks the given node as a source of the current observer (e.g. a
    /// signal is tracked inside an effect).
    ///
    /// Since the mapping is bidirectional (there is `node_sources` and
    /// `node_subscribers`), both maps are updated together; both insertions
    /// are idempotent set operations. With no observer installed, or on a
    /// disposed node, nothing is recorded.
    pub fn track(&mut self, node_id: NodeId)
        requires
            old(self).wf(),
        ensures
            final(self).wf(),
            old(self).observer_id() is None ==> *final(self) == *old(self),
            old(self).observer_id() matches Some(obs) ==> {
                &&& (!old(self).live(node_id) || !old(self).live(obs)) ==> *final(self) == *old(self)
                &&& old(self).live(node_id) && old(self).live(obs) ==> {
                    &&& (forall|x: NodeId|
                        final(self).subs_of(node_id).contains(x) <==> old(self).subs_of(
                            node_id,
                        ).contains(x) || x == obs)
                    &&& (forall|x: NodeId|
                        final(self).srcs_of(obs).contains(x) <==> old(self).srcs_of(obs).contains(
                            x,
                        ) || x == node_id)
                    &&& (forall|x: NodeId|
                        x.index() < old(self).n() && x != node_id ==> (#[trigger] final(self).subs_of(x)) == old(self).subs_of(x))
                    &&& (forall|x: NodeId|
                        x.index() < old(self).n() && x != obs ==> (#[trigger] final(self).srcs_of(
                            x,
                        )) == old(self).srcs_of(x))
                }
            },
            same_nodes(old(self), final(self)),
            same_ownership(old(self), final(self)),
            same_context(old(self), final(self)),
            final(self).pending() == old(self).pending(),
    {
        let observer = match self.observer {
            Some(o) => o,
            None => {
                return ;
            },
        };
        if node_id.idx >= self.nodes.len() {
            return ;
        }
        if self.nodes[node_id.idx].is_none() {
            return ;
        }
        if self.nodes[observer.idx].is_none() {
            return ;
        }
        let ghost pre = *self;
        insert_id(&mut self.node_subscribers[node_id.idx], observer);
        proof {
            assert(self.node_subscribers@ == pre.node_subscribers@.update(
                node_id.idx as int,
                self.node_subscribers@[node_id.idx as int],
            ));
        }
        let ghost mid = *self;
        insert_id(&mut self.node_sources[observer.idx], node_id);
        proof {
            assert(self.node_sources@ == mid.node_sources@.update(
                observer.idx as int,
                self.node_sources@[observer.idx as int],
            ));
            let post = &*self;
            let n = post.nodes@.len();
            assert forall|i: int| 0 <= i < n implies row_ok(
                (#[trigger] post.node_subscribers@[i])@,
                n,
            ) by {
                if i != node_id.idx as int {
                    assert(post.node_subscribers@[i] == pre.node_subscribers@[i]);
                } else {
                    let prerow = pre.node_subscribers@[i]@;
                    let newrow = post.node_subscribers@[i]@;
                    assert(distinct_ids(newrow));
                    assert forall|k: int| 0 <= k < newrow.len() implies (
                    #[trigger] newrow[k]).idx < n by {
                        assert(newrow.contains(newrow[k]));
                        if prerow.contains(newrow[k]) {
                        } else {
                            assert(newrow[k] == observer);
                        }
                    }
                }
            }
            assert forall|i: int| 0 <= i < n implies row_ok(
                (#[trigger] post.node_sources@[i])@,
                n,
            ) by {
                if i != observer.idx as int {
                    assert(post.node_sources@[i] == pre.node_sources@[i]);
                } else {
                    let prerow = pre.node_sources@[i]@;
                    let newrow = post.node_sources@[i]@;
                    assert(distinct_ids(newrow));
                    assert forall|k: int| 0 <= k < newrow.len() implies (
                    #[trigger] newrow[k]).idx < n by {
                        assert(newrow.contains(newrow[k]));
                        if prerow.contains(newrow[k]) {
                        } else {
                            assert(newrow[k] == node_id);
                        }
                    }
                }
            }
            assert forall|a: NodeId, b: NodeId|
                a.idx < n && b.idx < n implies (post.node_subscribers@[a.idx as int]@.contains(b)
                <==> post.node_sources@[b.idx as int]@.contains(a)) by {
                let presub = pre.node_subscribers@[a.idx as int]@;
                let postsub = post.node_subscribers@[a.idx as int]@;
                let presrc = pre.node_sources@[b.idx as int]@;
                let postsrc = post.node_sources@[b.idx as int]@;
                assert(presub.contains(b) <==> presrc.contains(a));
                if a == node_id {
                    assert(postsub.contains(b) <==> presub.contains(b) || b == observer);
                } else {
                    assert(postsub == presub);
                }
                if b == observer {
                    assert(postsrc.contains(a) <==> presrc.contains(a) || a == node_id);
                } else {
                    assert(postsrc == presrc);
                }
            }
            assert(rows_ok(post.node_subscribers@, n));
            assert(rows_ok(post.node_sources@, n));
            assert(mirror_ok(post.node_subscribers@, post.node_sources@, n));
            assert forall|a2: NodeId|
                a2.idx < n && post.nodes@[a2.idx as int] is None implies (
            #[trigger] post.node_subscribers@[a2.idx as int])@.len() == 0
                && post.node_sources@[a2.idx as int]@.len() == 0 && post.node_children@[a2.idx
                as int]@.len() == 0 && post.node_parents@[a2.idx as int] is None by {
                assert(pre.nodes@[a2.idx as int] is None);
                assert(pre.node_subscribers@[a2.idx as int]@.len() == 0);
                assert(a2.idx != node_id.idx);
                assert(a2.idx != observer.idx);
                assert(post.node_subscribers@[a2.idx as int] == pre.node_subscribers@[a2.idx
                    as int]);
                assert(post.node_sources@[a2.idx as int] == pre.node_sources@[a2.idx as int]);
            }
            assert(post.wf());
            assert(same_nodes(&pre, post));
        }
    }
}

impl<C: Computation> Runtime<C> {
    /// Runs the given computation in the context of the provided observer.
    ///
    /// For the duration of the run, `observer` becomes both the observer and
    /// the owning scope; the previous pair is restored afterwards, on normal
    /// return (the verified subset has no unwinding to guard against).
    ///
    /// That the computation was invoked, on which arguments, and that the
    /// result is that run's result are statements about an event, not about
    /// the final store: a trait method carries no reified input-output
    /// relation the way a closure carries `call_ensures`, so no `ensures`
    /// here can express them. What every run is promised is recorded on
    /// [`Computation::run`]; what is done with the result is recorded on the
    /// callers, and the tests exercise the invocation itself.
    pub fn with_observer(&mut self, observer: NodeId, computation: &C, prev: Option<Value>) -> (result: (
        Value,
        bool,
    ))
        requires
            old(self).wf(),
            observer.index() < old(self).n(),
        ensures
            final(self).wf(),
            final(self).n() >= old(self).n(),
            same_context(old(self), final(self)),
            forall|x: NodeId|
                x.index() < old(self).n() && !old(self).live(x) ==> !(#[trigger] final(self).live(
                    x,
                )),
            forall|x: NodeId|
                x.index() < old(self).n() && old(self).live(x) && final(self).live(x) ==> (
                #[trigger] final(self).is_effect_node(x)) == old(self).is_effect_node(x),
            orphans_kept(old(self), final(self)),
    {
        let prev_observer = self.observer;
        let prev_scope = self.scope;
        self.observer = Some(observer);
        self.scope = Some(observer);
        proof {
            assert(self.wf());
        }
        let ghost installed = *self;
        let result = computation.run(self, prev);
        let ghost after_run = *self;
        self.observer = prev_observer;
        self.scope = prev_scope;
        proof {
            assert(self.wf());
            assert forall|x: NodeId|
                x.index() < old(self).n() && !old(self).live(x) implies !(self.live(x)) by {
                assert(!installed.live(x));
                assert(!after_run.live(x));
            }
            assert forall|x: NodeId|
                x.index() < old(self).n() && old(self).live(x) && self.live(x) implies (
            #[trigger] self.is_effect_node(x)) == old(self).is_effect_node(x) by {
                assert(installed.live(x));
                assert(after_run.live(x));
                assert(after_run.is_effect_node(x) == installed.is_effect_node(x));
            }
            assert(orphans_kept(old(self), self)) by {
                assert forall|x: NodeId|
                    x.index() < old(self).n() && old(self).live(x) && old(self).parent_of(
                        x,
                    ) is None implies (#[trigger] self.live(x)) && self.parent_of(x) is None by {
                    assert(installed.live(x) && installed.parent_of(x) is None);
                    assert(after_run.live(x) && after_run.parent_of(x) is None);
                }
            }
        }
        result
    }

    /// Recomputes one node.
    ///
    /// A signal counts as changed unconditionally: its new value was written
    /// before propagation began. An effect runs its computation on the
    /// previous output under its own observer context and stores the new
    /// output. If the node changed, each direct subscriber is escalated
    /// straight to dirty: one hop of exact propagation, while farther
    /// descendants stay at check and are resolved lazily.
    ///
    /// The signal branch is pinned exactly below. For the effect branch the
    /// change flag comes out of the computation and is not observable in the
    /// final store, so the escalation is promised only through the signal
    /// case and the tests; what is promised of every run is that a surviving
    /// effect holds the run's output.
    #[verifier::rlimit(100)]
    #[verifier::spinoff_prover]
    fn update(&mut self, node_id: NodeId)
        requires
            old(self).wf(),
        ensures
            final(self).wf(),
            final(self).n() >= old(self).n(),
            same_context(old(self), final(self)),
            forall|x: NodeId|
                x.index() < old(self).n() && !old(self).live(x) ==> !(#[trigger] final(self).live(
                    x,
                )),
            !old(self).live(node_id) ==> *final(self) == *old(self),
            old(self).live(node_id) && !old(self).is_effect_node(node_id) ==> same_but_marks(
                old(self),
                final(self),
            ) && final(self).pending() == old(self).pending() && (forall|x: NodeId|
                x.index() < old(self).n() && old(self).live(x) ==> (#[trigger] final(self).state_of(
                    x,
                )) == (if old(self).subs_of(node_id).contains(x) {
                    NodeState::Dirty
                } else {
                    old(self).state_of(x)
                })),
            old(self).live(node_id) && old(self).is_effect_node(node_id) && final(self).live(
                node_id,
            ) ==> final(self).value_of(node_id) is Some,
            forall|x: NodeId|
                x.index() < old(self).n() && old(self).live(x) && final(self).live(x) ==> (
                #[trigger] final(self).is_effect_node(x)) == old(self).is_effect_node(x),
            orphans_kept(old(self), final(self)),
    {
        if node_id.idx >= self.nodes.len() {
        proof {
            assert(orphans_kept(old(self), self));
        }
        return ;
        }
        let is_sig: bool;
        let mut comp: Option<C> = None;
        let prev: Option<Value>;
        match &self.nodes[node_id.idx] {
            None => {
        proof {
            assert(orphans_kept(old(self), self));
        }
        return ;
            },
            Some(node) => {
                match &node.kind {
                    NodeKind::Signal => {
                        is_sig = true;
                        prev = None;
                    },
                    NodeKind::Effect { computation } => {
                        is_sig = false;
                        comp = Some(computation.clone());
                        prev = match &node.value {
                            Some(v) => Some(v.clone()),
                            None => None,
                        };
                    },
                }
            },
        }
        if is_sig {
            let subs = clone_ids(&self.node_subscribers[node_id.idx]);
            proof {
                assert(subs@ == old(self).subs_of(node_id));
            }
            let mut k: usize = 0;
            while k < subs.len()
                invariant
                    old(self).wf(),
                    old(self).live(node_id),
                    node_id.idx < old(self).n(),
                    subs@ == old(self).subs_of(node_id),
                    distinct_ids(subs@),
                    k <= subs@.len(),
                    self.wf(),
                    same_but_marks(old(self), self),
                    self.pending() == old(self).pending(),
                    forall|x: NodeId|
                        x.index() < old(self).n() && old(self).live(x) ==> (
                        #[trigger] self.state_of(x)) == (if subs@.subrange(0, k as int).contains(x) {
                            NodeState::Dirty
                        } else {
                            old(self).state_of(x)
                        }),
                decreases subs@.len() - k,
            {
                let b = subs[k];
                proof {
                    old(self).lemma_subs_live(node_id, b);
                    assert(self.live(b));
                }
                let ghost pre_rt = *self;
                self.set_state(b, NodeState::Dirty);
                proof {
                    lemma_marks_trans(old(self), &pre_rt, self);
                    assert forall|x: NodeId|
                        x.index() < old(self).n() && old(self).live(x) implies (
                    #[trigger] self.state_of(x)) == (if subs@.subrange(0, k + 1 as int).contains(x) {
                        NodeState::Dirty
                    } else {
                        old(self).state_of(x)
                    }) by {
                        let seen = subs@.subrange(0, k as int);
                        let seen2 = subs@.subrange(0, k + 1 as int);
                        assert forall|y: NodeId| seen2.contains(y) implies seen.contains(y) || y
                            == b by {
                            let j = choose|j: int| 0 <= j < seen2.len() && seen2[j] == y;
                            if j < k as int {
                                assert(seen[j] == y);
                            } else {
                                assert(y == subs@[k as int]);
                            }
                        }
                        assert forall|y: NodeId| seen.contains(y) implies seen2.contains(y) by {
                            let j = choose|j: int| 0 <= j < seen.len() && seen[j] == y;
                            assert(seen2[j] == y);
                        }
                        assert(seen2.contains(b)) by {
                            assert(seen2[k as int] == b);
                        }
                        if x != b {
                            assert(self.state_of(x) == pre_rt.state_of(x));
                        }
                    }
                }
                k = k + 1;
            }
            proof {
                assert(subs@.subrange(0, subs@.len() as int) == subs@);
                assert(orphans_kept(old(self), self)) by {
                    assert forall|x: NodeId|
                        x.index() < old(self).n() && old(self).live(x) && old(self).parent_of(
                            x,
                        ) is None implies (#[trigger] self.live(x)) && self.parent_of(
                        x,
                    ) is None by {
                        assert(self.live(x) == old(self).live(x));
                        assert(self.parent_of(x) == old(self).parent_of(x));
                    }
                }
            }
        } else {
            let c = match comp {
                Some(c) => c,
                None => {
                    proof {
                        assert forall|x: NodeId|
                            x.index() < old(self).n() && old(self).live(x) && old(self).parent_of(
                                x,
                            ) is None implies (#[trigger] self.live(x)) && self.parent_of(x) is None by {}
        }
                    return ;
                },
            };
            let result = self.with_observer(node_id, &c, prev);
            let ghost after_run = *self;
            let changed = result.1;
            let _previous = self.replace_node_value(node_id, result.0);
            let ghost after_store = *self;
            if changed {
                if node_id.idx < self.nodes.len() {
                    let subs = clone_ids(&self.node_subscribers[node_id.idx]);
                    let ghost snap = *self;
                    let mut k: usize = 0;
                    while k < subs.len()
                        invariant
                            snap.wf(),
                            node_id.idx < snap.n(),
                            subs@ == snap.subs_of(node_id),
                            k <= subs@.len(),
                            self.wf(),
                            self.n() == snap.n(),
                            same_context(&snap, self),
                            same_but_marks(&snap, self),
                            self.pending() == snap.pending(),
                        decreases subs@.len() - k,
                    {
                        let b = subs[k];
                        proof {
                            snap.lemma_subs_live(node_id, b);
                            assert(self.live(b));
                        }
                        let ghost pre_rt = *self;
                        self.set_state(b, NodeState::Dirty);
                        proof {
                            lemma_marks_trans(&snap, &pre_rt, self);
                        }
                        k = k + 1;
                    }
                }
            }
            proof {
                assert forall|x: NodeId|
                    x.index() < old(self).n() && !old(self).live(x) implies !(self.live(x)) by {
                    assert(!after_run.live(x));
                    assert(after_store.live(x) == after_run.live(x));
                    assert(self.live(x) == after_store.live(x));
                }
                if self.live(node_id) {
                    assert(self.live(node_id) == after_store.live(node_id));
                    assert(after_run.live(node_id));
                    assert(after_store.value_of(node_id) is Some);
                    assert(self.value_of(node_id) == after_store.value_of(node_id));
                }
                assert forall|x: NodeId|
                    x.index() < old(self).n() && old(self).live(x) && self.live(x) implies (
                #[trigger] self.is_effect_node(x)) == old(self).is_effect_node(x) by {
                    assert(self.live(x) == after_store.live(x));
                    assert(after_store.live(x) == after_run.live(x));
                    assert(after_run.is_effect_node(x) == old(self).is_effect_node(x));
                    assert(after_store.state_of(x) == after_run.state_of(x));
                    assert(after_store.is_effect_node(x) == after_run.is_effect_node(x));
                    assert(self.is_effect_node(x) == after_store.is_effect_node(x));
                }
                assert(orphans_kept(old(self), self)) by {
                    assert forall|x: NodeId|
                        x.index() < old(self).n() && old(self).live(x) && old(self).parent_of(
                            x,
                        ) is None implies (#[trigger] self.live(x)) && self.parent_of(
                        x,
                    ) is None by {
                        assert(orphans_kept(old(self), &after_run));
                        assert(after_run.live(x));
                        assert(after_run.parent_of(x) is None);
                        assert(after_store.live(x) == after_run.live(x));
                        assert(after_store.parent_of(x) == after_run.parent_of(x));
                        assert(self.live(x) == after_store.live(x));
                        assert(self.parent_of(x) == after_store.parent_of(x));
                    }
                }
            }
        }
    }

    /// Updates the node only if necessary, descending through at most
    /// `depth` levels of sources.
    #[verifier::rlimit(100)]
    #[verifier::spinoff_prover]
    fn update_if_necessary_rec(&mut self, node_id: NodeId, depth: u64)
        requires
            old(self).wf(),
        ensures
            final(self).wf(),
            final(self).n() >= old(self).n(),
            same_context(old(self), final(self)),
            forall|x: NodeId|
                x.index() < old(self).n() && !old(self).live(x) ==> !(#[trigger] final(self).live(
                    x,
                )),
            !old(self).live(node_id) ==> *final(self) == *old(self),
            old(self).live(node_id) && old(self).state_of(node_id) == NodeState::Clean ==> *final(self) == *old(self),
            final(self).live(node_id) ==> final(self).state_of(node_id) == NodeState::Clean,
            old(self).live(node_id) && (old(self).state_of(node_id) == NodeState::Dirty || old(self).state_of(node_id) == NodeState::DirtyMarked) ==> (forall|b: NodeId|
                old(self).owned_by(node_id, b) ==> !final(self).live(b)),
            old(self).live(node_id) && (old(self).state_of(node_id) == NodeState::Dirty || old(self).state_of(node_id) == NodeState::DirtyMarked) && !old(self).is_effect_node(node_id)
                && old(self).children_of(node_id).len() == 0 ==> signal_resolved(
                old(self),
                final(self),
                node_id,
            ),
            old(self).live(node_id) && (old(self).state_of(node_id) == NodeState::Dirty || old(self).state_of(node_id) == NodeState::DirtyMarked) && old(self).is_effect_node(node_id)
                && final(self).live(node_id) ==> final(self).value_of(node_id) is Some,
            old(self).live(node_id) && old(self).state_of(node_id) == NodeState::Check
                && sources_all_clean(old(self), node_id) ==> settled_clean(
                old(self),
                final(self),
                node_id,
            ),
            forall|x: NodeId|
                x.index() < old(self).n() && old(self).live(x) && final(self).live(x) ==> (
                #[trigger] final(self).is_effect_node(x)) == old(self).is_effect_node(x),
            orphans_kept(old(self), final(self)),
        decreases depth,
    {
        let ghost quiet = old(self).live(node_id) && old(self).state_of(node_id)
            == NodeState::Check && sources_all_clean(old(self), node_id);
        let state = self.node_state(node_id);
        if state == NodeState::Check && node_id.idx < self.nodes.len() {
            let sources = clone_ids(&self.node_sources[node_id.idx]);
            let mut k: usize = 0;
            while k < sources.len()
                invariant
                    k <= sources@.len(),
                    self.wf(),
                    self.n() >= old(self).n(),
                    same_context(old(self), self),
                    forall|x: NodeId|
                        x.index() < old(self).n() && !old(self).live(x) ==> !(
                        #[trigger] self.live(x)),
                    forall|x: NodeId|
                        x.index() < old(self).n() && old(self).live(x) && self.live(x) ==> (
                        #[trigger] self.is_effect_node(x)) == old(self).is_effect_node(x),
                    orphans_kept(old(self), self),
                    sources@ == old(self).srcs_of(node_id),
                    quiet == (old(self).live(node_id) && old(self).state_of(node_id)
                        == NodeState::Check && sources_all_clean(old(self), node_id)),
                    quiet ==> *self == *old(self),
                decreases sources@.len() - k,
            {
                if depth == 0 {
                    break ;
                }
                let ghost pre_call = *self;
                self.update_if_necessary_rec(sources[k], depth - 1);
                proof {
                    assert forall|x: NodeId|
                        x.index() < old(self).n() && !old(self).live(x) implies !(self.live(
                        x,
                    )) by {
                        assert(!pre_call.live(x));
                    }
                    assert forall|x: NodeId|
                        x.index() < old(self).n() && old(self).live(x) && self.live(x) implies (
                    #[trigger] self.is_effect_node(x)) == old(self).is_effect_node(x) by {
                        assert(pre_call.live(x));
                        assert(self.is_effect_node(x) == pre_call.is_effect_node(x));
                        assert(pre_call.is_effect_node(x) == old(self).is_effect_node(x));
                    }
                    assert(orphans_kept(old(self), self)) by {
                        assert forall|x: NodeId|
                            x.index() < old(self).n() && old(self).live(x) && old(self).parent_of(
                                x,
                            ) is None implies (#[trigger] self.live(x)) && self.parent_of(
                            x,
                        ) is None by {
                            assert(pre_call.live(x) && pre_call.parent_of(x) is None);
                        }
                    }
                    if quiet {
                        assert(old(self).srcs_of(node_id).contains(sources@[k as int]));
                        assert(old(self).live(sources@[k as int]) && old(self).state_of(
                            sources@[k as int],
                        ) == NodeState::Clean);
                        assert(pre_call == *old(self));
                        assert(*self == pre_call);
                    }
                }
                let st = self.node_state(node_id);
                if st == NodeState::Dirty || st == NodeState::DirtyMarked {
                    break ;
                }
                k = k + 1;
            }
        }
        let ghost before_resolve = *self;
        proof {
            assert(orphans_kept(old(self), &before_resolve)) by {
                assert forall|x: NodeId|
                    x.index() < old(self).n() && old(self).live(x) && old(self).parent_of(
                        x,
                    ) is None implies (#[trigger] before_resolve.live(x)) && before_resolve.parent_of(x) is None by {}
            }
        }
        let st = self.node_state(node_id);
        if st == NodeState::Dirty || st == NodeState::DirtyMarked {
            self.cleanup_children(node_id);
            let ghost after_cleanup = *self;
            proof {
                assert(orphans_kept(&before_resolve, &after_cleanup));
            }
            self.update(node_id);
            proof {
                assert forall|x: NodeId|
                    x.index() < old(self).n() && !old(self).live(x) implies !(self.live(x)) by {
                    assert(!before_resolve.live(x));
                    assert(!after_cleanup.live(x));
                }
                if old(self).live(node_id) && (old(self).state_of(node_id) == NodeState::Dirty
                    || old(self).state_of(node_id) == NodeState::DirtyMarked) {
                    assert(before_resolve == *old(self));
                    assert forall|b: NodeId|
                        old(self).owned_by(node_id, b) implies !(self.live(b)) by {
                        old(self).lemma_owned_by_above(node_id, b);
                        assert(!after_cleanup.live(b));
                    }
                    if !old(self).is_effect_node(node_id) && old(self).children_of(
                        node_id,
                    ).len() == 0 {
                        assert(after_cleanup == *old(self));
                    }
                }
                assert forall|x: NodeId|
                    x.index() < old(self).n() && old(self).live(x) && self.live(x) implies (
                #[trigger] self.is_effect_node(x)) == old(self).is_effect_node(x) by {
                    assert(after_cleanup.live(x)) by {
                        if !after_cleanup.live(x) {
                            assert(!self.live(x));
                        }
                    }
                    assert(before_resolve.live(x));
                    assert(before_resolve.is_effect_node(x) == old(self).is_effect_node(x));
                    assert(after_cleanup.is_effect_node(x) == before_resolve.is_effect_node(x));
                    assert(self.is_effect_node(x) == after_cleanup.is_effect_node(x));
                }
                assert(orphans_kept(old(self), self)) by {
                    assert forall|x: NodeId|
                        x.index() < old(self).n() && old(self).live(x) && old(self).parent_of(
                            x,
                        ) is None implies (#[trigger] self.live(x)) && self.parent_of(
                        x,
                    ) is None by {
                        assert(before_resolve.live(x));
                        assert(before_resolve.parent_of(x) is None);
                        assert(after_cleanup.live(x));
                        assert(after_cleanup.parent_of(x) is None);
                    }
                }
            }
        }
        proof {
            assert(orphans_kept(old(self), self)) by {
                assert forall|x: NodeId|
                    x.index() < old(self).n() && old(self).live(x) && old(self).parent_of(
                        x,
                    ) is None implies (#[trigger] self.live(x)) && self.parent_of(x) is None by {}
            }
        }
        let ghost before_clean = *self;
        proof {
            assert(orphans_kept(old(self), &before_clean));
        }
        self.mark_clean(node_id);
        proof {
            assert forall|x: NodeId|
                x.index() < old(self).n() && !old(self).live(x) implies !(self.live(x)) by {
                assert(!before_clean.live(x));
            }
            assert forall|x: NodeId|
                x.index() < old(self).n() && old(self).live(x) && self.live(x) implies (
            #[trigger] self.is_effect_node(x)) == old(self).is_effect_node(x) by {
                assert(before_clean.live(x));
                assert(before_clean.is_effect_node(x) == old(self).is_effect_node(x));
                assert(self.is_effect_node(x) == before_clean.is_effect_node(x));
            }
            assert(orphans_kept(old(self), self)) by {
                assert forall|x: NodeId|
                    x.index() < old(self).n() && old(self).live(x) && old(self).parent_of(
                        x,
                    ) is None implies (#[trigger] self.live(x)) && self.parent_of(x) is None by {
                    assert(before_clean.live(x));
                    assert(before_clean.parent_of(x) is None);
                    assert(self.live(x) == before_clean.live(x));
                    assert(self.parent_of(x) == before_clean.parent_of(x));
                }
            }
            if old(self).live(node_id) && (old(self).state_of(node_id) == NodeState::Dirty || old(self).state_of(node_id) == NodeState::DirtyMarked) {
                assert forall|b: NodeId|
                    old(self).owned_by(node_id, b) implies !(self.live(b)) by {
                    assert(!before_clean.live(b));
                }
                if !old(self).is_effect_node(node_id) && old(self).children_of(node_id).len()
                    == 0 {
                    lemma_marks_trans(old(self), &before_clean, self);
                    assert(self.pending() == old(self).pending());
                    assert(self.live(node_id));
                    assert(self.state_of(node_id) == NodeState::Clean);
                    assert forall|x: NodeId|
                        x.index() < old(self).n() && old(self).live(x) && x != node_id implies (
                    #[trigger] self.state_of(x)) == (if old(self).subs_of(node_id).contains(x) {
                        NodeState::Dirty
                    } else {
                        old(self).state_of(x)
                    }) by {
                        assert(before_clean.live(x));
                        assert(self.state_of(x) == before_clean.state_of(x));
                    }
                    assert(signal_resolved(old(self), self, node_id));
                }
                if old(self).is_effect_node(node_id) && self.live(node_id) {
                    assert(before_clean.live(node_id));
                    assert(before_clean.value_of(node_id) is Some);
                    assert(self.value_of(node_id) == before_clean.value_of(node_id));
                }
            }
            if quiet {
                assert(before_clean == *old(self));
                lemma_marks_trans(old(self), &before_clean, self);
                assert forall|x: NodeId|
                    x.index() < old(self).n() && old(self).live(x) && x != node_id implies (
                #[trigger] self.state_of(x)) == old(self).state_of(x) by {
                    assert(self.state_of(x) == before_clean.state_of(x));
                }
                assert(settled_clean(old(self), self, node_id));
            }
        }
    }

    /// Updates the node only if necessary.
    ///
    /// If it is marked check, the sources are recursively resolved first,
    /// stopping early once one of them escalates this node to dirty. If it
    /// is marked dirty, its owned children are disposed and it is re-run
    /// regardless of the state of the sources. Either way the node is clean
    /// afterwards, so a second call without an intervening mutation is a
    /// pure no-op, as is a call on a clean or disposed node.
    pub fn update_if_necessary(&mut self, node_id: NodeId)
        requires
            old(self).wf(),
        ensures
            final(self).wf(),
            final(self).n() >= old(self).n(),
            same_context(old(self), final(self)),
            forall|x: NodeId|
                x.index() < old(self).n() && !old(self).live(x) ==> !(#[trigger] final(self).live(
                    x,
                )),
            !old(self).live(node_id) ==> *final(self) == *old(self),
            old(self).live(node_id) && old(self).state_of(node_id) == NodeState::Clean ==> *final(self) == *old(self),
            final(self).live(node_id) ==> final(self).state_of(node_id) == NodeState::Clean,
            old(self).live(node_id) && (old(self).state_of(node_id) == NodeState::Dirty || old(self).state_of(node_id) == NodeState::DirtyMarked) ==> (forall|b: NodeId|
                old(self).owned_by(node_id, b) ==> !final(self).live(b)),
            old(self).live(node_id) && (old(self).state_of(node_id) == NodeState::Dirty || old(self).state_of(node_id) == NodeState::DirtyMarked) && !old(self).is_effect_node(node_id)
                && old(self).children_of(node_id).len() == 0 ==> signal_resolved(
                old(self),
                final(self),
                node_id,
            ),
            old(self).live(node_id) && (old(self).state_of(node_id) == NodeState::Dirty || old(self).state_of(node_id) == NodeState::DirtyMarked) && old(self).is_effect_node(node_id)
                && final(self).live(node_id) ==> final(self).value_of(node_id) is Some,
            old(self).live(node_id) && old(self).state_of(node_id) == NodeState::Check
                && sources_all_clean(old(self), node_id) ==> settled_clean(
                old(self),
                final(self),
                node_id,
            ),
            forall|x: NodeId|
                x.index() < old(self).n() && old(self).live(x) && final(self).live(x) ==> (
                #[trigger] final(self).is_effect_node(x)) == old(self).is_effect_node(x),
            orphans_kept(old(self), final(self)),
    {
        self.update_if_necessary_rec(node_id, SOURCE_DEPTH_BUDGET)
    }

    /// Runs all the pending effects.
    ///
    /// The queue is taken out before draining, so effects scheduled while it
    /// drains populate a fresh queue that the next flush processes.
    ///
    /// Each entry is resolved in queue order, and resolution leaves it clean
    /// or disposed at that moment; in particular the last entry, which
    /// nothing else can touch afterwards, ends the flush clean or disposed,
    /// and a queue of only stale ids drains with nothing else changed. No
    /// clause states where every old entry ends up, because it would be
    /// false: a later entry's run may re-escalate an already resolved one
    /// straight to dirty through the one-hop propagation in `update`,
    /// without re-queueing it. The flush scenarios are exercised by the
    /// tests.
    pub fn run_effects(&mut self)
        requires
            old(self).wf(),
        ensures
            final(self).wf(),
            final(self).n() >= old(self).n(),
            same_context(old(self), final(self)),
            forall|x: NodeId|
                x.index() < old(self).n() && !old(self).live(x) ==> !(#[trigger] final(self).live(
                    x,
                )),
            old(self).pending().len() == 0 ==> *final(self) == *old(self),
            old(self).pending().len() > 0 ==> (final(self).live(old(self).pending().last())
                ==> final(self).state_of(old(self).pending().last()) == NodeState::Clean),
            (forall|k: int|
                0 <= k < old(self).pending().len() ==> !old(self).live(
                    #[trigger] old(self).pending()[k],
                )) ==> same_nodes(old(self), final(self)) && same_edges(old(self), final(self))
                && same_ownership(old(self), final(self)) && final(self).pending().len() == 0,
    {
        if self.pending_effects.len() == 0 {
            proof {
                assert(self.pending().len() == 0);
            }
            return ;
        }
        let effects = clone_ids(&self.pending_effects);
        self.pending_effects = Vec::new();
        let ghost drained = *self;
        proof {
            assert(self.wf());
            assert(effects@ == old(self).pending());
        }
        let mut k: usize = 0;
        while k < effects.len()
            invariant
                k <= effects@.len(),
                effects@ == old(self).pending(),
                old(self).wf(),
                self.wf(),
                self.n() >= old(self).n(),
                same_context(old(self), self),
                forall|x: NodeId|
                    x.index() < old(self).n() && !old(self).live(x) ==> !(#[trigger] self.live(x)),
                drained.wf(),
                drained.nodes == old(self).nodes,
                drained.node_subscribers == old(self).node_subscribers,
                drained.node_sources == old(self).node_sources,
                drained.node_children == old(self).node_children,
                drained.node_parents == old(self).node_parents,
                drained.pending_effects@.len() == 0,
                k > 0 ==> (self.live(effects@[k - 1]) ==> self.state_of(effects@[k - 1])
                    == NodeState::Clean),
                (forall|j: int|
                    0 <= j < effects@.len() ==> !old(self).live(#[trigger] effects@[j])) ==> *self
                    == drained,
            decreases effects@.len() - k,
        {
            let ghost pre_call = *self;
            self.update_if_necessary(effects[k]);
            proof {
                assert forall|x: NodeId|
                    x.index() < old(self).n() && !old(self).live(x) implies !(self.live(x)) by {
                    assert(!pre_call.live(x));
                }
                if forall|j: int|
                    0 <= j < effects@.len() ==> !old(self).live(#[trigger] effects@[j]) {
                    assert(!old(self).live(effects@[k as int]));
                    assert(effects@[k as int].idx < old(self).n()) by {
                        assert(ids_below(old(self).pending_effects@, old(self).n()));
                    }
                    assert(!pre_call.live(effects@[k as int]));
                    assert(*self == pre_call);
                }
            }
            k = k + 1;
        }
        proof {
            if forall|j: int| 0 <= j < effects@.len() ==> !old(self).live(#[trigger] effects@[j]) {
                assert(*self == drained);
                assert forall|x: NodeId|
                    x.index() < old(self).n() implies (#[trigger] self.live(x)) == old(self).live(
                    x,
                ) by {}
                assert(same_nodes(old(self), self));
                assert(same_edges(old(self), self));
                assert(same_ownership(old(self), self));
            }
        }
    }
}

} // verus!
