use vstd::prelude::*;
use vstd::multiset::Multiset;
use crate::digest::{mix_opt, payload_digest, payload_digest_exec};
use crate::dom::{DomV, NodeId, NodeV, RealDom, first_index, lemma_first_index};
use crate::mask::{MaskV, NodeMask};
use crate::passes::PassDirection;

verus! {

/// The derived-state slot of node `n` for the pass at index `pi`; absent
/// when anything about the reference is out of range.
pub open spec fn slot_of(m: DomV, n: NodeId, pi: int) -> Option<u64> {
    if m.existing(n) && 0 <= pi < m.node(n).states.len() {
        m.node(n).states[pi]
    } else {
        Option::None
    }
}

/// The slot of `n`'s parent for the pass at index `pi`.
pub open spec fn parent_slot_of(m: DomV, n: NodeId, pi: int) -> Option<u64> {
    match m.node(n).parent {
        Option::Some(p) => slot_of(m, p, pi),
        Option::None => Option::None,
    }
}

/// The index of the pass with identifier `x`, or -1.
pub open spec fn pass_index(m: DomV, x: u64) -> int {
    first_index(m.passes.map_values(|p: crate::passes::PassV| p.desc.id), x)
}

/// Absorb, for each declared parent dependency in order, the parent's
/// slot of that pass.
pub open spec fn digest_parent_deps(m: DomV, n: NodeId, deps: Seq<u64>, h: u64) -> u64
    decreases deps.len(),
{
    if deps.len() == 0 {
        h
    } else {
        mix_opt(
            digest_parent_deps(m, n, deps.drop_last(), h),
            parent_slot_of(m, n, pass_index(m, deps.last())),
        )
    }
}

/// Absorb the slots of every child, in child order, for pass `pi`.
pub open spec fn digest_child_slots(m: DomV, cs: Seq<NodeId>, pi: int, h: u64) -> u64
    decreases cs.len(),
{
    if cs.len() == 0 {
        h
    } else {
        mix_opt(digest_child_slots(m, cs.drop_last(), pi, h), slot_of(m, cs.last(), pi))
    }
}

/// Absorb, for each declared child dependency in order, the slots of
/// every child.
pub open spec fn digest_child_deps(m: DomV, n: NodeId, deps: Seq<u64>, h: u64) -> u64
    decreases deps.len(),
{
    if deps.len() == 0 {
        h
    } else {
        digest_child_slots(
            m,
            m.node(n).children,
            pass_index(m, deps.last()),
            digest_child_deps(m, n, deps.drop_last(), h),
        )
    }
}

/// Absorb, for each declared same-node dependency in order, this node's
/// slot of that pass.
pub open spec fn digest_node_deps(m: DomV, n: NodeId, deps: Seq<u64>, h: u64) -> u64
    decreases deps.len(),
{
    if deps.len() == 0 {
        h
    } else {
        mix_opt(
            digest_node_deps(m, n, deps.drop_last(), h),
            slot_of(m, n, pass_index(m, deps.last())),
        )
    }
}

/// The value the pass at index `p` computes for node `n`: a digest of the
/// node's payload and of every declared dependency slot.  Equal payloads
/// and equal dependency values give an equal digest, so an unchanged
/// digest publishes no invalidation.
#[verifier::opaque]
pub open spec fn node_digest_spec(m: DomV, p: int, n: NodeId) -> u64 {
    let h0 = payload_digest(m.node(n).ty);
    let h1 = digest_parent_deps(m, n, m.passes[p].desc.parent_deps, h0);
    let h2 = digest_child_deps(m, n, m.passes[p].desc.child_deps, h1);
    digest_node_deps(m, n, m.passes[p].desc.node_deps, h2)
}

/// Whether running pass `p` on node `n`, with a changed value, marks pass
/// `q` dirty on node `x` for the next cycle: via the recorded dependant
/// edges on the children, the parent, or the node itself.
pub open spec fn invalidates(m: DomV, p: int, n: NodeId, x: NodeId, q: int) -> bool {
    ||| (m.passes[p].dep_child.contains(q as usize) && m.node(n).children.contains(x))
    ||| (m.passes[p].dep_parent.contains(q as usize) && m.node(n).parent == Option::Some(x))
    ||| (m.passes[p].dep_node.contains(q as usize) && x == n)
}

/// The dom with the next-cycle marks that a changed value of pass `p` on
/// node `n` produces.
pub open spec fn invalidate(m: DomV, p: int, n: NodeId) -> DomV {
    DomV {
        nodes: Seq::new(
            m.nodes.len(),
            |x: int| match m.nodes[x] {
                Option::None => Option::None,
                Option::Some(nd) => Option::Some(
                    NodeV {
                        dirty: Seq::new(
                            nd.dirty.len(),
                            |q: int| nd.dirty[q] || invalidates(m, p, n, x as usize, q),
                        ),
                        ..nd
                    },
                ),
            },
        ),
        ..m
    }
}

/// One work item: recompute the digest of pass `p` on node `n`, store it,
/// and, when it changed, record the next-cycle invalidations.
pub open spec fn run_item(m: DomV, p: int, n: NodeId) -> DomV {
    if !m.existing(n) || p < 0 || p >= m.node(n).states.len() {
        m
    } else {
        let d = node_digest_spec(m, p, n);
        let changed = m.node(n).states[p] != Option::Some(d);
        let m1 = m.with_node(
            n,
            NodeV { states: m.node(n).states.update(p, Option::Some(d)), ..m.node(n) },
        );
        if changed {
            invalidate(m1, p, n)
        } else {
            m1
        }
    }
}

/// A whole cycle: the work items, in order, starting from the drained dom.
pub open spec fn run_trace(m: DomV, tr: Seq<(usize, NodeId)>) -> DomV
    decreases tr.len(),
{
    if tr.len() == 0 {
        m
    } else {
        run_item(run_trace(m, tr.drop_last()), tr.last().0 as int, tr.last().1)
    }
}

/// The dom with every dirty record drained: no pass dirty anywhere, no
/// accumulated mask anywhere, no staged removed-node masks.
pub open spec fn cleared(m: DomV) -> DomV {
    DomV {
        removed: Seq::empty(),
        nodes: Seq::new(
            m.nodes.len(),
            |x: int| match m.nodes[x] {
                Option::None => Option::None,
                Option::Some(nd) => Option::Some(
                    NodeV {
                        dirty: Seq::new(nd.dirty.len(), |q: int| false),
                        dirty_mask: Option::None,
                        ..nd
                    },
                ),
            },
        ),
        ..m
    }
}

/// Whether pass `p` was due on node `n` at the start of the cycle.
pub open spec fn was_dirty(m: DomV, p: int, n: NodeId) -> bool {
    m.existing(n) && 0 <= p < m.node(n).dirty.len() && m.node(n).dirty[p]
}

/// The position of pass index `p` in the schedule.
pub open spec fn sched_pos(m: DomV, p: usize) -> int {
    first_index(m.schedule, p)
}

/// How two work items of one directional pass must be ordered: by height,
/// rootward first for parent-to-child passes and leafward first for
/// child-to-parent passes, with the node identifier as tie break.
pub open spec fn queue_before(m: DomV, dir: PassDirection, a: NodeId, b: NodeId) -> bool {
    let ha = m.node(a).height;
    let hb = m.node(b).height;
    if dir is ChildToParent {
        ha > hb || (ha == hb && a < b)
    } else {
        ha < hb || (ha == hb && a < b)
    }
}

/// Two models that differ only in dirty records, accumulated masks and
/// stored state values keep the invariant together.
pub proof fn lemma_wf_same_structure(m1: DomV, m2: DomV)
    requires
        m1.wf(),
        m2.nodes.len() == m1.nodes.len(),
        forall|x: NodeId| m1.existing(x) == m2.existing(x),
        forall|x: NodeId|
            m1.existing(x) ==> {
                &&& (#[trigger] m2.node(x)).ty == m1.node(x).ty
                &&& m2.node(x).parent == m1.node(x).parent
                &&& m2.node(x).children == m1.node(x).children
                &&& m2.node(x).height == m1.node(x).height
                &&& m2.node(x).states.len() == m1.node(x).states.len()
                &&& m2.node(x).dirty.len() == m1.node(x).dirty.len()
            },
        m2.listeners == m1.listeners,
        m2.passes == m1.passes,
        m2.schedule == m1.schedule,
        m2.removed_ok(),
    ensures
        m2.wf(),
{
    assert(m2.existing(crate::dom::ROOT_ID));
    assert forall|x: NodeId| m2.existing(x) implies #[trigger] m2.node_ok(x) by {
        assert(m1.existing(x));
        assert(m1.node_ok(x));
        match m2.node(x).parent {
            Option::Some(p) => {
                assert(m1.existing(p));
                assert(m2.node(p).height == m1.node(p).height);
                assert(m2.node(p).children == m1.node(p).children);
            },
            Option::None => {},
        }
        assert forall|k: int|
            0 <= k < m2.node(x).children.len() implies m2.existing(#[trigger] m2.node(x).children[k])
            && m2.node(m2.node(x).children[k]).parent == Option::Some(x) by {
            let c = m1.node(x).children[k];
            assert(m1.existing(c) && m1.node(c).parent == Option::Some(x));
        }
    }
    assert(m2.listeners_ok()) by {
        assert forall|i: int, k: int|
            0 <= i < m2.listeners.len() && 0 <= k < m2.listeners[i].1.len() implies m2.existing(
            #[trigger] m2.listeners[i].1[k]) by {
            assert(m1.existing(m1.listeners[i].1[k]));
        }
    }
}

/// Clearing the dirty records keeps the invariant.
pub proof fn lemma_cleared_wf(m: DomV)
    requires
        m.wf(),
    ensures
        cleared(m).wf(),
{
    assert(cleared(m).removed_ok());
    lemma_wf_same_structure(m, cleared(m));
}

/// One work item keeps the invariant.
#[verifier::rlimit(100)]
#[verifier::spinoff_prover]
pub proof fn lemma_run_item_wf(m: DomV, p: int, n: NodeId)
    requires
        m.wf(),
    ensures
        run_item(m, p, n).wf(),
{
    if m.existing(n) && 0 <= p < m.node(n).states.len() {
        assert(m.node_ok(n));
        let d = node_digest_spec(m, p, n);
        let nn = NodeV { states: m.node(n).states.update(p, Option::Some(d)), ..m.node(n) };
        assert(nn.states.len() == m.passes.len());
        assert(nn.dirty.len() == m.passes.len());
        assert(crate::dom::payload_ok(nn.ty));
        let m1 = m.with_node(n, nn);
        crate::dom::lemma_with_node_same_links(m, n, nn);
        let m2 = invalidate(m1, p, n);
        assert(m2.nodes.len() == m1.nodes.len());
        assert forall|x: NodeId| m1.existing(x) implies m2.existing(x) == m1.existing(x) by {}
        assert forall|x: NodeId| !m1.existing(x) implies m2.existing(x) == m1.existing(x) by {
            if x < m1.nodes.len() {
                assert(m1.nodes[x as int] is None);
            }
        }
        assert forall|x: NodeId| m1.existing(x) implies {
            &&& (#[trigger] m2.node(x)).ty == m1.node(x).ty
            &&& m2.node(x).parent == m1.node(x).parent
            &&& m2.node(x).children == m1.node(x).children
            &&& m2.node(x).height == m1.node(x).height
            &&& m2.node(x).states.len() == m1.node(x).states.len()
            &&& m2.node(x).dirty.len() == m1.node(x).dirty.len()
        } by {}
        assert(m2.removed_ok()) by {
            assert(m2.removed == m1.removed);
            assert forall|i: int|
                0 <= i < m2.removed.len() implies (#[trigger] m2.removed[i]).0 < m2.nodes.len()
                && !m2.existing(m2.removed[i].0) by {
                assert(!m1.existing(m1.removed[i].0));
            }
        }
        lemma_wf_same_structure(m1, m2);
    }
}

/// A whole trace keeps the invariant.
#[verifier::rlimit(60)]
pub proof fn lemma_run_trace_wf(m: DomV, tr: Seq<(usize, NodeId)>)
    requires
        m.wf(),
    ensures
        run_trace(m, tr).wf(),
    decreases tr.len(),
{
    if tr.len() > 0 {
        lemma_run_trace_wf(m, tr.drop_last());
        lemma_run_item_wf(run_trace(m, tr.drop_last()), tr.last().0 as int, tr.last().1);
    }
}

/// One work item does not touch the tree links, the payloads, the
/// listener index, the passes or the schedule.
#[verifier::rlimit(100)]
#[verifier::spinoff_prover]
pub proof fn lemma_run_item_structure(m: DomV, p: int, n: NodeId)
    ensures
        run_item(m, p, n).nodes.len() == m.nodes.len(),
        forall|x: NodeId| run_item(m, p, n).existing(x) == m.existing(x),
        forall|x: NodeId|
            m.existing(x) ==> {
                &&& (#[trigger] run_item(m, p, n).node(x)).ty == m.node(x).ty
                &&& run_item(m, p, n).node(x).parent == m.node(x).parent
                &&& run_item(m, p, n).node(x).children == m.node(x).children
                &&& run_item(m, p, n).node(x).height == m.node(x).height
                &&& run_item(m, p, n).node(x).states.len() == m.node(x).states.len()
                &&& run_item(m, p, n).node(x).dirty.len() == m.node(x).dirty.len()
            },
        run_item(m, p, n).listeners == m.listeners,
        run_item(m, p, n).passes == m.passes,
        run_item(m, p, n).schedule == m.schedule,
        run_item(m, p, n).removed == m.removed,
{
    if m.existing(n) && 0 <= p < m.node(n).states.len() {
        let d = node_digest_spec(m, p, n);
        let nn = NodeV { states: m.node(n).states.update(p, Option::Some(d)), ..m.node(n) };
        let m1 = m.with_node(n, nn);
        assert forall|x: NodeId| m.existing(x) implies {
            &&& (#[trigger] run_item(m, p, n).node(x)).ty == m.node(x).ty
            &&& run_item(m, p, n).node(x).parent == m.node(x).parent
            &&& run_item(m, p, n).node(x).children == m.node(x).children
            &&& run_item(m, p, n).node(x).height == m.node(x).height
            &&& run_item(m, p, n).node(x).states.len() == m.node(x).states.len()
            &&& run_item(m, p, n).node(x).dirty.len() == m.node(x).dirty.len()
        } by {
            assert(m1.existing(x));
            if x == n {
                assert(m1.node(x) == nn);
            } else {
                assert(m1.node(x) == m.node(x));
            }
            let m2 = invalidate(m1, p, n);
            assert(m1.nodes[x as int] is Some);
            assert(m2.node(x).ty == m1.node(x).ty);
            assert(m2.node(x).parent == m1.node(x).parent);
            assert(m2.node(x).children == m1.node(x).children);
            assert(m2.node(x).height == m1.node(x).height);
            assert(m2.node(x).states == m1.node(x).states);
            assert(m2.node(x).dirty.len() == m1.node(x).dirty.len());
        }
        assert forall|x: NodeId| run_item(m, p, n).existing(x) == m.existing(x) by {
            if x < m.nodes.len() {
                assert(m1.existing(x) == m.existing(x));
                let m2 = invalidate(m1, p, n);
                assert(m2.existing(x) == m1.existing(x)) by {
                    if m1.nodes[x as int] is Some {
                        assert(m2.nodes[x as int] is Some);
                    } else {
                        assert(m2.nodes[x as int] is None);
                    }
                }
            }
        }
    }
}

/// Work items do not touch the tree links, the payloads, the listener
/// index, the passes or the schedule.
#[verifier::rlimit(100)]
#[verifier::spinoff_prover]
pub proof fn lemma_run_trace_structure(m: DomV, tr: Seq<(usize, NodeId)>)
    ensures
        run_trace(m, tr).nodes.len() == m.nodes.len(),
        forall|x: NodeId| run_trace(m, tr).existing(x) == m.existing(x),
        forall|x: NodeId|
            m.existing(x) ==> {
                &&& (#[trigger] run_trace(m, tr).node(x)).ty == m.node(x).ty
                &&& run_trace(m, tr).node(x).parent == m.node(x).parent
                &&& run_trace(m, tr).node(x).children == m.node(x).children
                &&& run_trace(m, tr).node(x).height == m.node(x).height
                &&& run_trace(m, tr).node(x).states.len() == m.node(x).states.len()
                &&& run_trace(m, tr).node(x).dirty.len() == m.node(x).dirty.len()
            },
        run_trace(m, tr).listeners == m.listeners,
        run_trace(m, tr).passes == m.passes,
        run_trace(m, tr).schedule == m.schedule,
        run_trace(m, tr).removed == m.removed,
    decreases tr.len(),
{
    if tr.len() > 0 {
        lemma_run_trace_structure(m, tr.drop_last());
        let prev = run_trace(m, tr.drop_last());
        let p = tr.last().0 as int;
        let n = tr.last().1;
        lemma_run_item_structure(prev, p, n);
        assert forall|x: NodeId| m.existing(x) implies {
            &&& (#[trigger] run_trace(m, tr).node(x)).ty == m.node(x).ty
            &&& run_trace(m, tr).node(x).parent == m.node(x).parent
            &&& run_trace(m, tr).node(x).children == m.node(x).children
            &&& run_trace(m, tr).node(x).height == m.node(x).height
            &&& run_trace(m, tr).node(x).states.len() == m.node(x).states.len()
            &&& run_trace(m, tr).node(x).dirty.len() == m.node(x).dirty.len()
        } by {
            assert(prev.existing(x));
            assert(run_trace(m, tr) == run_item(prev, p, n));
        }
    }
}

/// Whether a list of pass indices holds `x`.
fn contains_index(v: &Vec<usize>, x: usize) -> (b: bool)
    ensures
        b == v@.contains(x),
{
    let mut i: usize = 0;
    while i < v.len()
        invariant
            i <= v@.len(),
            forall|j: int| 0 <= j < i ==> v@[j] != x,
        decreases v@.len() - i,
    {
        if v[i] == x {
            assert(v@.contains(x)) by {
                assert(v@[i as int] == x);
            }
            return true;
        }
        i += 1;
    }
    proof {
        if v@.contains(x) {
            let j = choose|j: int| 0 <= j < v@.len() && v@[j] == x;
        }
    }
    false
}

impl RealDom {
    /// The index of the pass with identifier `x`.
    fn pass_index_exec(&self, x: u64) -> (r: Option<usize>)
        ensures
            match r {
                Option::Some(i) => i < self@.passes.len() && pass_index(self@, x) == i as int,
                Option::None => pass_index(self@, x) == -1,
            },
    {
        let ghost ids = self@.passes.map_values(|p: crate::passes::PassV| p.desc.id);
        proof {
            assert(ids.len() == self@.passes.len());
        }
        let mut i: usize = 0;
        while i < self.passes.len()
            invariant
                i <= self@.passes.len(),
                ids == self@.passes.map_values(|p: crate::passes::PassV| p.desc.id),
                ids.len() == self@.passes.len(),
                self@.passes.len() == self.passes@.len(),
                forall|j: int| 0 <= j < i ==> ids[j] != x,
            decreases self@.passes.len() - i,
        {
            proof {
                assert(ids[i as int] == self@.passes[i as int].desc.id);
                assert(self@.passes[i as int] == self.passes@[i as int]@);
            }
            if self.passes[i].desc.id == x {
                proof {
                    lemma_first_index(ids, x);
                    let fi = first_index(ids, x);
                    assert(ids.contains(x)) by {
                        assert(ids[i as int] == x);
                    }
                    assert(fi != -1);
                    if fi < i {
                        assert(ids[fi] != x);
                    }
                    if fi > i {
                        assert(ids[i as int] != x);
                    }
                }
                return Option::Some(i);
            }
            i += 1;
        }
        proof {
            lemma_first_index(ids, x);
            let fi = first_index(ids, x);
            if fi != -1 {
                assert(ids[fi] != x);
            }
        }
        Option::None
    }

    /// The derived slot of `n` for the pass with identifier `dep`.
    fn dep_slot(&self, n: NodeId, dep: u64) -> (r: Option<u64>)
        ensures
            r == slot_of(self@, n, pass_index(self@, dep)),
    {
        let pi = match self.pass_index_exec(dep) {
            Option::Some(i) => i,
            Option::None => {
                return Option::None;
            },
        };
        if n < self.nodes.len() {
            match &self.nodes[n] {
                Option::Some(nd) => {
                    if pi < nd.states.len() {
                        nd.states[pi]
                    } else {
                        Option::None
                    }
                },
                Option::None => Option::None,
            }
        } else {
            Option::None
        }
    }

    /// The digest the pass at index `p` computes for node `n`.
    fn compute_digest(&self, p: usize, n: NodeId) -> (d: u64)
        requires
            self@.wf(),
            self@.existing(n),
            p < self@.passes.len(),
        ensures
            d == node_digest_spec(self@, p as int, n),
    {
        proof {
            reveal(node_digest_spec);
            assert(self@.node_ok(n));
            assert(self@.passes[p as int] == self.passes@[p as int]@);
        }
        let ghost m = self@;
        let h0 = match &self.nodes[n] {
            Option::Some(nd) => payload_digest_exec(&nd.ty),
            Option::None => 0,
        };
        proof {
            assert(h0 == payload_digest(m.node(n).ty));
        }
        // parent dependencies
        let ghost pdeps = m.passes[p as int].desc.parent_deps;
        let mut h = h0;
        let mut i: usize = 0;
        while i < self.passes[p].desc.parent_dependencies.len()
            invariant
                self@ == m,
                m.wf(),
                m.existing(n),
                p < m.passes.len(),
                pdeps == m.passes[p as int].desc.parent_deps,
                m.passes[p as int] == self.passes@[p as int]@,
                p < self.passes@.len(),
                i <= pdeps.len(),
                h == digest_parent_deps(m, n, pdeps.take(i as int), h0),
            decreases pdeps.len() - i,
        {
            let dep = self.passes[p].desc.parent_dependencies[i];
            let slot = match self.parent_id(n) {
                Option::Some(par) => self.dep_slot(par, dep),
                Option::None => Option::None,
            };
            proof {
                assert(slot == parent_slot_of(m, n, pass_index(m, dep)));
            }
            h = crate::digest::mix_opt_exec(h, slot);
            proof {
                assert(pdeps.take(i + 1).drop_last() =~= pdeps.take(i as int));
                assert(pdeps.take(i + 1).last() == pdeps[i as int]);
            }
            i += 1;
        }
        proof {
            assert(pdeps.take(pdeps.len() as int) =~= pdeps);
        }
        // child dependencies
        let ghost cdeps = m.passes[p as int].desc.child_deps;
        let children = self.child_ids(n);
        proof {
            assert(children@ == m.node(n).children);
        }
        let mut i2: usize = 0;
        while i2 < self.passes[p].desc.child_dependencies.len()
            invariant
                self@ == m,
                m.wf(),
                m.existing(n),
                p < m.passes.len(),
                cdeps == m.passes[p as int].desc.child_deps,
                m.passes[p as int] == self.passes@[p as int]@,
                p < self.passes@.len(),
                children@ == m.node(n).children,
                i2 <= cdeps.len(),
                h == digest_child_deps(m, n, cdeps.take(i2 as int), digest_parent_deps(m, n, m.passes[p as int].desc.parent_deps, h0)),
            decreases cdeps.len() - i2,
        {
            let dep = self.passes[p].desc.child_dependencies[i2];
            let pi = self.pass_index_exec(dep);
            let ghost hpre = h;
            let mut j: usize = 0;
            while j < children.len()
                invariant
                    self@ == m,
                    m.wf(),
                    children@ == m.node(n).children,
                    j <= children@.len(),
                    pi == (if pass_index(m, dep) == -1 {
                        Option::<usize>::None
                    } else {
                        Option::Some(pass_index(m, dep) as usize)
                    }),
                    h == digest_child_slots(m, children@.take(j as int), pass_index(m, dep), hpre),
                decreases children@.len() - j,
            {
                let c = children[j];
                let slot = match pi {
                    Option::Some(_) => self.dep_slot(c, dep),
                    Option::None => Option::None,
                };
                proof {
                    assert(slot == slot_of(m, c, pass_index(m, dep)));
                }
                h = crate::digest::mix_opt_exec(h, slot);
                proof {
                    assert(children@.take(j + 1).drop_last() =~= children@.take(j as int));
                    assert(children@.take(j + 1).last() == children@[j as int]);
                }
                j += 1;
            }
            proof {
                assert(children@.take(children@.len() as int) =~= children@);
                assert(cdeps.take(i2 + 1).drop_last() =~= cdeps.take(i2 as int));
                assert(cdeps.take(i2 + 1).last() == cdeps[i2 as int]);
            }
            i2 += 1;
        }
        proof {
            assert(cdeps.take(cdeps.len() as int) =~= cdeps);
        }
        // same-node dependencies
        let ghost ndeps = m.passes[p as int].desc.node_deps;
        let ghost h2 = h;
        let mut i3: usize = 0;
        while i3 < self.passes[p].desc.node_dependencies.len()
            invariant
                self@ == m,
                m.wf(),
                m.existing(n),
                p < m.passes.len(),
                ndeps == m.passes[p as int].desc.node_deps,
                m.passes[p as int] == self.passes@[p as int]@,
                p < self.passes@.len(),
                i3 <= ndeps.len(),
                h == digest_node_deps(m, n, ndeps.take(i3 as int), h2),
            decreases ndeps.len() - i3,
        {
            let dep = self.passes[p].desc.node_dependencies[i3];
            let slot = self.dep_slot(n, dep);
            h = crate::digest::mix_opt_exec(h, slot);
            proof {
                assert(ndeps.take(i3 + 1).drop_last() =~= ndeps.take(i3 as int));
                assert(ndeps.take(i3 + 1).last() == ndeps[i3 as int]);
            }
            i3 += 1;
        }
        proof {
            assert(ndeps.take(ndeps.len() as int) =~= ndeps);
        }
        h
    }
}

/// The first `upto` slots carry the invalidation marks of (p, n).
pub open spec fn inv_nodes_upto(m: DomV, cur: Seq<Option<NodeV>>, p: int, n: NodeId, upto: int) -> bool {
    forall|x: int|
        0 <= x < upto ==> #[trigger] cur[x] == invalidate(m, p, n).nodes[x]
}

/// The first `q` dirty bits of node `x` carry the invalidation marks.
pub open spec fn inv_marks_upto(m: DomV, d: Seq<bool>, d0: Seq<bool>, p: int, n: NodeId, x: NodeId, q: int) -> bool {
    forall|qq: int| 0 <= qq < q ==> d[qq] == (d0[qq] || invalidates(m, p, n, x, qq))
}

impl RealDom {
    /// Record the next-cycle invalidations of a changed value of pass `p`
    /// on node `n`: via the dependant edges, on `n`'s children, parent,
    /// and `n` itself.
    fn apply_invalidation(&mut self, p: usize, n: NodeId)
        requires
            old(self)@.wf(),
            old(self)@.existing(n),
            p < old(self)@.passes.len(),
        ensures
            final(self)@ == invalidate(old(self)@, p as int, n),
            final(self)@.wf(),
    {
        let ghost m = self@;
        let total = self.nodes.len();
        let np = self.passes.len();
        proof {
            assert(m.node_ok(n));
            assert(m.passes[p as int] == self.passes@[p as int]@);
            assert(m.nodes.len() == self.nodes@.len());
            assert(m.nodes.len() <= usize::MAX);
            assert(np == m.passes.len());
        }
        let children = self.child_ids(n);
        let parent = self.parent_id(n);
        proof {
            assert(children@ == m.node(n).children);
            assert(parent == m.node(n).parent);
        }
        let mut x: usize = 0;
        while x < total
            invariant
                total == m.nodes.len(),
                np == m.passes.len(),
                self.nodes@.len() == total,
                m.wf(),
                m.existing(n),
                p < np,
                children@ == m.node(n).children,
                parent == m.node(n).parent,
                m.passes[p as int] == self.passes@[p as int]@,
                self.passes@.len() == np,
                self@.passes == m.passes,
                self@.schedule == m.schedule,
                self@.listeners == m.listeners,
                self@.removed == m.removed,
                x <= total,
                inv_nodes_upto(m, self@.nodes, p as int, n, x as int),
                forall|y: int| x <= y < total ==> #[trigger] self@.nodes[y] == m.nodes[y],
            decreases total - x,
        {
            let ghost pre_nodes = self@.nodes;
            let is_some = self.nodes[x].is_some();
            if is_some {
                let mut nd = self.nodes[x].take().unwrap();
                proof {
                    assert(pre_nodes[x as int] == m.nodes[x as int]);
                    assert(nd@ == m.node(x));
                    assert(m.node_ok(x));
                    assert(nd@.dirty.len() == np);
                }
                let ghost nd0 = nd@;
                let is_child = match crate::listeners::find_node_id(&children, x) {
                    Option::Some(_) => true,
                    Option::None => false,
                };
                proof {
                    lemma_first_index(children@, x);
                    let fi = first_index(children@, x);
                    if fi != -1 {
                        assert(children@[fi] == x);
                        assert(children@.contains(x));
                    } else {
                        if children@.contains(x) {
                            let t = choose|t: int| 0 <= t < children@.len() && children@[t] == x;
                            assert(children@[t] != x);
                        }
                    }
                    assert(is_child == m.node(n).children.contains(x));
                }
                let is_parent = match parent {
                    Option::Some(pp) => pp == x,
                    Option::None => false,
                };
                let is_self = x == n;
                let mut q: usize = 0;
                while q < np
                    invariant
                        np == m.passes.len(),
                        p < np,
                        q <= np,
                        m.passes[p as int] == self.passes@[p as int]@,
                        self.passes@.len() == np,
                        nd@.dirty.len() == np,
                        nd0.dirty.len() == np,
                        is_child == m.node(n).children.contains(x),
                        is_parent == (m.node(n).parent == Option::Some(x)),
                        is_self == (x == n),
                        inv_marks_upto(m, nd@.dirty, nd0.dirty, p as int, n, x, q as int),
                        forall|qq: int| q <= qq < np ==> nd@.dirty[qq] == nd0.dirty[qq],
                        nd@.ty == nd0.ty,
                        nd@.parent == nd0.parent,
                        nd@.children == nd0.children,
                        nd@.height == nd0.height,
                        nd@.states == nd0.states,
                        nd@.dirty_mask == nd0.dirty_mask,
                    decreases np - q,
                {
                    let add = (is_child && contains_index(&self.passes[p].dep_child, q)) || (
                    is_parent && contains_index(&self.passes[p].dep_parent, q)) || (is_self
                        && contains_index(&self.passes[p].dep_node, q));
                    proof {
                        assert(add == invalidates(m, p as int, n, x, q as int));
                    }
                    let b = nd.dirty[q];
                    let ghost prev = nd@.dirty;
                    nd.dirty[q] = b || add;
                    proof {
                        assert(nd@.dirty == prev.update(q as int, b || add));
                        assert(inv_marks_upto(m, nd@.dirty, nd0.dirty, p as int, n, x, q + 1)) by {
                            assert forall|qq: int| 0 <= qq < q + 1 implies nd@.dirty[qq] == (
                            nd0.dirty[qq] || invalidates(m, p as int, n, x, qq)) by {
                                if qq < q {
                                    assert(nd@.dirty[qq] == prev[qq]);
                                    assert(inv_marks_upto(m, prev, nd0.dirty, p as int, n, x, q as int));
                                    assert(prev[qq] == (nd0.dirty[qq] || invalidates(
                                        m,
                                        p as int,
                                        n,
                                        x,
                                        qq,
                                    )));
                                } else {
                                    assert(nd@.dirty[qq] == (b || add));
                                }
                            }
                        }
                    }
                    q += 1;
                }
                self.nodes[x] = Some(nd);
                proof {
                    assert(m.nodes[x as int] is Some);
                    assert(nd@ =~= invalidate(m, p as int, n).nodes[x as int]->Some_0) by {
                        assert(nd@.dirty =~= Seq::new(
                            nd0.dirty.len(),
                            |qq: int| nd0.dirty[qq] || invalidates(m, p as int, n, x, qq),
                        ));
                    }
                    assert(self@.nodes[x as int] == invalidate(m, p as int, n).nodes[x as int]);
                    assert forall|y: int| 0 <= y < x + 1 implies #[trigger] self@.nodes[y]
                        == invalidate(m, p as int, n).nodes[y] by {
                        if y < x {
                            assert(self@.nodes[y] == pre_nodes[y]);
                        }
                    }
                    assert forall|y: int| x + 1 <= y < total implies #[trigger] self@.nodes[y]
                        == m.nodes[y] by {
                        assert(self@.nodes[y] == pre_nodes[y]);
                    }
                }
            } else {
                proof {
                    assert(self@.nodes[x as int] == m.nodes[x as int]);
                    assert(m.nodes[x as int] is None);
                    assert(invalidate(m, p as int, n).nodes[x as int] is None);
                    assert forall|y: int| 0 <= y < x + 1 implies #[trigger] self@.nodes[y]
                        == invalidate(m, p as int, n).nodes[y] by {}
                }
            }
            x += 1;
        }
        proof {
            assert(self@ =~= invalidate(m, p as int, n));
            lemma_wf_same_structure(m, invalidate(m, p as int, n));
        }
    }
}

/// Strict ordering of queue entries (height, node): by height in the
/// pass's direction, then by node identifier.
pub open spec fn key_lt(a: (usize, usize), b: (usize, usize), desc: bool) -> bool {
    if desc {
        a.0 > b.0 || (a.0 == b.0 && a.1 < b.1)
    } else {
        a.0 < b.0 || (a.0 == b.0 && a.1 < b.1)
    }
}

/// No inversions.
pub open spec fn sorted_by_key(s: Seq<(usize, usize)>, desc: bool) -> bool {
    forall|i: int, j: int| 0 <= i < j < s.len() ==> !key_lt(s[j], s[i], desc)
}

fn key_lt_exec(a: (usize, usize), b: (usize, usize), desc: bool) -> (r: bool)
    ensures
        r == key_lt(a, b, desc),
{
    if desc {
        a.0 > b.0 || (a.0 == b.0 && a.1 < b.1)
    } else {
        a.0 < b.0 || (a.0 == b.0 && a.1 < b.1)
    }
}

/// Order a work queue; the result holds the same entries.
fn sort_queue(q: Vec<(usize, usize)>, desc: bool) -> (r: Vec<(usize, usize)>)
    ensures
        r@.to_multiset() == q@.to_multiset(),
        sorted_by_key(r@, desc),
{
    broadcast use vstd::seq_lib::group_to_multiset_ensures;

    let mut src = q;
    let mut out: Vec<(usize, usize)> = Vec::new();
    while src.len() > 0
        invariant
            out@.to_multiset().add(src@.to_multiset()) =~= q@.to_multiset(),
            sorted_by_key(out@, desc),
            forall|i: int, j: int|
                0 <= i < out@.len() && 0 <= j < src@.len() ==> !key_lt(
                    src@[j],
                    out@[i],
                    desc,
                ),
        decreases src@.len(),
    {
        // find a minimal entry
        let mut im: usize = 0;
        let mut i: usize = 1;
        while i < src.len()
            invariant
                src@.len() > 0,
                im < i <= src@.len() || (i == 1 && im == 0),
                im < src@.len(),
                forall|j: int| 0 <= j < i ==> !key_lt(src@[j], src@[im as int], desc),
            decreases src@.len() - i,
        {
            if key_lt_exec(src[i], src[im], desc) {
                im = i;
            }
            i += 1;
        }
        let ghost old_src = src@;
        let ghost old_out = out@;
        let x = src.remove(im);
        out.push(x);
        proof {
            old_src.to_multiset_ensures();
            old_out.to_multiset_ensures();
            assert(old_src[im as int] == x);
            assert(src@ == old_src.remove(im as int));
            assert(old_src.remove(im as int).to_multiset() =~= old_src.to_multiset().remove(
                old_src[im as int],
            ));
            assert(src@.to_multiset() =~= old_src.to_multiset().remove(x));
            assert(old_src.to_multiset().contains(x)) by {
                assert(old_src.contains(x)) by {
                    assert(old_src[im as int] == x);
                }
            }
            assert(out@ == old_out.push(x));
            assert(old_out.push(x).to_multiset() =~= old_out.to_multiset().insert(x));
            assert(out@.to_multiset() =~= old_out.to_multiset().insert(x));
            assert(out@.to_multiset().add(src@.to_multiset()) =~= q@.to_multiset()) by {
                assert(old_out.to_multiset().add(old_src.to_multiset()) =~= q@.to_multiset());
            }
            assert(sorted_by_key(out@, desc)) by {
                assert forall|i2: int, j2: int|
                    0 <= i2 < j2 < out@.len() implies !key_lt(out@[j2], out@[i2], desc) by {
                    if j2 == out@.len() - 1 {
                        assert(out@[j2] == x);
                        assert(old_out[i2] == out@[i2]);
                        assert(!key_lt(old_src[im as int], old_out[i2], desc));
                    }
                }
            }
            assert forall|i2: int, j2: int|
                0 <= i2 < out@.len() && 0 <= j2 < src@.len() implies !key_lt(
                src@[j2],
                out@[i2],
                desc,
            ) by {
                let j3 = if j2 < im { j2 } else { j2 + 1 };
                assert(src@[j2] == old_src[j3]);
                if i2 < out@.len() - 1 {
                    assert(out@[i2] == old_out[i2]);
                    assert(!key_lt(old_src[j3], old_out[i2], desc));
                } else {
                    assert(out@[i2] == x);
                    assert(!key_lt(old_src[j3], old_src[im as int], desc));
                }
            }
        }
    }
    proof {
        assert(src@.to_multiset() =~= Multiset::<(usize, usize)>::empty()) by {
            assert(src@ =~= Seq::<(usize, usize)>::empty());
        }
        assert(out@.to_multiset() =~= q@.to_multiset());
    }
    out
}

/// What the drain step hands the scheduler: for each existing node, in
/// ascending order, its identifier, its dirty bits and its height, as
/// they stood when the cycle began.
pub open spec fn drained_ok(m0: DomV, d: Seq<(NodeId, Vec<bool>, usize)>, upto: int) -> bool {
    &&& (forall|i: int|
        0 <= i < d.len() ==> {
            &&& (#[trigger] d[i]).0 < upto
            &&& m0.existing(d[i].0)
            &&& d[i].1@ == m0.node(d[i].0).dirty
            &&& d[i].2 == m0.node(d[i].0).height
        })
    &&& (forall|i: int, j: int| 0 <= i < j < d.len() ==> d[i].0 < d[j].0)
    &&& (forall|x: NodeId| x < upto && m0.existing(x) ==> drained_has(d, x))
}

/// Whether the drained list names node `x`.
pub open spec fn drained_has(d: Seq<(NodeId, Vec<bool>, usize)>, x: NodeId) -> bool {
    exists|i: int| 0 <= i < d.len() && (#[trigger] d[i]).0 == x
}

/// The slab with the dirty records of the first `upto` slots drained,
/// and the staged removed-node masks already taken.
pub open spec fn cleared_upto(m0: DomV, upto: int) -> DomV {
    DomV {
        removed: Seq::empty(),
        nodes: Seq::new(
            m0.nodes.len(),
            |x: int| if x < upto {
                cleared(m0).nodes[x]
            } else {
                m0.nodes[x]
            },
        ),
        ..m0
    }
}

/// Whether the changed-mask list names node `x`.
pub open spec fn changed_has(s: Seq<(NodeId, NodeMask)>, x: NodeId) -> bool {
    exists|i: int| 0 <= i < s.len() && (#[trigger] s[i]).0 == x
}

/// Whether the trace names the work item (p, n).
pub open spec fn trace_has(tr: Seq<(usize, NodeId)>, p: usize, n: NodeId) -> bool {
    tr.contains((p, n))
}

/// Whether the queue names node `n`.
pub open spec fn queue_has(q: Seq<(usize, usize)>, n: NodeId) -> bool {
    exists|i: int| 0 <= i < q.len() && (#[trigger] q[i]).1 == n
}

/// Every queue entry stems from the first `t` drained entries.
pub open spec fn queue_from_prefix(
    q: Seq<(usize, usize)>,
    d: Seq<(NodeId, Vec<bool>, usize)>,
    t: int,
) -> bool {
    forall|a: int|
        0 <= a < q.len() ==> exists|b: int| 0 <= b < t && (#[trigger] q[a]).1 == d[b].0
}

impl RealDom {
    /// Run one update cycle.  The dirty records are drained; then, pass
    /// by pass in the dependency-respecting schedule, every (pass, node)
    /// pair that was dirty is recomputed exactly once, parents before
    /// children for parent-to-child passes and children before parents
    /// for child-to-parent passes; a changed value records next-cycle
    /// invalidations through the dependant edges.  Returns the map of
    /// nodes whose accumulated masks changed, in ascending node order,
    /// and the executed work items, in execution order.
    ///
    /// The returned map also carries the accumulated masks of nodes that
    /// were dirtied and then removed since the previous drain: removal
    /// stages those masks, and the next cycle returns them first, ahead
    /// of the living nodes' entries (in ascending node order).  The cycle
    /// takes no side-context argument: the passes compute the engine's
    /// own digests, so there is no reader for one; a host that carries
    /// per-cycle context applies it to the returned work items.
    pub fn update_state(&mut self) -> (r: (Vec<(NodeId, NodeMask)>, Vec<(usize, NodeId)>))
        requires
            old(self)@.wf(),
        ensures
            final(self)@.wf(),
            ({
                let m0 = old(self)@;
                let changed = r.0;
                let trace = r.1;
                &&& final(self)@ == run_trace(cleared(m0), trace@)
                &&& final(self)@.removed == Seq::<(NodeId, MaskV)>::empty()
                &&& changed@.len() >= m0.removed.len()
                &&& (forall|i: int|
                    0 <= i < m0.removed.len() ==> (#[trigger] changed@[i]).0 == m0.removed[i].0
                        && changed@[i].1@ == m0.removed[i].1)
                &&& (forall|i: int|
                    m0.removed.len() <= i < changed@.len() ==> m0.existing(
                        (#[trigger] changed@[i]).0,
                    ) && m0.node(changed@[i].0).dirty_mask == Option::Some(changed@[i].1@))
                &&& (forall|i: int, j: int|
                    m0.removed.len() <= i < j < changed@.len() ==> (#[trigger] changed@[i]).0 < (
                    #[trigger] changed@[j]).0)
                &&& (forall|x: NodeId|
                    m0.existing(x) && m0.node(x).dirty_mask is Some ==> changed_has(changed@, x))
                &&& (forall|i: int|
                    0 <= i < trace@.len() ==> (#[trigger] trace@[i]).0 < m0.passes.len()
                        && was_dirty(m0, trace@[i].0 as int, trace@[i].1))
                &&& (forall|p: usize, n: NodeId|
                    p < m0.passes.len() && was_dirty(m0, p as int, n) ==> trace_has(trace@, p, n))
                &&& trace@.no_duplicates()
                &&& (forall|i: int, j: int|
                    0 <= i < j < trace@.len() ==> sched_pos(m0, (#[trigger] trace@[i]).0)
                        <= sched_pos(m0, (#[trigger] trace@[j]).0))
                &&& (forall|i: int, j: int|
                    0 <= i < j < trace@.len() && (#[trigger] trace@[i]).0 == (
                    #[trigger] trace@[j]).0 ==> queue_before(
                        m0,
                        m0.passes[trace@[i].0 as int].desc.direction,
                        trace@[i].1,
                        trace@[j].1,
                    ))
            }),
    {
        let ghost m0 = self@;
        let total = self.nodes.len();
        let np = self.passes.len();
        proof {
            assert(m0.nodes.len() == self.nodes@.len());
            assert(m0.nodes.len() <= usize::MAX);
            assert(np == m0.passes.len());
        }
        // Drain: the masks staged by removals come first, then every
        // living node's dirty record.
        let mut changed: Vec<(NodeId, NodeMask)> = Vec::new();
        core::mem::swap(&mut self.removed_masks, &mut changed);
        let ghost rcount = m0.removed.len() as int;
        proof {
            assert(changed@.len() == rcount);
            assert forall|i: int| 0 <= i < rcount implies (#[trigger] changed@[i]).0
                == m0.removed[i].0 && changed@[i].1@ == m0.removed[i].1 by {
                assert(m0.removed[i] == crate::dom::removed_entry_view(changed@[i]));
            }
            assert(self@.removed =~= Seq::<(NodeId, MaskV)>::empty());
        }
        let mut drained: Vec<(NodeId, Vec<bool>, usize)> = Vec::new();
        let mut x: usize = 0;
        while x < total
            invariant
                total == m0.nodes.len(),
                self.nodes@.len() == total,
                np == m0.passes.len(),
                m0.wf(),
                x <= total,
                self@.passes == m0.passes,
                self@.schedule == m0.schedule,
                self@.listeners == m0.listeners,
                self@.nodes =~= cleared_upto(m0, x as int).nodes,
                self@.removed == Seq::<(NodeId, MaskV)>::empty(),
                drained_ok(m0, drained@, x as int),
                rcount == m0.removed.len(),
                changed@.len() >= rcount,
                forall|i: int|
                    0 <= i < rcount ==> (#[trigger] changed@[i]).0 == m0.removed[i].0
                        && changed@[i].1@ == m0.removed[i].1,
                forall|i: int|
                    rcount <= i < changed@.len() ==> m0.existing((#[trigger] changed@[i]).0)
                        && m0.node(changed@[i].0).dirty_mask == Option::Some(changed@[i].1@),
                forall|i: int, j: int|
                    rcount <= i < j < changed@.len() ==> (#[trigger] changed@[i]).0 < (
                    #[trigger] changed@[j]).0,
                forall|i: int| rcount <= i < changed@.len() ==> (#[trigger] changed@[i]).0 < x,
                forall|y: NodeId|
                    y < x && m0.existing(y) && m0.node(y).dirty_mask is Some ==> changed_has(
                        changed@,
                        y,
                    ),
            decreases total - x,
        {
            let ghost pre_nodes = self@.nodes;
            let ghost old_drained = drained@;
            let ghost old_changed = changed@;
            let is_some = self.nodes[x].is_some();
            if is_some {
                let mut nd = self.nodes[x].take().unwrap();
                proof {
                    assert(pre_nodes[x as int] == m0.nodes[x as int]);
                    assert(nd@ == m0.node(x));
                    assert(m0.node_ok(x));
                }
                let mut fresh: Vec<bool> = Vec::new();
                let mut q: usize = 0;
                let nbits = nd.dirty.len();
                while q < nbits
                    invariant
                        q <= nbits,
                        fresh@.len() == q,
                        forall|t: int| 0 <= t < q ==> !fresh@[t],
                    decreases nbits - q,
                {
                    fresh.push(false);
                    q += 1;
                }
                core::mem::swap(&mut nd.dirty, &mut fresh);
                let bits = fresh;
                let mask_opt = nd.dirty_mask.take();
                let height = nd.height;
                proof {
                    assert(bits@ == m0.node(x).dirty);
                    assert(height == m0.node(x).height);
                }
                drained.push((x, bits, height));
                match mask_opt {
                    Option::Some(mask) => {
                        proof {
                            assert(m0.node(x).dirty_mask == Option::Some(mask@));
                        }
                        changed.push((x, mask));
                    },
                    Option::None => {},
                }
                self.nodes[x] = Some(nd);
                proof {
                    assert(nd@ =~= cleared(m0).nodes[x as int]->Some_0) by {
                        assert(nd@.dirty =~= Seq::new(m0.node(x).dirty.len(), |t: int| false));
                    }
                    assert(self@.nodes =~= cleared_upto(m0, x + 1).nodes) by {
                        assert forall|y: int| 0 <= y < total implies self@.nodes[y] == cleared_upto(
                            m0,
                            x + 1,
                        ).nodes[y] by {
                            if y < x {
                                assert(self@.nodes[y] == pre_nodes[y]);
                                assert(pre_nodes[y] == cleared_upto(m0, x as int).nodes[y]);
                            } else if y > x {
                                assert(self@.nodes[y] == pre_nodes[y]);
                                assert(pre_nodes[y] == m0.nodes[y]);
                            }
                        }
                    }
                    assert(drained_ok(m0, drained@, x + 1)) by {
                        assert(drained@[drained@.len() - 1] == (x, bits, height));
                        assert forall|y: NodeId|
                            y < x + 1 && m0.existing(y) implies drained_has(drained@, y) by {
                            if y < x {
                                assert(drained_has(old_drained, y));
                                let i = choose|i: int|
                                    0 <= i < old_drained.len() && (#[trigger] old_drained[i]).0
                                        == y;
                                assert(drained@[i].0 == y);
                            } else {
                                assert(drained@[drained@.len() - 1].0 == x);
                            }
                        }
                    }
                    assert forall|y: NodeId|
                        y < x + 1 && m0.existing(y) && m0.node(y).dirty_mask is Some
                        implies changed_has(changed@, y) by {
                        if y < x {
                            assert(changed_has(old_changed, y));
                            let i = choose|i: int|
                                0 <= i < old_changed.len() && (#[trigger] old_changed[i]).0 == y;
                            assert(changed@[i].0 == y);
                        } else {
                            assert(changed@[changed@.len() - 1].0 == x);
                        }
                    }
                }
            } else {
                proof {
                    assert(self@.nodes[x as int] == m0.nodes[x as int]);
                    assert(self@.nodes =~= cleared_upto(m0, x + 1).nodes) by {
                        assert forall|y: int| 0 <= y < total implies self@.nodes[y] == cleared_upto(
                            m0,
                            x + 1,
                        ).nodes[y] by {
                            assert(self@.nodes[y] == cleared_upto(m0, x as int).nodes[y]);
                        }
                    }
                    assert(drained_ok(m0, drained@, x + 1));
                    assert forall|y: NodeId|
                        y < x + 1 && m0.existing(y) && m0.node(y).dirty_mask is Some
                        implies changed_has(changed@, y) by {
                        if y < x {
                            assert(changed_has(old_changed, y));
                        }
                    }
                }
            }
            x += 1;
        }
        proof {
            assert(self@ =~= cleared(m0)) by {
                assert forall|y: int| 0 <= y < total implies self@.nodes[y] == cleared(
                    m0,
                ).nodes[y] by {
                    assert(self@.nodes[y] == cleared_upto(m0, total as int).nodes[y]);
                }
                assert(self@.nodes =~= cleared(m0).nodes);
                assert(self@.removed =~= cleared(m0).removed);
            }
            lemma_cleared_wf(m0);
        }
        let ghost mc = cleared(m0);
        // Run the schedule: one pass at a time, its dirty nodes in the
        // pass's height order.
        let mut trace: Vec<(usize, NodeId)> = Vec::new();
        let mut s: usize = 0;
        let ns = self.schedule.len();
        proof {
            assert(m0.schedule.len() == ns);
            assert(crate::schedule::schedule_ok(
                crate::passes::descs_of(m0.passes),
                m0.schedule,
            ));
        }
        while s < ns
            invariant
                total == m0.nodes.len(),
                np == m0.passes.len(),
                ns == m0.schedule.len(),
                m0.wf(),
                mc == cleared(m0),
                mc.wf(),
                s <= ns,
                self@ == run_trace(mc, trace@),
                self@.wf(),
                self.schedule@ == m0.schedule,
                self.passes@.len() == np,
                self.nodes@.len() == total,
                self@.passes == m0.passes,
                drained_ok(m0, drained@, total as int),
                // every executed item was dirty, under a pass already scheduled
                forall|i: int|
                    0 <= i < trace@.len() ==> (#[trigger] trace@[i]).0 < np && was_dirty(
                        m0,
                        trace@[i].0 as int,
                        trace@[i].1,
                    ) && 0 <= sched_pos(m0, trace@[i].0) < s,
                // everything scheduled so far has been executed
                forall|s2: int, n: NodeId|
                    0 <= s2 < s && was_dirty(m0, m0.schedule[s2] as int, n) ==> trace_has(
                        trace@,
                        m0.schedule[s2],
                        n,
                    ),
                trace@.no_duplicates(),
                forall|i: int, j: int|
                    0 <= i < j < trace@.len() ==> sched_pos(m0, (#[trigger] trace@[i]).0)
                        <= sched_pos(m0, (#[trigger] trace@[j]).0),
                forall|i: int, j: int|
                    0 <= i < j < trace@.len() && (#[trigger] trace@[i]).0 == (
                    #[trigger] trace@[j]).0 ==> queue_before(
                        m0,
                        m0.passes[trace@[i].0 as int].desc.direction,
                        trace@[i].1,
                        trace@[j].1,
                    ),
            decreases ns - s,
        {
            let p = self.schedule[s];
            proof {
                assert(m0.schedule[s as int] == p);
                assert(p < np);
                assert(sched_pos(m0, p) <= s as int) by {
                    let fi = first_index(m0.schedule, p);
                    lemma_first_index(m0.schedule, p);
                    assert(m0.schedule.contains(p)) by {
                        assert(m0.schedule[s as int] == p);
                    }
                    assert(fi != -1);
                    if fi > s {
                        assert(m0.schedule[s as int] != p);
                    }
                }
                assert(sched_pos(m0, p) == s as int) by {
                    let fi = first_index(m0.schedule, p);
                    lemma_first_index(m0.schedule, p);
                    assert(m0.schedule.no_duplicates());
                    if fi < s {
                        assert(m0.schedule[fi] == m0.schedule[s as int]);
                    }
                }
            }
            // collect this pass's dirty nodes
            let mut queue: Vec<(usize, usize)> = Vec::new();
            let mut t: usize = 0;
            let dn = drained.len();
            while t < dn
                invariant
                    dn == drained@.len(),
                    np == m0.passes.len(),
                    p < np,
                    m0.wf(),
                    t <= dn,
                    drained_ok(m0, drained@, total as int),
                    forall|i: int|
                        0 <= i < queue@.len() ==> was_dirty(m0, p as int, (#[trigger] queue@[i]).1)
                            && queue@[i].0 == m0.node(queue@[i].1).height,
                    forall|i: int, j: int|
                        0 <= i < j < queue@.len() ==> queue@[i].1 < queue@[j].1,
                    forall|i: int|
                        0 <= i < queue@.len() ==> (#[trigger] queue@[i]).1 < total,
                    queue_from_prefix(queue@, drained@, t as int),
                    forall|n: NodeId|
                        was_dirty(m0, p as int, n) && drained_has(drained@.take(t as int), n)
                            ==> queue_has(queue@, n),
                decreases dn - t,
            {
                let ghost old_queue = queue@;
                let entry_id = drained[t].0;
                let entry_height = drained[t].2;
                let hit = if p < drained[t].1.len() {
                    drained[t].1[p]
                } else {
                    false
                };
                proof {
                    assert(drained@[t as int].1@ == m0.node(entry_id).dirty);
                    assert(hit == was_dirty(m0, p as int, entry_id));
                }
                if hit {
                    queue.push((entry_height, entry_id));
                    proof {
                        assert(queue@[queue@.len() - 1] == (entry_height, entry_id));
                        assert forall|i: int, j: int|
                            0 <= i < j < queue@.len() implies queue@[i].1 < queue@[j].1 by {
                            if j == queue@.len() - 1 {
                                assert(queue@[i] == old_queue[i]);
                                lemma_queue_source(m0, drained@, old_queue, t as int, i);
                            }
                        }
                        assert(queue_from_prefix(queue@, drained@, t + 1)) by {
                            assert forall|a: int| 0 <= a < queue@.len() implies exists|b: int|
                                0 <= b < t + 1 && (#[trigger] queue@[a]).1 == drained@[b].0 by {
                                if a < queue@.len() - 1 {
                                    assert(queue@[a] == old_queue[a]);
                                    let b = choose|b: int|
                                        0 <= b < t && (#[trigger] old_queue[a]).1 == drained@[b].0;
                                    assert(queue@[a].1 == drained@[b].0);
                                } else {
                                    assert(queue@[a].1 == drained@[t as int].0);
                                }
                            }
                        }
                    }
                } else {
                    proof {
                        assert(queue_from_prefix(queue@, drained@, t + 1)) by {
                            assert forall|a: int| 0 <= a < queue@.len() implies exists|b: int|
                                0 <= b < t + 1 && (#[trigger] queue@[a]).1 == drained@[b].0 by {
                                let b = choose|b: int|
                                    0 <= b < t && (#[trigger] queue@[a]).1 == drained@[b].0;
                            }
                        }
                    }
                }
                proof {
                    assert(drained@.take(t + 1).drop_last() =~= drained@.take(t as int));
                    assert forall|n: NodeId|
                        was_dirty(m0, p as int, n) && drained_has(drained@.take(t + 1), n)
                            implies queue_has(queue@, n) by {
                        if drained_has(drained@.take(t as int), n) {
                            assert(queue_has(old_queue, n));
                            let i = choose|i: int|
                                0 <= i < old_queue.len() && (#[trigger] old_queue[i]).1 == n;
                            assert(queue@[i].1 == n);
                        } else {
                            let i = choose|i: int|
                                0 <= i < drained@.take(t + 1).len() && (#[trigger] drained@.take(
                                    t + 1,
                                )[i]).0 == n;
                            assert(i == t);
                            assert(n == entry_id);
                            assert(queue@[queue@.len() - 1].1 == n);
                        }
                    }
                }
                t += 1;
            }
            proof {
                assert(drained@.take(dn as int) =~= drained@);
            }
            let desc_dir = matches!(self.passes[p].desc.direction, PassDirection::ChildToParent);
            proof {
                assert(m0.passes[p as int] == self.passes@[p as int]@);
                assert(desc_dir == (m0.passes[p as int].desc.direction is ChildToParent));
            }
            let ghost gq0 = queue@;
            let sorted = sort_queue(queue, desc_dir);
            // run the queue in order
            let ghost gqueue = sorted@;
            proof {
                gq0.to_multiset_ensures();
                gqueue.to_multiset_ensures();
                assert(gq0.no_duplicates()) by {
                    assert forall|a: int, b: int| 0 <= a < b < gq0.len() implies gq0[a]
                        != gq0[b] by {
                        assert(gq0[a].1 < gq0[b].1);
                    }
                }
                gq0.lemma_multiset_has_no_duplicates();
                gqueue.lemma_multiset_has_no_duplicates_conv();
                assert forall|i: int| 0 <= i < gqueue.len() implies was_dirty(
                    m0,
                    p as int,
                    (#[trigger] gqueue[i]).1,
                ) && gqueue[i].0 == m0.node(gqueue[i].1).height && gqueue[i].1 < total by {
                    assert(gqueue.contains(gqueue[i])) by {}
                    assert(gqueue.to_multiset().contains(gqueue[i]));
                    assert(gq0.to_multiset().contains(gqueue[i]));
                    assert(gq0.contains(gqueue[i]));
                    let b = choose|b: int| 0 <= b < gq0.len() && gq0[b] == gqueue[i];
                }
                assert forall|i: int, i2: int|
                    0 <= i < i2 < gqueue.len() implies (#[trigger] gqueue[i]).1 != (
                #[trigger] gqueue[i2]).1 by {
                    if gqueue[i].1 == gqueue[i2].1 {
                        assert(gqueue[i].0 == m0.node(gqueue[i].1).height);
                        assert(gqueue[i2].0 == m0.node(gqueue[i2].1).height);
                        assert(gqueue[i] == gqueue[i2]);
                    }
                }
                assert forall|n: NodeId| was_dirty(m0, p as int, n) implies queue_has(
                    gqueue,
                    n,
                ) by {
                    assert(m0.existing(n));
                    assert(drained_has(drained@, n)) by {
                        assert(n < total);
                    }
                    assert(drained_has(drained@.take(dn as int), n)) by {
                        assert(drained@.take(dn as int) =~= drained@);
                    }
                    assert(queue_has(gq0, n));
                    let i = choose|i: int| 0 <= i < gq0.len() && (#[trigger] gq0[i]).1 == n;
                    assert(gq0.contains(gq0[i])) by {}
                    assert(gq0.to_multiset().contains(gq0[i]));
                    assert(gqueue.to_multiset().contains(gq0[i]));
                    assert(gqueue.contains(gq0[i]));
                    let i2 = choose|i2: int| 0 <= i2 < gqueue.len() && gqueue[i2] == gq0[i];
                    assert(gqueue[i2].1 == n);
                }
            }
            let mut j: usize = 0;
            let ghost trace_before = trace@;
            while j < sorted.len()
                invariant
                    total == m0.nodes.len(),
                    np == m0.passes.len(),
                    ns == m0.schedule.len(),
                    m0.wf(),
                    mc == cleared(m0),
                    mc.wf(),
                    p < np,
                    s < ns,
                    sched_pos(m0, p) == s as int,
                    m0.schedule[s as int] == p,
                    gqueue == sorted@,
                    j <= gqueue.len(),
                    self@ == run_trace(mc, trace@),
                    self@.wf(),
                    self.schedule@ == m0.schedule,
                    self.passes@.len() == np,
                    self.nodes@.len() == total,
                    self@.passes == m0.passes,
                    drained_ok(m0, drained@, total as int),
                    desc_dir == (m0.passes[p as int].desc.direction is ChildToParent),
                    sorted_by_key(gqueue, desc_dir),
                    forall|i: int|
                        0 <= i < gqueue.len() ==> was_dirty(m0, p as int, (#[trigger] gqueue[i]).1)
                            && gqueue[i].0 == m0.node(gqueue[i].1).height && gqueue[i].1 < total,
                    forall|i: int, i2: int|
                        0 <= i < i2 < gqueue.len() ==> (#[trigger] gqueue[i]).1 != (
                        #[trigger] gqueue[i2]).1,
                    forall|n: NodeId| was_dirty(m0, p as int, n) ==> queue_has(gqueue, n),
                    trace@ == trace_before + gqueue.take(j as int).map_values(
                        |e: (usize, usize)| (p, e.1),
                    ),
                    forall|i: int|
                        0 <= i < trace_before.len() ==> (#[trigger] trace_before[i]).0 < np
                            && was_dirty(m0, trace_before[i].0 as int, trace_before[i].1) && 0
                            <= sched_pos(m0, trace_before[i].0) < s,
                    forall|s2: int, n: NodeId|
                        0 <= s2 < s && was_dirty(m0, m0.schedule[s2] as int, n) ==> trace_has(
                            trace_before,
                            m0.schedule[s2],
                            n,
                        ),
                    trace@.no_duplicates(),
                    forall|i: int, i2: int|
                        0 <= i < i2 < trace@.len() ==> sched_pos(m0, (#[trigger] trace@[i]).0)
                            <= sched_pos(m0, (#[trigger] trace@[i2]).0),
                    forall|i: int, i2: int|
                        0 <= i < i2 < trace@.len() && (#[trigger] trace@[i]).0 == (
                        #[trigger] trace@[i2]).0 ==> queue_before(
                            m0,
                            m0.passes[trace@[i].0 as int].desc.direction,
                            trace@[i].1,
                            trace@[i2].1,
                        ),
                decreases gqueue.len() - j,
            {
                let n = sorted[j].1;
                let ghost prev = self@;
                proof {
                    assert(gqueue[j as int].1 == n);
                    assert(was_dirty(m0, p as int, n));
                    assert(m0.existing(n));
                    lemma_run_trace_structure(mc, trace@);
                    assert(mc.existing(n) == m0.existing(n)) by {
                        assert(m0.nodes[n as int] is Some);
                        assert(mc.nodes[n as int] is Some);
                    }
                    assert(prev.existing(n));
                    assert(mc.node(n).states == m0.node(n).states);
                    assert(prev.node(n).states.len() == m0.node(n).states.len());
                    assert(m0.node_ok(n));
                    assert(p < prev.node(n).states.len());
                }
                let d = self.compute_digest(p, n);
                let mut nd = self.nodes[n].take().unwrap();
                proof {
                    assert(nd@ == prev.node(n));
                }
                let old_slot = nd.states[p];
                nd.states[p] = Option::Some(d);
                let ghost nn = NodeV {
                    states: prev.node(n).states.update(p as int, Option::Some(d)),
                    ..prev.node(n)
                };
                self.nodes[n] = Some(nd);
                proof {
                    assert(nd@ =~= nn);
                    assert(self@ =~= prev.with_node(n, nn));
                    crate::dom::lemma_with_node_same_links(prev, n, nn);
                }
                let changed_here = match old_slot {
                    Option::Some(v) => {
                        let dv = d;
                        v != dv
                    },
                    Option::None => true,
                };
                if changed_here {
                    self.apply_invalidation(p, n);
                }
                proof {
                    assert(self@ == run_item(prev, p as int, n)) by {
                        reveal(node_digest_spec);
                        assert(d == node_digest_spec(prev, p as int, n));
                        assert(changed_here == (prev.node(n).states[p as int] != Option::Some(d)));
                        if !changed_here {
                            assert(self@ =~= prev.with_node(n, nn));
                        }
                    }
                }
                let ghost old_tr = trace@;
                trace.push((p, n));
                proof {
                    assert(trace@ == old_tr.push((p, n)));
                    assert(trace@ =~= trace_before + gqueue.take(j + 1).map_values(
                        |e: (usize, usize)| (p, e.1),
                    )) by {
                        assert(gqueue.take(j + 1) =~= gqueue.take(j as int).push(gqueue[j as int]));
                        assert(gqueue.take(j + 1).map_values(|e: (usize, usize)| (p, e.1)) =~=
                            gqueue.take(j as int).map_values(|e: (usize, usize)| (p, e.1)).push(
                            (p, n),
                        ));
                    }
                    assert(self@ == run_trace(mc, trace@)) by {
                        assert(trace@.drop_last() =~= old_tr);
                        assert(trace@.last() == (p, n));
                    }
                    lemma_run_trace_wf(mc, trace@);
                    // ordering bookkeeping: every earlier entry of this
                    // pass comes from the sorted queue
                    let mapped = gqueue.take(j as int).map_values(|e: (usize, usize)| (p, e.1));
                    assert forall|i: int|
                        0 <= i < old_tr.len() implies sched_pos(m0, (#[trigger] old_tr[i]).0)
                        <= s as int by {
                        if i >= trace_before.len() {
                            assert(old_tr[i] == mapped[i - trace_before.len()]);
                        }
                    }
                    assert forall|i: int| 0 <= i < old_tr.len() implies (#[trigger] old_tr[i]) != (
                        p,
                        n,
                    ) by {
                        if i < trace_before.len() {
                            assert(sched_pos(m0, trace_before[i].0) < s as int);
                            if old_tr[i] == (p, n) {
                                assert(old_tr[i].0 == p);
                            }
                        } else {
                            let t = i - trace_before.len();
                            assert(old_tr[i] == mapped[t]);
                            assert(mapped[t].1 == gqueue[t].1);
                            assert(gqueue[t].1 != gqueue[j as int].1);
                        }
                    }
                    assert forall|i: int|
                        0 <= i < old_tr.len() && (#[trigger] old_tr[i]).0 == p implies queue_before(
                        m0,
                        m0.passes[p as int].desc.direction,
                        old_tr[i].1,
                        n,
                    ) by {
                        if i < trace_before.len() {
                            assert(sched_pos(m0, trace_before[i].0) < s as int);
                        } else {
                            let t = i - trace_before.len();
                            assert(old_tr[i] == mapped[t]);
                            assert(mapped[t].1 == gqueue[t].1);
                            assert(!key_lt(gqueue[j as int], gqueue[t], desc_dir));
                            assert(gqueue[t].1 != gqueue[j as int].1);
                            assert(gqueue[t].0 == m0.node(gqueue[t].1).height);
                            assert(gqueue[j as int].0 == m0.node(gqueue[j as int].1).height);
                        }
                    }
                    lemma_trace_push(m0, old_tr, p, n, s as int);
                }
                j += 1;
            }
            proof {
                assert(gqueue.take(gqueue.len() as int) =~= gqueue);
                assert forall|s2: int, n: NodeId|
                    0 <= s2 < s + 1 && was_dirty(m0, m0.schedule[s2] as int, n) implies trace_has(
                    trace@,
                    m0.schedule[s2],
                    n,
                ) by {
                    if s2 < s {
                        assert(trace_has(trace_before, m0.schedule[s2], n));
                        let i = choose|i: int|
                            0 <= i < trace_before.len() && trace_before[i] == (m0.schedule[s2], n);
                        assert(trace@[i] == (m0.schedule[s2], n));
                        assert(trace@.contains((m0.schedule[s2], n))) by {
                            assert(trace@[i] == (m0.schedule[s2], n));
                        }
                    } else {
                        assert(m0.schedule[s2] == p);
                        assert(queue_has(gqueue, n));
                        let i = choose|i: int|
                            0 <= i < gqueue.len() && (#[trigger] gqueue[i]).1 == n;
                        let mapped = gqueue.map_values(|e: (usize, usize)| (p, e.1));
                        assert(mapped[i] == (p, n));
                        assert(trace@[trace_before.len() + i] == (p, n));
                        assert(trace@.contains((p, n))) by {
                            assert(trace@[trace_before.len() + i] == (p, n));
                        }
                    }
                }
                assert forall|i: int|
                    0 <= i < trace@.len() implies (#[trigger] trace@[i]).0 < np && was_dirty(
                    m0,
                    trace@[i].0 as int,
                    trace@[i].1,
                ) && 0 <= sched_pos(m0, trace@[i].0) < s + 1 by {
                    if i < trace_before.len() {
                    } else {
                        let mapped = gqueue.take(gqueue.len() as int).map_values(
                            |e: (usize, usize)| (p, e.1),
                        );
                        assert(trace@[i] == mapped[i - trace_before.len()]);
                    }
                }
            }
            s += 1;
        }
        proof {
            assert forall|p2: usize, n: NodeId|
                p2 < m0.passes.len() && was_dirty(m0, p2 as int, n) implies trace_has(
                trace@,
                p2,
                n,
            ) by {
                assert(crate::schedule::schedule_ok(
                    crate::passes::descs_of(m0.passes),
                    m0.schedule,
                ));
                assert(m0.schedule.contains(p2));
                let s2 = choose|s2: int| 0 <= s2 < m0.schedule.len() && m0.schedule[s2] == p2;
                assert(was_dirty(m0, m0.schedule[s2] as int, n));
            }
        }
        proof {
            lemma_run_trace_structure(mc, trace@);
            assert(self@.removed =~= Seq::<(NodeId, MaskV)>::empty());
        }
        (changed, trace)
    }
}

/// Pushing one executed work item keeps the trace orderly: distinct
/// entries, non-decreasing schedule positions, and the queue order within
/// a pass.
proof fn lemma_trace_push(m0: DomV, old_tr: Seq<(usize, NodeId)>, p: usize, n: NodeId, s: int)
    requires
        p < m0.passes.len(),
        sched_pos(m0, p) == s,
        old_tr.no_duplicates(),
        forall|i: int| 0 <= i < old_tr.len() ==> sched_pos(m0, (#[trigger] old_tr[i]).0) <= s,
        forall|i: int| 0 <= i < old_tr.len() ==> (#[trigger] old_tr[i]) != (p, n),
        forall|i: int|
            0 <= i < old_tr.len() && (#[trigger] old_tr[i]).0 == p ==> queue_before(
                m0,
                m0.passes[p as int].desc.direction,
                old_tr[i].1,
                n,
            ),
        forall|i: int, i2: int|
            0 <= i < i2 < old_tr.len() ==> sched_pos(m0, (#[trigger] old_tr[i]).0) <= sched_pos(
                m0,
                (#[trigger] old_tr[i2]).0,
            ),
        forall|i: int, i2: int|
            0 <= i < i2 < old_tr.len() && (#[trigger] old_tr[i]).0 == (#[trigger] old_tr[i2]).0
                ==> queue_before(
                m0,
                m0.passes[old_tr[i].0 as int].desc.direction,
                old_tr[i].1,
                old_tr[i2].1,
            ),
    ensures
        old_tr.push((p, n)).no_duplicates(),
        forall|i: int|
            0 <= i < old_tr.push((p, n)).len() ==> sched_pos(
                m0,
                (#[trigger] old_tr.push((p, n))[i]).0,
            ) <= s,
        forall|i: int, i2: int|
            0 <= i < i2 < old_tr.push((p, n)).len() ==> sched_pos(
                m0,
                (#[trigger] old_tr.push((p, n))[i]).0,
            ) <= sched_pos(m0, (#[trigger] old_tr.push((p, n))[i2]).0),
        forall|i: int, i2: int|
            0 <= i < i2 < old_tr.push((p, n)).len() && (#[trigger] old_tr.push((p, n))[i]).0 == (
            #[trigger] old_tr.push((p, n))[i2]).0 ==> queue_before(
                m0,
                m0.passes[old_tr.push((p, n))[i].0 as int].desc.direction,
                old_tr.push((p, n))[i].1,
                old_tr.push((p, n))[i2].1,
            ),
{
    let new_tr = old_tr.push((p, n));
    assert(new_tr[new_tr.len() - 1] == (p, n));
    assert(new_tr.no_duplicates()) by {
        assert forall|a: int, b: int| 0 <= a < b < new_tr.len() implies new_tr[a] != new_tr[b] by {
            if b == new_tr.len() - 1 {
                assert(new_tr[a] == old_tr[a]);
            } else {
                assert(new_tr[a] == old_tr[a] && new_tr[b] == old_tr[b]);
            }
        }
    }
    assert forall|i: int, i2: int|
        0 <= i < i2 < new_tr.len() implies sched_pos(m0, (#[trigger] new_tr[i]).0) <= sched_pos(
        m0,
        (#[trigger] new_tr[i2]).0,
    ) by {
        if i2 == new_tr.len() - 1 {
            assert(new_tr[i] == old_tr[i]);
        } else {
            assert(new_tr[i] == old_tr[i] && new_tr[i2] == old_tr[i2]);
        }
    }
    assert forall|i: int, i2: int|
        0 <= i < i2 < new_tr.len() && (#[trigger] new_tr[i]).0 == (#[trigger] new_tr[i2]).0
        implies queue_before(
        m0,
        m0.passes[new_tr[i].0 as int].desc.direction,
        new_tr[i].1,
        new_tr[i2].1,
    ) by {
        if i2 == new_tr.len() - 1 {
            assert(new_tr[i] == old_tr[i]);
        } else {
            assert(new_tr[i] == old_tr[i] && new_tr[i2] == old_tr[i2]);
        }
    }
}

/// A queue entry stems from the drained prefix, so its node identifier is
/// below the next drained one.
proof fn lemma_queue_source(
    m0: DomV,
    drained: Seq<(NodeId, Vec<bool>, usize)>,
    queue: Seq<(usize, usize)>,
    t: int,
    i: int,
)
    requires
        0 <= t < drained.len(),
        0 <= i < queue.len(),
        forall|a: int, b: int| 0 <= a < b < drained.len() ==> drained[a].0 < drained[b].0,
        queue_from_prefix(queue, drained, t),
    ensures
        queue[i].1 < drained[t].0,
{
    let b = choose|b: int| 0 <= b < t && (#[trigger] queue[i]).1 == drained[b].0;
    assert(drained[b].0 < drained[t].0);
}

/// Running a trace piecewise composes.
pub proof fn lemma_run_trace_append(m: DomV, s1: Seq<(usize, NodeId)>, s2: Seq<(usize, NodeId)>)
    ensures
        run_trace(m, s1 + s2) == run_trace(run_trace(m, s1), s2),
    decreases s2.len(),
{
    if s2.len() == 0 {
        assert(s1 + s2 =~= s1);
    } else {
        lemma_run_trace_append(m, s1, s2.drop_last());
        assert((s1 + s2).drop_last() =~= s1 + s2.drop_last());
        assert((s1 + s2).last() == s2.last());
    }
}

/// A work item never clears a dirty record: it only adds marks.
pub proof fn lemma_run_item_keeps_dirty(m: DomV, p: int, n: NodeId, x: NodeId, q: int)
    requires
        m.existing(x),
        0 <= q < m.node(x).dirty.len(),
        m.node(x).dirty[q],
    ensures
        run_item(m, p, n).existing(x),
        0 <= q < run_item(m, p, n).node(x).dirty.len(),
        run_item(m, p, n).node(x).dirty[q],
{
    lemma_run_item_structure(m, p, n);
    if m.existing(n) && 0 <= p < m.node(n).states.len() {
        let d = node_digest_spec(m, p, n);
        let nn = NodeV { states: m.node(n).states.update(p, Option::Some(d)), ..m.node(n) };
        let m1 = m.with_node(n, nn);
        assert(m1.existing(x));
        assert(m1.node(x).dirty == m.node(x).dirty) by {
            if x == n {
                assert(m1.node(x) == nn);
            }
        }
        let m2 = invalidate(m1, p, n);
        if run_item(m, p, n) == m2 {
            assert(m2.node(x).dirty[q]) by {
                assert(m1.nodes[x as int] is Some);
            }
        }
    }
}

/// A whole trace never clears a dirty record.
pub proof fn lemma_run_trace_keeps_dirty(
    m: DomV,
    tr: Seq<(usize, NodeId)>,
    x: NodeId,
    q: int,
)
    requires
        m.existing(x),
        0 <= q < m.node(x).dirty.len(),
        m.node(x).dirty[q],
    ensures
        run_trace(m, tr).existing(x),
        0 <= q < run_trace(m, tr).node(x).dirty.len(),
        run_trace(m, tr).node(x).dirty[q],
    decreases tr.len(),
{
    if tr.len() > 0 {
        lemma_run_trace_keeps_dirty(m, tr.drop_last(), x, q);
        lemma_run_item_keeps_dirty(
            run_trace(m, tr.drop_last()),
            tr.last().0 as int,
            tr.last().1,
            x,
            q,
        );
    }
}

} // verus!
