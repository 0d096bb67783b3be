use vstd::prelude::*;
use crate::dom::{DomV, NodeId, ROOT_ID, dirty_marked};
use crate::attributes::attr_mask_v;
use crate::passes::{child_edge, descs_of, resolved_ok};
use crate::tree::is_descendant;
use crate::update::{invalidate, node_digest_spec, queue_before, run_item, was_dirty};

verus! {

/// Height invariant: under the engine's invariant, which every mutation
/// preserves, the root sits at height zero and every parented node sits
/// exactly one level below its parent.
pub proof fn lemma_height_invariant(m: DomV)
    requires
        m.wf(),
    ensures
        m.node(ROOT_ID).height == 0,
        forall|n: NodeId|
            m.existing(n) && (#[trigger] m.node(n)).parent is Some ==> m.node(n).height == m.node(
                m.node(n).parent->Some_0,
            ).height + 1,
{
    assert(m.node_ok(ROOT_ID));
    assert forall|n: NodeId|
        m.existing(n) && (#[trigger] m.node(n)).parent is Some implies m.node(n).height == m.node(
        m.node(n).parent->Some_0,
    ).height + 1 by {
        assert(m.node_ok(n));
    }
}

/// Single recomputation per cycle: a cycle's trace, which holds a pair
/// exactly when it was dirty and holds no pair twice, executes every
/// scheduled (pass, node) pair exactly once.
pub proof fn lemma_single_recomputation(
    m0: DomV,
    tr: Seq<(usize, NodeId)>,
    p: usize,
    n: NodeId,
)
    requires
        tr.no_duplicates(),
        crate::update::trace_has(tr, p, n) == was_dirty(m0, p as int, n),
    ensures
        tr.to_multiset().count((p, n)) == if was_dirty(m0, p as int, n) {
            1int
        } else {
            0int
        },
{
    tr.to_multiset_ensures();
    if was_dirty(m0, p as int, n) {
        assert(tr.contains((p, n)));
        tr.lemma_multiset_has_no_duplicates();
        assert(tr.to_multiset().contains((p, n)));
    } else {
        assert(!tr.contains((p, n)));
        assert(tr.to_multiset().count((p, n)) == 0) by {
            if tr.to_multiset().count((p, n)) > 0 {
                assert(tr.to_multiset().contains((p, n)));
            }
        }
    }
}

/// Directional ordering: in a trace that keeps each pass's queue order, a
/// parent-to-child pass computes a dirty parent before its dirty child.
pub proof fn lemma_directional_ordering(
    m0: DomV,
    tr: Seq<(usize, NodeId)>,
    p: usize,
    parent: NodeId,
    child: NodeId,
    i: int,
    j: int,
)
    requires
        m0.wf(),
        p < m0.passes.len(),
        m0.passes[p as int].desc.direction is ParentToChild,
        forall|a: int, b: int|
            0 <= a < b < tr.len() && (#[trigger] tr[a]).0 == (#[trigger] tr[b]).0
                ==> queue_before(
                m0,
                m0.passes[tr[a].0 as int].desc.direction,
                tr[a].1,
                tr[b].1,
            ),
        m0.existing(child),
        m0.node(child).parent == Option::Some(parent),
        0 <= i < tr.len(),
        0 <= j < tr.len(),
        tr[i] == (p, parent),
        tr[j] == (p, child),
    ensures
        i < j,
{
    assert(m0.node_ok(child));
    assert(m0.node(child).height == m0.node(parent).height + 1);
    if j < i {
        assert(queue_before(
            m0,
            m0.passes[p as int].desc.direction,
            tr[j].1,
            tr[i].1,
        ));
    }
    if i == j {
        assert(parent == child);
    }
}

/// Mask overlap exactness: a raw attribute mutation of one name marks a
/// pass dirty exactly when the pass was already dirty or its declared
/// mask covers that name, and no other pass.
pub proof fn lemma_mask_overlap_exact(m: DomV, id: NodeId, name: Seq<char>, q: int)
    requires
        m.wf(),
        m.existing(id),
        0 <= q < m.passes.len(),
    ensures
        dirty_marked(m, id, attr_mask_v(name)).dirty[q] == (m.node(id).dirty[q]
            || m.passes[q].desc.mask.covers_attr(name)),
{
    assert(m.node_ok(id));
    let qmask = m.passes[q].desc.mask;
    let single = attr_mask_v(name);
    assert(qmask.overlaps(single) == qmask.covers_attr(name)) by {
        assert(single.attrs.contains(name));
        assert(!single.text && !single.listeners && !single.all_attrs);
        if qmask.all_attrs {
            assert(crate::mask::set_nonempty(single.attrs)) by {
                assert(single.attrs.contains(name));
            }
        } else {
            if qmask.attrs.contains(name) {
                assert(crate::mask::sets_intersect(qmask.attrs, single.attrs)) by {
                    assert(qmask.attrs.contains(name) && single.attrs.contains(name));
                }
            }
            if crate::mask::sets_intersect(qmask.attrs, single.attrs) {
                let w = choose|w: Seq<char>|
                    qmask.attrs.contains(w) && single.attrs.contains(w);
                assert(w == name);
            }
        }
    }
}

/// Cascading invalidation: when a pass `b` publishes a changed value on a
/// node, every pass `a` that depends on its parent's `b` state is marked
/// dirty on each child of that node — for the next cycle, since the marks
/// land in the dirty records that the running cycle has already drained.
pub proof fn lemma_cascading_invalidation(m: DomV, a: int, b: int, n: NodeId, x: NodeId)
    requires
        m.wf(),
        m.passes.len() <= usize::MAX,
        0 <= a < m.passes.len(),
        0 <= b < m.passes.len(),
        child_edge(descs_of(m.passes), a, b),
        m.existing(n),
        m.node(n).children.contains(x),
        // the recomputed value differs from the stored one
        m.node(n).states[b] != Option::Some(node_digest_spec(m, b, n)),
    ensures
        run_item(m, b, n).node(x).dirty[a],
{
    assert(m.node_ok(n));
    assert(resolved_ok(m.passes));
    assert(((a as usize) as int) == a);
    assert(m.passes[b].dep_child.contains(a as usize)) by {
        assert(m.passes[b].dep_child.contains(a as usize) == child_edge(
            descs_of(m.passes),
            (a as usize) as int,
            b,
        ));
    }
    let d = node_digest_spec(m, b, n);
    let nn = crate::dom::NodeV {
        states: m.node(n).states.update(b, Option::Some(d)),
        ..m.node(n)
    };
    let m1 = m.with_node(n, nn);
    assert(run_item(m, b, n) == invalidate(m1, b, n));
    assert(m.existing(x)) by {
        let t = choose|t: int| 0 <= t < m.node(n).children.len() && m.node(n).children[t] == x;
    }
    assert(m1.node(n).children == m.node(n).children);
    assert(m1.passes == m.passes);
    assert(crate::update::invalidates(m1, b, n, x, a)) by {
        assert(m1.passes[b].dep_child.contains(a as usize));
        assert(m1.node(n).children.contains(x));
    }
    assert(m1.existing(x));
    assert(m.node_ok(x));
    assert(invalidate(m1, b, n).node(x).dirty[a]) by {
        assert(m1.nodes[x as int] is Some);
        assert(0 <= a < m1.node(x).dirty.len());
    }
}

/// Deep-clone fidelity: after a deep copy, the copied root and, to any
/// depth, every copied descendant mirrors its source — equal payloads,
/// equal child counts position for position — and every copy is fully
/// dirty, so the next cycle computes every state on the whole new
/// subtree.  The hypotheses are exactly what `clone_node`'s ensures hand
/// the caller.
pub proof fn lemma_deep_clone_fidelity(m0: DomV, id: NodeId, fuel: nat)
    requires
        m0.wf(),
        m0.existing(id),
        crate::tree::preorder_facts(m0, id, crate::tree::subtree_preorder(m0, id)),
        m0.nodes.len() + crate::tree::subtree_preorder(m0, id).len() <= usize::MAX,
    ensures
        crate::tree::subtree_cloned(
            m0,
            id,
            crate::tree::clone_spec(m0, id),
            m0.nodes.len() as usize,
            fuel,
        ),
{
    assert(crate::tree::subtree_preorder(m0, id)[0] == id);
    crate::tree::lemma_clone_fidelity(m0, id, 0, fuel);
}

/// Removal purges listeners: after a subtree is removed, no listener
/// entry names a removed node, whichever event it is registered under.
pub proof fn lemma_removal_purges_listeners(m: DomV, id: NodeId, e: int, y: NodeId)
    requires
        m.wf(),
        m.existing(id),
        id != ROOT_ID,
        0 <= e < crate::tree::remove_spec(m, id).listeners.len(),
    ensures
        crate::tree::remove_spec(m, id).listeners[e].1.contains(y) ==> !is_descendant(m, id, y),
        crate::tree::remove_spec(m, id).listeners[e].1.contains(y) ==> crate::tree::remove_spec(
            m,
            id,
        ).existing(y),
{
    let m2 = crate::tree::remove_spec(m, id);
    crate::tree::lemma_purge_ids_props(m, id, m.listeners[e].1);
    if m2.listeners[e].1.contains(y) {
        assert(m2.listeners[e].1 == crate::tree::purge_ids(m, id, m.listeners[e].1));
        assert(m.listeners[e].1.contains(y) && !is_descendant(m, id, y));
        assert(m.existing(y));
        assert(m2.existing(y)) by {
            assert(m.nodes[y as int] is Some);
        }
    }
}

/// No spurious invalidation: a work item whose recomputed value equals
/// the stored one publishes nothing — every dirty record in the dom is
/// exactly as it was.
pub proof fn lemma_unchanged_value_invalidates_nothing(m: DomV, p: int, n: NodeId)
    requires
        m.existing(n),
        0 <= p < m.node(n).states.len(),
        m.node(n).states[p] == Option::Some(node_digest_spec(m, p, n)),
    ensures
        forall|x: NodeId|
            m.existing(x) ==> (#[trigger] run_item(m, p, n).node(x)).dirty == m.node(x).dirty,
{
    let d = node_digest_spec(m, p, n);
    let nn = crate::dom::NodeV {
        states: m.node(n).states.update(p, Option::Some(d)),
        ..m.node(n)
    };
    let m1 = m.with_node(n, nn);
    assert(run_item(m, p, n) == m1);
    assert forall|x: NodeId|
        m.existing(x) implies (#[trigger] run_item(m, p, n).node(x)).dirty == m.node(x).dirty by {
        if x == n {
            assert(m1.node(x) == nn);
        } else {
            assert(m1.node(x) == m.node(x));
        }
    }
}

/// Cross-pass ordering: in a trace grouped by schedule position, every
/// work item of a pass runs after every item of a pass it declares a
/// dependency on.
pub proof fn lemma_dependency_order(
    m0: DomV,
    tr: Seq<(usize, NodeId)>,
    i: int,
    j: int,
)
    requires
        m0.wf(),
        forall|a: int, b: int|
            0 <= a < b < tr.len() ==> crate::update::sched_pos(m0, (#[trigger] tr[a]).0)
                <= crate::update::sched_pos(m0, (#[trigger] tr[b]).0),
        forall|a: int|
            0 <= a < tr.len() ==> (#[trigger] tr[a]).0 < m0.passes.len() && 0
                <= crate::update::sched_pos(m0, tr[a].0),
        0 <= i < tr.len(),
        0 <= j < tr.len(),
        // the item at `i` declares a dependency on the pass of the item at `j`
        crate::schedule::must_follow(descs_of(m0.passes), tr[i].0 as int, tr[j].0 as int),
    ensures
        j < i,
{
    let order = m0.schedule;
    assert(crate::schedule::schedule_ok(descs_of(m0.passes), order));
    let pi = crate::update::sched_pos(m0, tr[i].0);
    let pj = crate::update::sched_pos(m0, tr[j].0);
    crate::dom::lemma_first_index(order, tr[i].0);
    crate::dom::lemma_first_index(order, tr[j].0);
    assert(order[pi] == tr[i].0 && order[pj] == tr[j].0);
    // the schedule places a pass after everything it depends on
    assert(pj < pi) by {
        assert(crate::schedule::must_follow(
            descs_of(m0.passes),
            order[pi] as int,
            order[pj] as int,
        ));
    }
    if i <= j {
        if i < j {
            assert(crate::update::sched_pos(m0, tr[i].0) <= crate::update::sched_pos(
                m0,
                tr[j].0,
            ));
        } else {
            assert(tr[i].0 == tr[j].0);
        }
    }
}

/// Cascading invalidation, across the whole cycle: when, somewhere in a
/// cycle's trace, pass `b` publishes a changed value on node `n`, every
/// pass `a` that depends on its parent's `b` state is still dirty on each
/// child of `n` when the cycle ends — later work items only add marks —
/// so the next cycle, whose trace holds exactly the then-dirty pairs, runs
/// (`a`, child) exactly once.
pub proof fn lemma_cascade_across_cycle(
    mstart: DomV,
    tr: Seq<(usize, NodeId)>,
    i: int,
    a: int,
    b: int,
    n: NodeId,
    x: NodeId,
)
    requires
        mstart.wf(),
        mstart.passes.len() <= usize::MAX,
        0 <= a < mstart.passes.len(),
        0 <= b < mstart.passes.len(),
        child_edge(descs_of(mstart.passes), a, b),
        0 <= i < tr.len(),
        tr[i] == (b as usize, n),
        mstart.existing(n),
        mstart.node(n).children.contains(x),
        // the value of pass `b` on `n` changes at its work item
        crate::update::run_trace(mstart, tr.take(i)).node(n).states[b] != Option::Some(
            node_digest_spec(crate::update::run_trace(mstart, tr.take(i)), b, n),
        ),
    ensures
        crate::update::run_trace(mstart, tr).existing(x),
        crate::update::run_trace(mstart, tr).node(x).dirty[a],
{
    let mi = crate::update::run_trace(mstart, tr.take(i));
    crate::update::lemma_run_trace_wf(mstart, tr.take(i));
    crate::update::lemma_run_trace_structure(mstart, tr.take(i));
    assert(mi.existing(n) && mi.node(n).children == mstart.node(n).children);
    assert(mi.passes == mstart.passes);
    // the work item at `i` plants the mark
    lemma_cascading_invalidation(mi, a, b, n, x);
    let mi1 = run_item(mi, b, n);
    assert(mi1 == crate::update::run_trace(mstart, tr.take(i + 1))) by {
        assert(tr.take(i + 1).drop_last() =~= tr.take(i));
        assert(tr.take(i + 1).last() == (b as usize, n));
    }
    // every later item keeps it
    assert(mi.existing(x)) by {
        assert(mstart.node_ok(n));
        let t = choose|t: int|
            0 <= t < mstart.node(n).children.len() && mstart.node(n).children[t] == x;
        assert(mstart.existing(mstart.node(n).children[t]));
    }
    crate::update::lemma_run_item_structure(mi, b, n);
    assert(mi1.existing(x));
    assert(0 <= a < mi1.node(x).dirty.len()) by {
        assert(mstart.node_ok(x)) by {
            assert(mstart.node_ok(n));
            let t = choose|t: int|
                0 <= t < mstart.node(n).children.len() && mstart.node(n).children[t] == x;
        }
        assert(mi.node(x).dirty.len() == mstart.node(x).dirty.len());
        assert(mi1.node(x).dirty.len() == mi.node(x).dirty.len());
    }
    crate::update::lemma_run_trace_keeps_dirty(mi1, tr.skip(i + 1), x, a);
    assert(crate::update::run_trace(mi1, tr.skip(i + 1)) == crate::update::run_trace(
        mstart,
        tr,
    )) by {
        crate::update::lemma_run_trace_append(mstart, tr.take(i + 1), tr.skip(i + 1));
        assert(tr.take(i + 1) + tr.skip(i + 1) =~= tr);
    }
}

} // verus!
