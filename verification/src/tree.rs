use vstd::prelude::*;
use vstd::seq_lib::*;
use vstd::set_lib::*;
use crate::dom::{DomV, NodeId, NodeV, RealDom, ROOT_ID};

verus! {

/// The ancestor of `n` at distance `k`: `n` itself for `k == 0`, else the
/// parent of the ancestor at distance `k - 1`.
pub open spec fn anc(m: DomV, n: NodeId, k: nat) -> Option<NodeId>
    decreases k,
{
    if !m.existing(n) {
        Option::None
    } else if k == 0 {
        Option::Some(n)
    } else {
        match anc(m, n, (k - 1) as nat) {
            Option::Some(a) => match m.node(a).parent {
                Option::Some(p) => if m.existing(p) {
                    Option::Some(p)
                } else {
                    Option::None
                },
                Option::None => Option::None,
            },
            Option::None => Option::None,
        }
    }
}

/// Whether `d` lies in the subtree of `a`: some ancestor of `d` is `a`.
pub open spec fn is_descendant(m: DomV, a: NodeId, d: NodeId) -> bool {
    exists|k: nat| anc(m, d, k) == Option::Some(a)
}

/// The ancestor at distance `k` exists for every `k` up to the height,
/// and sits exactly `k` levels higher.
pub proof fn lemma_anc_good(m: DomV, n: NodeId, k: nat)
    requires
        m.wf(),
        m.existing(n),
        k <= m.node(n).height,
    ensures
        anc(m, n, k) is Some,
        m.existing(anc(m, n, k)->Some_0),
        m.node(anc(m, n, k)->Some_0).height == m.node(n).height - k,
    decreases k,
{
    if k > 0 {
        lemma_anc_good(m, n, (k - 1) as nat);
        let a = anc(m, n, (k - 1) as nat)->Some_0;
        assert(m.node_ok(a));
        assert(m.node(a).height > 0);
        match m.node(a).parent {
            Option::Some(p) => {},
            Option::None => {
                assert(m.node(a).height == 0);
            },
        }
    }
}

/// Beyond the height there is no ancestor.
pub proof fn lemma_anc_none_past_height(m: DomV, n: NodeId, k: nat)
    requires
        m.wf(),
        m.existing(n),
        k > m.node(n).height,
    ensures
        anc(m, n, k) is None,
    decreases k,
{
    let h = m.node(n).height as nat;
    if k == h + 1 {
        lemma_anc_good(m, n, h);
        let a = anc(m, n, h)->Some_0;
        assert(m.node_ok(a));
        assert(m.node(a).height == 0);
        match m.node(a).parent {
            Option::Some(p) => {
                assert(m.node(a).height == m.node(p).height + 1);
            },
            Option::None => {},
        }
    } else {
        lemma_anc_none_past_height(m, n, (k - 1) as nat);
    }
}

/// An ancestor's chain continues the node's own chain.
pub proof fn lemma_anc_compose(m: DomV, n: NodeId, k1: nat, k2: nat)
    requires
        anc(m, n, k1) is Some,
    ensures
        anc(m, n, (k1 + k2) as nat) == anc(m, anc(m, n, k1)->Some_0, k2),
    decreases k2,
{
    let a = anc(m, n, k1)->Some_0;
    assert(m.existing(n));
    assert(m.existing(a)) by {
        lemma_anc_existing(m, n, k1);
    }
    if k2 == 0 {
    } else {
        lemma_anc_compose(m, n, k1, (k2 - 1) as nat);
    }
}

/// Every ancestor the chain yields is an existing node.
pub proof fn lemma_anc_existing(m: DomV, n: NodeId, k: nat)
    requires
        anc(m, n, k) is Some,
    ensures
        m.existing(anc(m, n, k)->Some_0),
        m.existing(n),
    decreases k,
{
    if k > 0 {
        lemma_anc_existing(m, n, (k - 1) as nat);
    }
}

/// Under the invariant, an ancestor at distance `k` sits `k` levels up;
/// so the distance between two fixed nodes is unique.
pub proof fn lemma_anc_height(m: DomV, n: NodeId, k: nat)
    requires
        m.wf(),
        m.existing(n),
        anc(m, n, k) is Some,
    ensures
        k <= m.node(n).height,
        m.node(anc(m, n, k)->Some_0).height == m.node(n).height - k,
    decreases k,
{
    if k > m.node(n).height {
        lemma_anc_none_past_height(m, n, k);
    } else {
        lemma_anc_good(m, n, k);
    }
}

/// A sequence of distinct indices below `n` holds at most `n` entries.
pub proof fn lemma_distinct_bounded_len(s: Seq<usize>, n: int)
    requires
        s.no_duplicates(),
        forall|k: int| 0 <= k < s.len() ==> s[k] < n,
        0 <= n,
    ensures
        s.len() <= n,
{
    let si = Seq::new(s.len(), |k: int| s[k] as int);
    assert(si.no_duplicates()) by {
        assert forall|i: int, j: int| 0 <= i < j < si.len() implies si[i] != si[j] by {
            assert(s[i] != s[j]);
        }
    }
    si.unique_seq_to_set();
    seq_to_set_is_finite(si);
    lemma_int_range(0, n);
    assert(si.to_set().subset_of(set_int_range(0, n))) by {
        assert forall|e: int| si.to_set().contains(e) implies set_int_range(0, n).contains(e) by {
            let k = choose|k: int| 0 <= k < si.len() && si[k] == e;
            assert(s[k] < n);
        }
    }
    lemma_len_subset(si.to_set(), set_int_range(0, n));
}

/// The chain of ancestors of `n`, nearest first: `n`, its parent, and so
/// on up to the chain's top.
pub open spec fn chain_seq(m: DomV, n: NodeId, len: nat) -> Seq<usize> {
    Seq::new(len, |k: int| anc(m, n, k as nat)->Some_0)
}

/// A node's height is below the slab length: its ancestor chain consists
/// of `height + 1` distinct existing nodes.
pub proof fn lemma_height_bound(m: DomV, n: NodeId)
    requires
        m.wf(),
        m.existing(n),
    ensures
        m.node(n).height < m.nodes.len(),
{
    let h = m.node(n).height as nat;
    let s = chain_seq(m, n, (h + 1) as nat);
    assert forall|k: int| 0 <= k < s.len() implies s[k] < m.nodes.len() by {
        lemma_anc_good(m, n, k as nat);
    }
    assert(s.no_duplicates()) by {
        assert forall|i: int, j: int| 0 <= i < j < s.len() implies s[i] != s[j] by {
            lemma_anc_good(m, n, i as nat);
            lemma_anc_good(m, n, j as nat);
            if s[i] == s[j] {
                assert(m.node(s[i]).height == m.node(n).height - i);
                assert(m.node(s[j]).height == m.node(n).height - j);
            }
        }
    }
    lemma_distinct_bounded_len(s, m.nodes.len() as int);
}

/// A member of `a`'s subtree is at least as deep as `a`, and `a` is its
/// ancestor at exactly the height difference.
pub proof fn lemma_descendant_depth(m: DomV, a: NodeId, d: NodeId)
    requires
        m.wf(),
        m.existing(d),
        is_descendant(m, a, d),
    ensures
        m.existing(a),
        m.node(d).height >= m.node(a).height,
        anc(m, d, (m.node(d).height - m.node(a).height) as nat) == Option::Some(a),
{
    let k = choose|k: nat| anc(m, d, k) == Option::Some(a);
    lemma_anc_existing(m, d, k);
    lemma_anc_height(m, d, k);
}

/// Two disjoint chains fit together in the slab: when `p` is outside the
/// subtree of the detached-or-attached root `c`, the ancestors of `p` and
/// the chain from a subtree member `n` down to `c` are all distinct, so
/// their total count is bounded by the slab length.
pub proof fn lemma_disjoint_chains(m: DomV, p: NodeId, c: NodeId, n: NodeId)
    requires
        m.wf(),
        m.existing(p),
        m.existing(c),
        m.existing(n),
        !is_descendant(m, c, p),
        is_descendant(m, c, n),
    ensures
        m.node(p).height + 1 + (m.node(n).height - m.node(c).height) < m.nodes.len(),
{
    let hp = m.node(p).height as nat;
    let rel = (m.node(n).height - m.node(c).height) as nat;
    lemma_descendant_depth(m, c, n);
    let s1 = chain_seq(m, p, (hp + 1) as nat);
    let s2 = chain_seq(m, n, (rel + 1) as nat);
    assert forall|k: int| 0 <= k < s1.len() implies s1[k] < m.nodes.len() by {
        lemma_anc_good(m, p, k as nat);
    }
    assert forall|k: int| 0 <= k < s2.len() implies s2[k] < m.nodes.len() by {
        lemma_anc_good(m, n, k as nat);
    }
    // Each chain is duplicate free (heights decrease along it), and no
    // node stands in both: it would make `c` an ancestor of `p`.
    let s = s2 + s1;
    assert(s.no_duplicates()) by {
        assert forall|i: int, j: int| 0 <= i < j < s.len() implies s[i] != s[j] by {
            if j < s2.len() {
                lemma_anc_good(m, n, i as nat);
                lemma_anc_good(m, n, j as nat);
                if s[i] == s[j] {
                    assert(m.node(s[i]).height == m.node(n).height - i);
                }
            } else if i >= s2.len() {
                let i1 = i - s2.len();
                let j1 = j - s2.len();
                lemma_anc_good(m, p, i1 as nat);
                lemma_anc_good(m, p, j1 as nat);
                if s[i] == s[j] {
                    assert(m.node(s[i]).height == m.node(p).height - i1);
                }
            } else {
                // s[i] is in the subtree chain, s[j] among p's ancestors.
                let j1 = j - s2.len();
                if s[i] == s[j] {
                    let a = s[i];
                    // `c` is an ancestor of `a`.
                    lemma_anc_good(m, n, i as nat);
                    assert(anc(m, n, i as nat) == Option::Some(a));
                    lemma_anc_compose(m, n, i as nat, (rel - i) as nat);
                    assert(anc(m, a, (rel - i) as nat) == Option::Some(c)) by {
                        assert(anc(m, n, rel) == Option::Some(c));
                    }
                    // And `a` is an ancestor of `p`, so `c` is too.
                    lemma_anc_good(m, p, j1 as nat);
                    assert(anc(m, p, j1 as nat) == Option::Some(a));
                    lemma_anc_compose(m, p, j1 as nat, (rel - i) as nat);
                    assert(anc(m, p, (j1 + (rel - i)) as nat) == Option::Some(c));
                    assert(is_descendant(m, c, p));
                }
            }
        }
    }
    lemma_distinct_bounded_len(s, m.nodes.len() as int);
}


/// The depth-first order of the subtree of `id`: the node, then each
/// child's whole subtree, children in order — except that the walk does
/// not descend below a node named in `skip`.  The fuel only feeds the
/// recursion; any fuel at least the slab size is enough (`lemma_cut_preorder_fuel_mono`).
pub open spec fn cut_preorder_fuel(m: DomV, skip: Seq<NodeId>, id: NodeId, fuel: nat) -> Seq<NodeId>
    decreases fuel, 0int,
{
    if fuel == 0 || skip.contains(id) {
        seq![id]
    } else {
        seq![id] + cut_kids_fuel(m, skip, m.node(id).children, (fuel - 1) as nat)
    }
}

/// The concatenated depth-first orders of the subtrees of `cs`, in order.
pub open spec fn cut_kids_fuel(m: DomV, skip: Seq<NodeId>, cs: Seq<NodeId>, fuel: nat) -> Seq<NodeId>
    decreases fuel, cs.len(),
{
    if cs.len() == 0 {
        Seq::empty()
    } else {
        cut_preorder_fuel(m, skip, cs[0], fuel) + cut_kids_fuel(m, skip, cs.drop_first(), fuel)
    }
}

/// The depth-first order below `id`, not descending below `skip` members.
pub open spec fn cut_preorder(m: DomV, skip: Seq<NodeId>, id: NodeId) -> Seq<NodeId> {
    cut_preorder_fuel(m, skip, id, m.nodes.len() as nat)
}

/// The depth-first order of the whole subtree of `id`.
pub open spec fn subtree_preorder(m: DomV, id: NodeId) -> Seq<NodeId> {
    cut_preorder(m, Seq::empty(), id)
}

/// Any fuel at least `slab size - height` yields the same order: the walk
/// can never need more steps of descent than the slab holds nodes.
pub proof fn lemma_cut_preorder_fuel_mono(m: DomV, skip: Seq<NodeId>, x: NodeId, f1: nat, f2: nat)
    requires
        m.wf(),
        m.existing(x),
        f1 >= m.nodes.len() - m.node(x).height,
        f2 >= m.nodes.len() - m.node(x).height,
    ensures
        cut_preorder_fuel(m, skip, x, f1) == cut_preorder_fuel(m, skip, x, f2),
    decreases f1 + f2, 0int,
{
    lemma_height_bound(m, x);
    assert(f1 >= 1 && f2 >= 1);
    if !skip.contains(x) {
        assert(m.node_ok(x));
        assert forall|i: int| 0 <= i < m.node(x).children.len() implies {
            &&& m.existing(#[trigger] m.node(x).children[i])
            &&& m.node(m.node(x).children[i]).height == m.node(x).height + 1
        } by {
            let c = m.node(x).children[i];
            assert(m.existing(c) && m.node(c).parent == Option::Some(x));
            assert(m.node_ok(c));
        }
        lemma_cut_kids_fuel_mono(
            m,
            skip,
            m.node(x).children,
            (f1 - 1) as nat,
            (f2 - 1) as nat,
            (m.node(x).height + 1) as nat,
        );
    }
}

/// Fuel irrelevance for a list of same-height nodes.
proof fn lemma_cut_kids_fuel_mono(
    m: DomV,
    skip: Seq<NodeId>,
    cs: Seq<NodeId>,
    f1: nat,
    f2: nat,
    h: nat,
)
    requires
        m.wf(),
        forall|i: int|
            0 <= i < cs.len() ==> m.existing(#[trigger] cs[i]) && m.node(cs[i]).height == h,
        f1 >= m.nodes.len() - h,
        f2 >= m.nodes.len() - h,
    ensures
        cut_kids_fuel(m, skip, cs, f1) == cut_kids_fuel(m, skip, cs, f2),
    decreases f1 + f2, cs.len(),
{
    if cs.len() > 0 {
        assert(m.existing(cs[0]) && m.node(cs[0]).height == h);
        lemma_cut_preorder_fuel_mono(m, skip, cs[0], f1, f2);
        assert forall|i: int| 0 <= i < cs.drop_first().len() implies m.existing(
            #[trigger] cs.drop_first()[i],
        ) && m.node(cs.drop_first()[i]).height == h by {
            assert(cs.drop_first()[i] == cs[i + 1]);
        }
        lemma_cut_kids_fuel_mono(m, skip, cs.drop_first(), f1, f2, h);
    }
}

/// The canonical concatenated orders of a list of subtrees.
pub open spec fn cut_preorders(m: DomV, skip: Seq<NodeId>, cs: Seq<NodeId>) -> Seq<NodeId>
    decreases cs.len(),
{
    if cs.len() == 0 {
        Seq::empty()
    } else {
        cut_preorder(m, skip, cs[0]) + cut_preorders(m, skip, cs.drop_first())
    }
}

/// At one level of descent the fuel step disappears: the children's
/// concatenated orders at fuel `slab size - 1` are the canonical ones.
proof fn lemma_cut_kids_canonical(m: DomV, skip: Seq<NodeId>, cs: Seq<NodeId>, h: nat)
    requires
        m.wf(),
        h >= 1,
        forall|i: int|
            0 <= i < cs.len() ==> m.existing(#[trigger] cs[i]) && m.node(cs[i]).height == h,
    ensures
        cut_kids_fuel(m, skip, cs, (m.nodes.len() - 1) as nat) == cut_preorders(m, skip, cs),
    decreases cs.len(),
{
    if cs.len() > 0 {
        lemma_height_bound(m, cs[0]);
        lemma_cut_preorder_fuel_mono(
            m,
            skip,
            cs[0],
            (m.nodes.len() - 1) as nat,
            m.nodes.len() as nat,
        );
        assert forall|i: int| 0 <= i < cs.drop_first().len() implies m.existing(
            #[trigger] cs.drop_first()[i],
        ) && m.node(cs.drop_first()[i]).height == h by {
            assert(cs.drop_first()[i] == cs[i + 1]);
        }
        lemma_cut_kids_canonical(m, skip, cs.drop_first(), h);
    }
}

/// What the walk still owes: the concatenated orders of the stacked
/// subtrees, nearest the top first.
pub open spec fn pending_order(m: DomV, skip: Seq<NodeId>, stack: Seq<NodeId>) -> Seq<NodeId>
    decreases stack.len(),
{
    if stack.len() == 0 {
        Seq::empty()
    } else {
        cut_preorder(m, skip, stack.last()) + pending_order(m, skip, stack.drop_last())
    }
}

/// Stacking a reversed child list owes exactly the children's orders, in
/// child order, before what was owed already.
proof fn lemma_pending_pushed(m: DomV, skip: Seq<NodeId>, rest: Seq<NodeId>, cs: Seq<NodeId>)
    ensures
        pending_order(m, skip, rest + cs.reverse()) == cut_preorders(m, skip, cs) + pending_order(
            m,
            skip,
            rest,
        ),
    decreases cs.len(),
{
    if cs.len() == 0 {
        assert(rest + cs.reverse() =~= rest);
        assert(cut_preorders(m, skip, cs) + pending_order(m, skip, rest) =~= pending_order(
            m,
            skip,
            rest,
        ));
    } else {
        let combined = rest + cs.reverse();
        assert(combined.last() == cs[0]) by {
            assert(cs.reverse()[cs.len() - 1] == cs[0]);
        }
        assert(combined.drop_last() =~= rest + cs.drop_first().reverse()) by {
            assert forall|i: int| 0 <= i < combined.len() - 1 implies combined.drop_last()[i] == (
            rest + cs.drop_first().reverse())[i] by {
                if i >= rest.len() {
                    assert(combined[i] == cs.reverse()[i - rest.len()]);
                    assert(cs.reverse()[i - rest.len()] == cs[cs.len() - 1 - (i - rest.len())]);
                    assert(cs.drop_first().reverse()[i - rest.len()] == cs.drop_first()[
                        cs.drop_first().len() - 1 - (i - rest.len())
                    ]);
                }
            }
        }
        lemma_pending_pushed(m, skip, rest, cs.drop_first());
        assert(pending_order(m, skip, rest + cs.reverse()) == cut_preorder(m, skip, cs[0])
            + pending_order(m, skip, rest + cs.drop_first().reverse()));
        assert(cut_preorder(m, skip, cs[0]) + (cut_preorders(m, skip, cs.drop_first())
            + pending_order(m, skip, rest)) =~= cut_preorders(m, skip, cs) + pending_order(
            m,
            skip,
            rest,
        ));
    }
}

/// One walk step keeps the owed order: popping `n` and stacking what the
/// walk descends into moves `n` from owed to emitted.
proof fn lemma_pending_step(
    m: DomV,
    skip: Seq<NodeId>,
    emitted: Seq<NodeId>,
    stack: Seq<NodeId>,
    target: Seq<NodeId>,
    pushed: Seq<NodeId>,
)
    requires
        m.wf(),
        stack.len() > 0,
        m.existing(stack.last()),
        emitted + pending_order(m, skip, stack) == target,
        pushed == (if skip.contains(stack.last()) {
            Seq::<NodeId>::empty()
        } else {
            m.node(stack.last()).children
        }),
    ensures
        emitted.push(stack.last()) + pending_order(m, skip, stack.drop_last() + pushed.reverse())
            == target,
{
    let n = stack.last();
    lemma_height_bound(m, n);
    assert(m.nodes.len() >= 1);
    // unfold the owed order at `n`
    assert(pending_order(m, skip, stack) == cut_preorder(m, skip, n) + pending_order(
        m,
        skip,
        stack.drop_last(),
    ));
    if skip.contains(n) {
        assert(cut_preorder(m, skip, n) == seq![n]);
        assert(pushed.reverse() =~= Seq::<NodeId>::empty());
        assert(stack.drop_last() + pushed.reverse() =~= stack.drop_last());
        assert(emitted.push(n) + pending_order(m, skip, stack.drop_last()) =~= emitted + (seq![n]
            + pending_order(m, skip, stack.drop_last())));
    } else {
        assert(m.node_ok(n));
        assert forall|i: int| 0 <= i < pushed.len() implies {
            &&& m.existing(#[trigger] pushed[i])
            &&& m.node(pushed[i]).height == m.node(n).height + 1
        } by {
            let c = m.node(n).children[i];
            assert(m.existing(c) && m.node(c).parent == Option::Some(n));
            assert(m.node_ok(c));
        }
        assert(cut_preorder(m, skip, n) == seq![n] + cut_kids_fuel(
            m,
            skip,
            pushed,
            (m.nodes.len() - 1) as nat,
        ));
        lemma_cut_kids_canonical(m, skip, pushed, (m.node(n).height + 1) as nat);
        lemma_pending_pushed(m, skip, stack.drop_last(), pushed);
        assert(emitted.push(n) + pending_order(m, skip, stack.drop_last() + pushed.reverse()) =~=
            emitted + (cut_preorder(m, skip, n) + pending_order(m, skip, stack.drop_last())));
    }
}

/// Every child of a member of `r` is a member of `r`.
pub open spec fn children_closed(m: DomV, r: Seq<NodeId>) -> bool {
    forall|k: int, c: NodeId|
        0 <= k < r.len() && #[trigger] m.node(r[k]).children.contains(c) ==> r.contains(c)
}

/// A set of nodes that holds `a` and is closed under children holds the
/// whole subtree of `a`.
pub proof fn lemma_closed_contains_descendants(m: DomV, a: NodeId, r: Seq<NodeId>, d: NodeId, k: nat)
    requires
        m.wf(),
        r.contains(a),
        children_closed(m, r),
        anc(m, d, k) == Option::Some(a),
    ensures
        r.contains(d),
    decreases k,
{
    if k > 0 {
        let prev = anc(m, d, (k - 1) as nat);
        let b = prev->Some_0;
        lemma_anc_existing(m, d, (k - 1) as nat);
        assert(m.node(b).parent == Option::Some(a));
        assert(m.node_ok(b));
        assert(m.node(a).children.contains(b));
        let j = choose|j: int| 0 <= j < r.len() && r[j] == a;
        assert(m.node(r[j]).children.contains(b));
        assert(r.contains(b));
        lemma_closed_contains_descendants(m, b, r, d, (k - 1) as nat);
    }
}

/// Whether the parent of `x` stands somewhere in `r`.
pub open spec fn parent_recorded(m: DomV, r: Seq<NodeId>, x: NodeId) -> bool {
    exists|j: int| 0 <= j < r.len() && Option::Some(r[j]) == m.node(x).parent
}

/// Whether the parent of `r[k]` stands somewhere before position `k`.
pub open spec fn parent_in_prefix(m: DomV, r: Seq<NodeId>, k: int) -> bool {
    exists|j: int| 0 <= j < k && Option::Some(r[j]) == m.node(r[k]).parent
}

impl RealDom {
    /// The nodes of the subtree rooted at `id`: `id` first, every node
    /// once, and each node after its parent.
    pub fn collect_subtree(&self, id: NodeId) -> (r: Vec<NodeId>)
        requires
            self@.wf(),
            self@.existing(id),
        ensures
            r@ == subtree_preorder(self@, id),
            r@.len() >= 1,
            r@[0] == id,
            r@.no_duplicates(),
            forall|x: NodeId| r@.contains(x) == is_descendant(self@, id, x),
            forall|k: int| 1 <= k < r@.len() ==> parent_in_prefix(self@, r@, k),
    {
        let ghost m = self@;
        let ghost target = subtree_preorder(m, id);
        let mut result: Vec<NodeId> = Vec::new();
        let mut stack: Vec<NodeId> = Vec::new();
        stack.push(id);
        proof {
            assert((result@ + stack@) =~= seq![id]);
            assert(anc(m, id, 0) == Option::Some(id));
            assert(is_descendant(m, id, id));
            assert(pending_order(m, Seq::empty(), stack@) == cut_preorder(m, Seq::empty(), id)
                + pending_order(m, Seq::empty(), stack@.drop_last()));
            assert(stack@.drop_last() =~= Seq::<NodeId>::empty());
            assert(result@ + pending_order(m, Seq::empty(), stack@) =~= target);
        }
        while stack.len() > 0
            invariant
                self@ == m,
                m.wf(),
                m.existing(id),
                target == subtree_preorder(m, id),
                result@ + pending_order(m, Seq::empty(), stack@) == target,
                (result@ + stack@).no_duplicates(),
                forall|k: int|
                    0 <= k < result@.len() ==> m.existing(#[trigger] result@[k]) && is_descendant(
                        m,
                        id,
                        result@[k],
                    ),
                forall|k: int|
                    0 <= k < stack@.len() ==> m.existing(#[trigger] stack@[k]) && is_descendant(
                        m,
                        id,
                        stack@[k],
                    ),
                result@.len() == 0 ==> stack@ =~= seq![id],
                result@.len() > 0 ==> result@[0] == id,
                forall|k: int, c: NodeId|
                    0 <= k < result@.len() && #[trigger] m.node(result@[k]).children.contains(c)
                        ==> result@.contains(c) || stack@.contains(c),
                forall|k: int|
                    0 <= k < stack@.len() ==> (#[trigger] stack@[k]) == id || parent_recorded(
                        m,
                        result@,
                        stack@[k],
                    ),
                forall|k: int| 1 <= k < result@.len() ==> parent_in_prefix(m, result@, k),
                result@.len() + stack@.len() <= m.nodes.len(),
            decreases m.nodes.len() - result@.len(),
        {
            let ghost old_result = result@;
            let ghost old_stack = stack@;
            let n = stack.pop().unwrap();
            result.push(n);
            proof {
                assert(old_stack[old_stack.len() - 1] == n);
                assert(old_stack.contains(n)) by {
                    assert(old_stack[old_stack.len() - 1] == n);
                }
                assert(result@ =~= old_result.push(n));
                assert(stack@ =~= old_stack.drop_last());
            }
            let children = match &self.nodes[n] {
                Option::Some(nd) => crate::dom::clone_ids(&nd.children),
                Option::None => Vec::new(),
            };
            proof {
                assert(m.node_ok(n));
                assert(children@ == m.node(n).children);
                assert(children@.skip(children@.len() as int).reverse() =~= Seq::<NodeId>::empty());
                assert(stack@ =~= old_stack.drop_last() + children@.skip(
                    children@.len() as int,
                ).reverse());
                assert(is_descendant(m, id, n)) by {
                    assert(old_stack[old_stack.len() - 1] == n);
                }
            }
            let mut i: usize = children.len();
            while i > 0
                invariant
                    self@ == m,
                    m.wf(),
                    m.existing(id),
                    m.existing(n),
                    children@ == m.node(n).children,
                    i <= children@.len(),
                    result@ == old_result.push(n),
                    result@[result@.len() - 1] == n,
                    result@.len() >= 1,
                    is_descendant(m, id, n),
                    // the new stack: the old one (minus the popped node)
                    // plus the children from the back down to `i`
                    stack@ =~= old_stack.drop_last() + children@.skip(i as int).reverse(),
                decreases i,
            {
                i -= 1;
                let c = children[i];
                stack.push(c);
                proof {
                    assert(stack@ =~= old_stack.drop_last() + children@.skip(i as int).reverse())
                        by {
                        assert(children@.skip(i as int).reverse() =~= children@.skip(
                            i + 1,
                        ).reverse().push(children@[i as int]));
                    }
                }
            }
            proof {
                lemma_collect_step(m, id, old_result, old_stack, n, children@);
                assert(stack@ =~= old_stack.drop_last() + children@.reverse()) by {
                    assert(children@.skip(0) =~= children@);
                }
                assert(!Seq::<NodeId>::empty().contains(n));
                lemma_pending_step(m, Seq::empty(), old_result, old_stack, target, children@);
            }
        }
        proof {
            assert(result@ + stack@ =~= result@);
            assert(result@ =~= result@ + pending_order(m, Seq::empty(), stack@));
            assert(result@ == target);
            assert(result@.contains(id)) by {
                assert(result@[0] == id);
            }
            assert(children_closed(m, result@));
            assert forall|x: NodeId| result@.contains(x) == is_descendant(m, id, x) by {
                if is_descendant(m, id, x) {
                    let k = choose|k: nat| anc(m, x, k) == Option::Some(id);
                    lemma_closed_contains_descendants(m, id, result@, x, k);
                }
                if result@.contains(x) {
                    let k = choose|k: int| 0 <= k < result@.len() && result@[k] == x;
                }
            }
        }
        result
    }
}

/// One collection step keeps the loop's bookkeeping: moving `n` from the
/// stack to the result and stacking its children preserves distinctness,
/// membership, closure and the parent-first order.
proof fn lemma_collect_step(
    m: DomV,
    id: NodeId,
    old_result: Seq<NodeId>,
    old_stack: Seq<NodeId>,
    n: NodeId,
    children: Seq<NodeId>,
)
    requires
        m.wf(),
        m.existing(id),
        old_stack.len() > 0,
        old_stack[old_stack.len() - 1] == n,
        children == m.node(n).children,
        (old_result + old_stack).no_duplicates(),
        forall|k: int|
            0 <= k < old_result.len() ==> m.existing(#[trigger] old_result[k]) && is_descendant(
                m,
                id,
                old_result[k],
            ),
        forall|k: int|
            0 <= k < old_stack.len() ==> m.existing(#[trigger] old_stack[k]) && is_descendant(
                m,
                id,
                old_stack[k],
            ),
        old_result.len() == 0 ==> old_stack =~= seq![id],
        old_result.len() > 0 ==> old_result[0] == id,
        forall|k: int, c: NodeId|
            0 <= k < old_result.len() && #[trigger] m.node(old_result[k]).children.contains(c)
                ==> old_result.contains(c) || old_stack.contains(c),
        forall|k: int|
            0 <= k < old_stack.len() ==> (#[trigger] old_stack[k]) == id || parent_recorded(
                m,
                old_result,
                old_stack[k],
            ),
        forall|k: int| 1 <= k < old_result.len() ==> parent_in_prefix(m, old_result, k),
        old_result.len() + old_stack.len() <= m.nodes.len(),
    ensures
        ({
            let result = old_result.push(n);
            let stack = old_stack.drop_last() + children.reverse();
            &&& (result + stack).no_duplicates()
            &&& (forall|k: int|
                0 <= k < result.len() ==> m.existing(#[trigger] result[k]) && is_descendant(
                    m,
                    id,
                    result[k],
                ))
            &&& (forall|k: int|
                0 <= k < stack.len() ==> m.existing(#[trigger] stack[k]) && is_descendant(
                    m,
                    id,
                    stack[k],
                ))
            &&& result[0] == id
            &&& (forall|k: int, c: NodeId|
                0 <= k < result.len() && #[trigger] m.node(result[k]).children.contains(c)
                    ==> result.contains(c) || stack.contains(c))
            &&& (forall|k: int|
                0 <= k < stack.len() ==> (#[trigger] stack[k]) == id || parent_recorded(
                    m,
                    result,
                    stack[k],
                ))
            &&& (forall|k: int| 1 <= k < result.len() ==> parent_in_prefix(m, result, k))
            &&& result.len() + stack.len() <= m.nodes.len()
        }),
{
    let result = old_result.push(n);
    let stack = old_stack.drop_last() + children.reverse();
    assert(m.existing(n) && is_descendant(m, id, n)) by {
        assert(old_stack[old_stack.len() - 1] == n);
    }
    assert(n == id || parent_recorded(m, old_result, n)) by {
        assert(old_stack[old_stack.len() - 1] == n);
    }
    assert(m.node_ok(n));
    assert(result[0] == id) by {
        if old_result.len() == 0 {
            assert(old_stack =~= seq![id]);
            assert(n == id);
        }
    }
    // Children of `n` exist, are descendants of `id`, and their parent is `n`.
    assert forall|t: int| 0 <= t < children.len() implies {
        &&& m.existing(#[trigger] children[t])
        &&& m.node(children[t]).parent == Option::Some(n)
        &&& is_descendant(m, id, children[t])
    } by {
        assert(m.node(n).children[t] == children[t]);
        let c = children[t];
        assert(m.existing(c) && m.node(c).parent == Option::Some(n));
        // ancestor chains compose: c - n - ... - id
        let k = choose|k: nat| anc(m, n, k) == Option::Some(id);
        assert(anc(m, c, 0) == Option::Some(c));
        assert(anc(m, c, 1) == Option::Some(n));
        lemma_anc_compose(m, c, 1, k);
        assert(anc(m, c, (1 + k) as nat) == Option::Some(id));
    }
    // No child of `n` already sits in the result or the old stack.
    assert forall|t: int| 0 <= t < children.len() implies {
        &&& !old_result.contains(#[trigger] children[t])
        &&& !old_stack.drop_last().contains(children[t])
        &&& children[t] != n
    } by {
        let c = children[t];
        assert(m.node(c).parent == Option::Some(n));
        assert(!old_result.contains(n)) by {
            if old_result.contains(n) {
                let j = choose|j: int| 0 <= j < old_result.len() && old_result[j] == n;
                assert((old_result + old_stack)[j] == n);
                assert((old_result + old_stack)[old_result.len() + old_stack.len() - 1] == n);
            }
        }
        if c == n {
            // a node cannot be its own parent: heights differ
            assert(m.node_ok(c));
            assert(m.node(c).height == m.node(n).height + 1);
        }
        assert(m.node_ok(c));
        if old_result.contains(c) {
            let j = choose|j: int| 0 <= j < old_result.len() && old_result[j] == c;
            if j == 0 {
                // `id` has no parent inside its own subtree
                assert(old_result[0] == id);
                assert(c == id);
                lemma_descendant_depth(m, id, n);
                assert(m.node_ok(c));
                assert(m.node(c).height == m.node(n).height + 1);
            } else {
                assert(parent_in_prefix(m, old_result, j));
                let j2 = choose|j2: int|
                    0 <= j2 < j && Option::Some(old_result[j2]) == m.node(old_result[j]).parent;
                assert(old_result[j2] == n);
                assert(old_result.contains(n));
            }
        }
        if old_stack.drop_last().contains(c) {
            let j = choose|j: int|
                0 <= j < old_stack.drop_last().len() && old_stack.drop_last()[j] == c;
            assert(old_stack[j] == c);
            if c == id {
                lemma_descendant_depth(m, id, n);
                assert(m.node_ok(c));
                assert(m.node(c).height == m.node(n).height + 1);
            } else {
                let j2 = choose|j2: int|
                    0 <= j2 < old_result.len() && Option::Some(old_result[j2]) == m.node(
                        old_stack[j],
                    ).parent;
                assert(old_result[j2] == n);
                assert(old_result.contains(n));
            }
        }
    }
    // Children are mutually distinct, so the combined list stays so.
    assert((result + stack).no_duplicates()) by {
        let combined = result + stack;
        assert forall|a: int, b: int| 0 <= a < b < combined.len() implies combined[a]
            != combined[b] by {
            let old_combined = old_result + old_stack;
            let rl = result.len();
            let osl = old_stack.drop_last().len();
            assert forall|t: int| 0 <= t < combined.len() implies combined[t] == spec_entry(
                old_result,
                old_stack,
                n,
                children,
                t,
            ) by {
                if t < rl - 1 {
                    assert(combined[t] == old_result[t]);
                } else if t == rl - 1 {
                    assert(combined[t] == n);
                } else if t < rl + osl {
                    assert(combined[t] == old_stack[t - rl]);
                } else {
                    assert(combined[t] == children.reverse()[t - rl - osl]);
                }
            }
            let ea = spec_entry(old_result, old_stack, n, children, a);
            let eb = spec_entry(old_result, old_stack, n, children, b);
            let old_combined_idx = |t: int|
                if t < rl - 1 {
                    t
                } else if t == rl - 1 {
                    old_result.len() + old_stack.len() - 1
                } else {
                    t - 1
                };
            if a < rl + osl && b < rl + osl {
                // both stem from the old combined list, at distinct spots
                assert(old_combined[old_combined_idx(a)] == combined[a]);
                assert(old_combined[old_combined_idx(b)] == combined[b]);
                assert(old_combined_idx(a) != old_combined_idx(b));
            } else if b >= rl + osl {
                let cb = children.reverse()[b - rl - osl];
                assert(children.contains(cb)) by {
                    assert(children[children.len() - 1 - (b - rl - osl)] == cb);
                }
                if a >= rl + osl {
                    let ca = children.reverse()[a - rl - osl];
                    assert(m.node(n).children.no_duplicates());
                    assert(children.reverse().no_duplicates()) by {
                        assert forall|u: int, v: int|
                            0 <= u < v < children.reverse().len() implies children.reverse()[u]
                            != children.reverse()[v] by {
                            assert(children.reverse()[u] == children[children.len() - 1 - u]);
                            assert(children.reverse()[v] == children[children.len() - 1 - v]);
                        }
                    }
                    assert(ca != cb);
                } else if a == rl - 1 {
                    assert(combined[a] == n);
                    assert(cb != n);
                } else if a < rl - 1 {
                    assert(!old_result.contains(cb));
                    assert(old_result[a] == combined[a]);
                    if combined[a] == cb {
                        assert(old_result.contains(cb)) by {
                            assert(old_result[a] == cb);
                        }
                    }
                } else {
                    assert(!old_stack.drop_last().contains(cb));
                    assert(old_stack.drop_last()[a - rl] == combined[a]);
                    if combined[a] == cb {
                        assert(old_stack.drop_last().contains(cb)) by {
                            assert(old_stack.drop_last()[a - rl] == cb);
                        }
                    }
                }
            }
        }
    }
    assert(result.len() + stack.len() <= m.nodes.len()) by {
        lemma_distinct_bounded_len_nodes(m, result + stack);
    }
    // Closure, parent-first order and stack parents.
    assert forall|k: int, c: NodeId|
        0 <= k < result.len() && #[trigger] m.node(result[k]).children.contains(c)
            implies result.contains(c) || stack.contains(c) by {
        if k < result.len() - 1 {
            assert(old_result.contains(c) || old_stack.contains(c));
            if old_result.contains(c) {
                let j = choose|j: int| 0 <= j < old_result.len() && old_result[j] == c;
                assert(result[j] == c);
            } else {
                let j = choose|j: int| 0 <= j < old_stack.len() && old_stack[j] == c;
                if j < old_stack.len() - 1 {
                    assert(stack[j] == c);
                } else {
                    assert(c == n);
                    assert(result[result.len() - 1] == n);
                }
            }
        } else {
            // children of `n` are on the stack now
            let t = choose|t: int| 0 <= t < children.len() && children[t] == c;
            assert(children.reverse()[children.len() - 1 - t] == c);
            assert(stack[old_stack.drop_last().len() + children.len() - 1 - t] == c);
        }
    }
    assert forall|k: int|
        0 <= k < stack.len() implies (#[trigger] stack[k]) == id || parent_recorded(
            m,
            result,
            stack[k],
        ) by {
        if k < old_stack.drop_last().len() {
            assert(old_stack[k] == stack[k]);
            if old_stack[k] != id {
                assert(parent_recorded(m, old_result, old_stack[k]));
                let j = choose|j: int|
                    0 <= j < old_result.len() && Option::Some(old_result[j]) == m.node(
                        old_stack[k],
                    ).parent;
                assert(result[j] == old_result[j]);
                assert(parent_recorded(m, result, stack[k]));
            }
        } else {
            let c = stack[k];
            assert(children.reverse()[k - old_stack.drop_last().len()] == c);
            assert(children.contains(c)) by {
                assert(children[children.len() - 1 - (k - old_stack.drop_last().len())] == c);
            }
            let t = choose|t: int| 0 <= t < children.len() && children[t] == c;
            assert(m.node(c).parent == Option::Some(n));
            assert(result[result.len() - 1] == n);
            assert(parent_recorded(m, result, c)) by {
                assert(Option::Some(result[result.len() - 1]) == m.node(c).parent);
            }
        }
    }
    assert forall|k: int| 1 <= k < result.len() implies parent_in_prefix(m, result, k) by {
        if k < result.len() - 1 {
            assert(parent_in_prefix(m, old_result, k));
            let j = choose|j: int|
                0 <= j < k && Option::Some(old_result[j]) == m.node(old_result[k]).parent;
            assert(result[j] == old_result[j]);
            assert(result[k] == old_result[k]);
        } else {
            // `n` came off the stack: its parent is already in the result
            if n == id {
                // impossible here: `id` already heads the result, and the
                // combined list is duplicate free
                assert(old_result.len() > 0);
                assert(old_result[0] == id);
                assert((old_result + old_stack)[0] == id);
                assert((old_result + old_stack)[old_result.len() + old_stack.len() - 1] == n);
                assert(false);
            } else {
                let j = choose|j: int|
                    0 <= j < old_result.len() && Option::Some(old_result[j]) == m.node(n).parent;
                assert(result[j] == old_result[j]);
                assert(Option::Some(result[j]) == m.node(result[k]).parent);
            }
        }
    }
}

/// Helper naming the entries of the stepped combined list.
spec fn spec_entry(
    old_result: Seq<NodeId>,
    old_stack: Seq<NodeId>,
    n: NodeId,
    children: Seq<NodeId>,
    t: int,
) -> NodeId {
    let rl = old_result.len() + 1;
    let osl = old_stack.len() - 1;
    if t < rl - 1 {
        old_result[t]
    } else if t == rl - 1 {
        n
    } else if t < rl + osl {
        old_stack[t - rl]
    } else {
        children.reverse()[t - rl - osl]
    }
}

/// A duplicate-free list of existing nodes is no longer than the slab.
proof fn lemma_distinct_bounded_len_nodes(m: DomV, s: Seq<NodeId>)
    requires
        s.no_duplicates(),
        forall|k: int| 0 <= k < s.len() ==> m.existing(#[trigger] s[k]),
    ensures
        s.len() <= m.nodes.len(),
{
    assert forall|k: int| 0 <= k < s.len() implies s[k] < m.nodes.len() by {
        assert(m.existing(s[k]));
    }
    lemma_distinct_bounded_len(s, m.nodes.len() as int);
}

/// Properties of removing the first occurrence from a duplicate-free list.
pub proof fn lemma_remove_first_props(s: Seq<NodeId>, x: NodeId)
    requires
        s.no_duplicates(),
    ensures
        crate::listeners::remove_first(s, x).no_duplicates(),
        !crate::listeners::remove_first(s, x).contains(x),
        forall|y: NodeId|
            #[trigger] crate::listeners::remove_first(s, x).contains(y) == (s.contains(y) && y
                != x),
        crate::listeners::remove_first(s, x).len() == if s.contains(x) {
            s.len() - 1
        } else {
            s.len() as int
        },
        !s.contains(x) ==> crate::listeners::remove_first(s, x) == s,
{
    let i = crate::dom::first_index(s, x);
    crate::dom::lemma_first_index(s, x);
    let r = crate::listeners::remove_first(s, x);
    if i == -1 {
        assert(r == s);
        assert(!s.contains(x));
        assert forall|y: NodeId| #[trigger] r.contains(y) == (s.contains(y) && y != x) by {
            if s.contains(y) && y == x {
                assert(!s.contains(x));
            }
        }
    } else {
        assert(r == s.remove(i));
        assert(r.no_duplicates()) by {
            assert forall|a: int, b: int| 0 <= a < b < r.len() implies r[a] != r[b] by {
                let a2 = if a < i {
                    a
                } else {
                    a + 1
                };
                let b2 = if b < i {
                    b
                } else {
                    b + 1
                };
                assert(r[a] == s[a2]);
                assert(r[b] == s[b2]);
            }
        }
        assert forall|y: NodeId| #[trigger] r.contains(y) == (s.contains(y) && y != x) by {
            if r.contains(y) {
                let k = choose|k: int| 0 <= k < r.len() && r[k] == y;
                let k2 = if k < i {
                    k
                } else {
                    k + 1
                };
                assert(s[k2] == y);
                assert(s.contains(y));
                if y == x {
                    assert(s[i] == x);
                    assert(k2 != i);
                }
            }
            if s.contains(y) && y != x {
                let k = choose|k: int| 0 <= k < s.len() && s[k] == y;
                assert(k != i);
                if k < i {
                    assert(r[k] == y);
                } else {
                    assert(r[k - 1] == y);
                }
                assert(r.contains(y));
            }
        }
        assert(s.contains(x)) by {
            assert(s[i] == x);
        }
    }
}

/// The parent of a proper member of `c`'s subtree is itself in the subtree.
pub proof fn lemma_parent_desc(m: DomV, c: NodeId, x: NodeId)
    requires
        m.wf(),
        m.existing(x),
        is_descendant(m, c, x),
        x != c,
    ensures
        m.node(x).parent is Some,
        m.existing(m.node(x).parent->Some_0),
        is_descendant(m, c, m.node(x).parent->Some_0),
{
    lemma_descendant_depth(m, c, x);
    let k = (m.node(x).height - m.node(c).height) as nat;
    assert(k >= 1) by {
        if k == 0 {
            assert(anc(m, x, 0) == Option::Some(x));
        }
    }
    assert(m.node_ok(x));
    assert(anc(m, x, 0) == Option::Some(x));
    match m.node(x).parent {
        Option::Some(q) => {
            assert(anc(m, x, 1) == Option::Some(q));
            lemma_anc_compose(m, x, 1, (k - 1) as nat);
            assert(anc(m, q, (k - 1) as nat) == Option::Some(c));
        },
        Option::None => {
            // a parentless node has height 0, so k would be 0
            assert(m.node(x).height == 0);
            lemma_anc_height(m, x, k);
        },
    }
}

/// A child of a subtree member is a subtree member.
pub proof fn lemma_child_desc(m: DomV, a: NodeId, n: NodeId, c: NodeId)
    requires
        m.wf(),
        m.existing(n),
        is_descendant(m, a, n),
        m.node(n).children.contains(c),
    ensures
        m.existing(c),
        is_descendant(m, a, c),
{
    assert(m.node_ok(n));
    let t = choose|t: int| 0 <= t < m.node(n).children.len() && m.node(n).children[t] == c;
    assert(m.existing(c) && m.node(c).parent == Option::Some(n));
    let k = choose|k: nat| anc(m, n, k) == Option::Some(a);
    assert(anc(m, c, 0) == Option::Some(c));
    assert(anc(m, c, 1) == Option::Some(n));
    lemma_anc_compose(m, c, 1, k);
    assert(anc(m, c, (1 + k) as nat) == Option::Some(a));
}

/// A node is a member of its own subtree.
pub proof fn lemma_self_desc(m: DomV, a: NodeId)
    requires
        m.existing(a),
    ensures
        is_descendant(m, a, a),
{
    assert(anc(m, a, 0) == Option::Some(a));
}

/// The height a subtree member takes when the subtree of `child` comes to
/// sit under `parent`.
pub open spec fn attach_node_height(m: DomV, parent: NodeId, child: NodeId, x: NodeId, n: NodeV) -> usize {
    if is_descendant(m, child, x) {
        (m.node(parent).height + 1 + (n.height - m.node(child).height)) as usize
    } else {
        n.height
    }
}

/// The dom after detaching `child` from wherever it stood and inserting
/// it at position `pos` among `parent`'s children, with the heights of
/// the moved subtree refreshed.
pub open spec fn attach_spec(m: DomV, parent: NodeId, child: NodeId, pos: int) -> DomV {
    DomV {
        nodes: Seq::new(
            m.nodes.len(),
            |x: int| match m.nodes[x] {
                Option::None => Option::None,
                Option::Some(n) => Option::Some(
                    NodeV {
                        parent: if x == child as int {
                            Option::Some(parent)
                        } else {
                            n.parent
                        },
                        children: if x == parent as int {
                            crate::listeners::remove_first(n.children, child).insert(pos, child)
                        } else {
                            crate::listeners::remove_first(n.children, child)
                        },
                        height: attach_node_height(m, parent, child, x as usize, n),
                        ..n
                    },
                ),
            },
        ),
        ..m
    }
}

/// Only the old parent of `child` lists it among its children.
pub proof fn lemma_unique_child_entry(m: DomV, child: NodeId, y: NodeId)
    requires
        m.wf(),
        m.existing(child),
        m.existing(y),
        m.node(child).parent != Option::Some(y),
    ensures
        !m.node(y).children.contains(child),
{
    if m.node(y).children.contains(child) {
        assert(m.node_ok(y));
        let t = choose|t: int| 0 <= t < m.node(y).children.len() && m.node(y).children[t] == child;
        assert(m.node(child).parent == Option::Some(y));
    }
}

/// Attaching a detached-or-moved subtree keeps the dom well formed.
#[verifier::rlimit(80)]
pub proof fn lemma_attach_wf(m: DomV, parent: NodeId, child: NodeId, pos: int)
    requires
        m.wf(),
        m.existing(parent),
        m.existing(child),
        child != ROOT_ID,
        !is_descendant(m, child, parent),
        0 <= pos <= crate::listeners::remove_first(m.node(parent).children, child).len(),
        m.nodes.len() <= usize::MAX,
    ensures
        attach_spec(m, parent, child, pos).wf(),
        attach_spec(m, parent, child, pos).node(child).height == m.node(parent).height + 1,
{
    let m2 = attach_spec(m, parent, child, pos);
    let hp = m.node(parent).height;
    let hc = m.node(child).height;
    assert forall|x: NodeId| m.existing(x) implies m2.existing(x) && m.existing(x) by {}
    assert(m2.existing(child) && m2.existing(parent));
    lemma_self_desc(m, child);
    lemma_height_bound(m, parent);
    assert(m2.node(child).height == hp + 1) by {
        assert(is_descendant(m, child, child));
    }
    // Heights of moved nodes stay within the slab bound.
    assert forall|x: NodeId|
        m.existing(x) && is_descendant(m, child, x) implies m.node(parent).height + 1 + (m.node(
        x,
    ).height - m.node(child).height) < m.nodes.len() by {
        lemma_disjoint_chains(m, parent, child, x);
    }
    // The root is outside the moved subtree.
    assert(!is_descendant(m, child, ROOT_ID)) by {
        if is_descendant(m, child, ROOT_ID) {
            lemma_descendant_depth(m, child, ROOT_ID);
            assert(m.node(ROOT_ID).height >= m.node(child).height);
            let k = (m.node(ROOT_ID).height - m.node(child).height) as nat;
            lemma_anc_height(m, ROOT_ID, k);
            assert(m.node_ok(ROOT_ID));
            assert(m.node(ROOT_ID).height == 0);
            if k > 0 {
                assert(anc(m, ROOT_ID, k) is None) by {
                    lemma_anc_none_past_height(m, ROOT_ID, k);
                }
            }
            assert(child == ROOT_ID);
        }
    }
    assert(m2.node(ROOT_ID).parent is None);
    assert forall|x: NodeId| m2.existing(x) implies #[trigger] m2.node_ok(x) by {
        assert(m.node_ok(x));
        let n = m.node(x);
        let n2 = m2.node(x);
        assert(n2.states == n.states && n2.dirty == n.dirty && n2.ty == n.ty);
        assert(m.node(x).children.no_duplicates());
        lemma_remove_first_props(m.node(x).children, child);
        // children lists
        if x == parent {
            let base = crate::listeners::remove_first(n.children, child);
            assert(n2.children == base.insert(pos, child));
            assert(n2.children.no_duplicates()) by {
                assert forall|a: int, b: int|
                    0 <= a < b < n2.children.len() implies n2.children[a] != n2.children[b] by {
                    let ea = if a < pos {
                        base[a]
                    } else if a == pos {
                        child
                    } else {
                        base[a - 1]
                    };
                    let eb = if b < pos {
                        base[b]
                    } else if b == pos {
                        child
                    } else {
                        base[b - 1]
                    };
                    assert(n2.children[a] == ea && n2.children[b] == eb);
                    if a != pos && b != pos {
                    } else if a == pos {
                        assert(eb == base[b - 1]);
                        assert(base.contains(base[b - 1])) by {}
                        assert(!base.contains(child));
                    } else {
                        assert(ea == base[a]);
                        assert(base.contains(base[a])) by {}
                        assert(!base.contains(child));
                    }
                }
            }
            assert forall|k: int|
                0 <= k < n2.children.len() implies m2.existing(#[trigger] n2.children[k])
                && m2.node(n2.children[k]).parent == Option::Some(x) by {
                let c = n2.children[k];
                if k == pos {
                    assert(c == child);
                } else {
                    let c0 = if k < pos {
                        base[k]
                    } else {
                        base[k - 1]
                    };
                    assert(c == c0);
                    assert(base.contains(c0)) by {}
                    assert(n.children.contains(c0) && c0 != child);
                    assert(m.existing(c0) && m.node(c0).parent == Option::Some(x));
                    // `c0` is not in the moved subtree, so its parent is kept
                    assert(!is_descendant(m, child, c0)) by {
                        if is_descendant(m, child, c0) {
                            lemma_parent_desc(m, child, c0);
                            assert(is_descendant(m, child, x));
                            assert(x == parent);
                        }
                    }
                }
            }
        } else {
            assert(n2.children == crate::listeners::remove_first(n.children, child));
            if m.node(child).parent == Option::Some(x) {
                assert(n2.children.no_duplicates());
            } else {
                lemma_unique_child_entry(m, child, x);
                assert(!n.children.contains(child));
                assert(n2.children == n.children);
            }
            assert forall|k: int|
                0 <= k < n2.children.len() implies m2.existing(#[trigger] n2.children[k])
                && m2.node(n2.children[k]).parent == Option::Some(x) by {
                let c = n2.children[k];
                assert(n2.children.contains(c)) by {}
                assert(n.children.contains(c) && c != child);
                assert(m.existing(c) && m.node(c).parent == Option::Some(x));
            }
        }
        // parent and height coherence
        if x == child {
            assert(n2.parent == Option::Some(parent));
            assert(m2.node(parent).height == hp) by {
                assert(!is_descendant(m, child, parent));
            }
            assert(n2.height == hp + 1);
            assert(m2.node(parent).children.contains(child)) by {
                let base = crate::listeners::remove_first(m.node(parent).children, child);
                assert(m2.node(parent).children == base.insert(pos, child));
                assert(base.insert(pos, child)[pos] == child);
            }
        } else if is_descendant(m, child, x) {
            lemma_parent_desc(m, child, x);
            let q = n.parent->Some_0;
            assert(n2.parent == Option::Some(q));
            assert(is_descendant(m, child, q));
            lemma_descendant_depth(m, child, q);
            lemma_descendant_depth(m, child, x);
            assert(m2.node(q).height == hp + 1 + (m.node(q).height - hc));
            assert(n.height == m.node(q).height + 1);
            assert(n2.height == hp + 1 + (n.height - hc));
            assert(m2.node(q).children.contains(x)) by {
                assert(m.node_ok(q));
                lemma_remove_first_props(m.node(q).children, child);
                assert(m.node(q).children.contains(x));
                assert(x != child);
                if q == parent {
                    let base = crate::listeners::remove_first(m.node(q).children, child);
                    assert(base.contains(x));
                    let t = choose|t: int| 0 <= t < base.len() && base[t] == x;
                    let t2 = if t < pos {
                        t
                    } else {
                        t + 1
                    };
                    assert(base.insert(pos, child)[t2] == x);
                }
            }
        } else {
            // untouched node: parent and height are kept
            assert(n2.parent == n.parent);
            assert(n2.height == n.height);
            match n.parent {
                Option::Some(q) => {
                    assert(!is_descendant(m, child, q)) by {
                        if is_descendant(m, child, q) {
                            lemma_child_desc(m, child, q, x);
                        }
                    }
                    assert(m2.node(q).height == m.node(q).height);
                    assert(m2.node(q).children.contains(x)) by {
                        assert(m.node_ok(q));
                        lemma_remove_first_props(m.node(q).children, child);
                        assert(m.node(q).children.contains(x));
                        assert(x != child);
                        if q == parent {
                            let base = crate::listeners::remove_first(m.node(q).children, child);
                            assert(base.contains(x));
                            let t = choose|t: int| 0 <= t < base.len() && base[t] == x;
                            let t2 = if t < pos {
                                t
                            } else {
                                t + 1
                            };
                            assert(base.insert(pos, child)[t2] == x);
                        }
                    }
                },
                Option::None => {
                    assert(n2.height == 0);
                },
            }
        }
    }
    assert(m2.listeners_ok()) by {
        assert forall|i: int, k: int|
            0 <= i < m2.listeners.len() && 0 <= k < m2.listeners[i].1.len() implies m2.existing(
            #[trigger] m2.listeners[i].1[k]) by {
            assert(m.existing(m.listeners[i].1[k]));
        }
    }
}

/// Two models with the same slots and parent pointers.
pub open spec fn same_links(m1: DomV, m2: DomV) -> bool {
    &&& m1.nodes.len() == m2.nodes.len()
    &&& (forall|x: NodeId| m1.existing(x) == m2.existing(x))
    &&& (forall|x: NodeId| m1.existing(x) ==> m1.node(x).parent == m2.node(x).parent)
}

/// Ancestors depend only on slots and parent pointers.
pub proof fn lemma_anc_same_links(m1: DomV, m2: DomV, n: NodeId, k: nat)
    requires
        same_links(m1, m2),
    ensures
        anc(m1, n, k) == anc(m2, n, k),
    decreases k,
{
    assert(m1.existing(n) == m2.existing(n));
    if k > 0 {
        lemma_anc_same_links(m1, m2, n, (k - 1) as nat);
        match anc(m1, n, (k - 1) as nat) {
            Option::Some(a) => {
                assert(m1.existing(a)) by {
                    lemma_anc_existing(m1, n, (k - 1) as nat);
                }
                assert(m1.node(a).parent == m2.node(a).parent);
                match m1.node(a).parent {
                    Option::Some(p) => {
                        assert(m1.existing(p) == m2.existing(p));
                    },
                    Option::None => {},
                }
            },
            Option::None => {},
        }
    }
}

/// Subtree membership depends only on slots and parent pointers.
pub proof fn lemma_desc_same_links(m1: DomV, m2: DomV, a: NodeId, d: NodeId)
    requires
        same_links(m1, m2),
    ensures
        is_descendant(m1, a, d) == is_descendant(m2, a, d),
{
    if is_descendant(m1, a, d) {
        let k = choose|k: nat| anc(m1, d, k) == Option::Some(a);
        lemma_anc_same_links(m1, m2, d, k);
        assert(anc(m2, d, k) == Option::Some(a));
    }
    if is_descendant(m2, a, d) {
        let k = choose|k: nat| anc(m2, d, k) == Option::Some(a);
        lemma_anc_same_links(m1, m2, d, k);
        assert(anc(m1, d, k) == Option::Some(a));
    }
}

/// The dom after only the link surgery of an attachment: as
/// `attach_spec`, but with every height still the old one.
pub open spec fn attach_links_spec(m: DomV, parent: NodeId, child: NodeId, pos: int) -> DomV {
    DomV {
        nodes: Seq::new(
            m.nodes.len(),
            |x: int| match m.nodes[x] {
                Option::None => Option::None,
                Option::Some(n) => Option::Some(
                    NodeV {
                        parent: if x == child as int {
                            Option::Some(parent)
                        } else {
                            n.parent
                        },
                        children: if x == parent as int {
                            crate::listeners::remove_first(n.children, child).insert(pos, child)
                        } else {
                            crate::listeners::remove_first(n.children, child)
                        },
                        ..n
                    },
                ),
            },
        ),
        ..m
    }
}

/// The partially re-heighted dom: nodes listed in `done` already carry
/// their final height, the rest still the old one.
pub open spec fn attach_partial(m: DomV, parent: NodeId, child: NodeId, pos: int, done: Seq<NodeId>) -> DomV {
    DomV {
        nodes: Seq::new(
            m.nodes.len(),
            |x: int| if done.contains(x as usize) {
                attach_spec(m, parent, child, pos).nodes[x]
            } else {
                attach_links_spec(m, parent, child, pos).nodes[x]
            },
        ),
        ..m
    }
}

impl RealDom {
    /// Detach `child` from wherever it stands and insert it at position
    /// `pos` among `parent`'s children, refreshing the heights of the
    /// moved subtree.
    fn attach_at(&mut self, parent: NodeId, child: NodeId, pos: usize)
        requires
            old(self)@.wf(),
            old(self)@.existing(parent),
            old(self)@.existing(child),
            child != ROOT_ID,
            !is_descendant(old(self)@, child, parent),
            pos <= crate::listeners::remove_first(old(self)@.node(parent).children, child).len(),
        ensures
            final(self)@ == attach_spec(old(self)@, parent, child, pos as int),
            final(self)@.wf(),
    {
        let ghost m1 = self@;
        let ghost target = attach_spec(m1, parent, child, pos as int);
        let ghost linked = attach_links_spec(m1, parent, child, pos as int);
        let total = self.nodes.len();
        proof {
            assert(m1.nodes.len() == self.nodes@.len());
            assert(m1.nodes.len() <= usize::MAX);
            lemma_attach_wf(m1, parent, child, pos as int);
            assert(parent != child) by {
                lemma_self_desc(m1, child);
            }
            assert(m1.node_ok(child));
            assert(m1.node_ok(parent));
            assert(m1.node(child).parent != Option::Some(child)) by {
                if m1.node(child).parent == Option::Some(child) {
                    assert(m1.node(child).height == m1.node(child).height + 1);
                }
            }
        }
        let r = self.collect_subtree(child);
        // Link surgery: repoint the child, filter the old parent's list,
        // and insert into the new parent's list.
        let mut cnd = self.nodes[child].take().unwrap();
        let op = cnd.parent;
        cnd.parent = Option::Some(parent);
        self.nodes[child] = Some(cnd);
        proof {
            assert(m1.node(child).parent == op);
            match op {
                Option::Some(opid) => {
                    assert(m1.existing(opid));
                    assert(opid != child);
                    assert(m1.node_ok(opid));
                    assert(m1.node(opid).children.contains(child));
                },
                Option::None => {},
            }
        }
        match op {
            Option::Some(opid) => {
                let mut pnd = self.nodes[opid].take().unwrap();
                proof {
                    assert(pnd@ == m1.node(opid));
                }
                match crate::listeners::find_node_id(&pnd.children, child) {
                    Option::Some(i) => {
                        let _ = pnd.children.remove(i);
                        proof {
                            assert(pnd.children@ =~= crate::listeners::remove_first(
                                m1.node(opid).children,
                                child,
                            ));
                        }
                    },
                    Option::None => {
                        proof {
                            crate::dom::lemma_first_index(m1.node(opid).children, child);
                            let fi = crate::dom::first_index(m1.node(opid).children, child);
                            if fi == -1 {
                                assert(!m1.node(opid).children.contains(child));
                            }
                            assert(false);
                        }
                    },
                }
                if opid == parent {
                    proof {
                        assert(pos <= pnd.children@.len());
                    }
                    pnd.children.insert(pos, child);
                }
                self.nodes[opid] = Some(pnd);
                if opid != parent {
                    let mut pnd2 = self.nodes[parent].take().unwrap();
                    proof {
                        assert(pnd2@ == m1.node(parent));
                        lemma_unique_child_entry(m1, child, parent);
                        lemma_remove_first_props(m1.node(parent).children, child);
                        assert(pnd2.children@ == crate::listeners::remove_first(
                            m1.node(parent).children,
                            child,
                        ));
                        assert(pos <= pnd2.children@.len());
                    }
                    pnd2.children.insert(pos, child);
                    self.nodes[parent] = Some(pnd2);
                }
            },
            Option::None => {
                let mut pnd2 = self.nodes[parent].take().unwrap();
                proof {
                    assert(pnd2@ == m1.node(parent));
                    lemma_unique_child_entry(m1, child, parent);
                    lemma_remove_first_props(m1.node(parent).children, child);
                    assert(pnd2.children@ == crate::listeners::remove_first(
                        m1.node(parent).children,
                        child,
                    ));
                    assert(pos <= pnd2.children@.len());
                }
                pnd2.children.insert(pos, child);
                self.nodes[parent] = Some(pnd2);
            },
        }
        proof {
            assert(self@.nodes.len() == m1.nodes.len());
            assert forall|x: int| 0 <= x < m1.nodes.len() implies self@.nodes[x] == linked.nodes[x] by {
                if m1.nodes[x] is Some {
                    let y = x as usize;
                    assert(m1.existing(y));
                    assert(m1.node_ok(y));
                    lemma_remove_first_props(m1.node(y).children, child);
                    if x != child as int && op != Option::Some(y) {
                        lemma_unique_child_entry(m1, child, y);
                        assert(!m1.node(y).children.contains(child));
                    }
                    assert(self@.nodes[x]->Some_0 =~= linked.nodes[x]->Some_0);
                } else {
                    assert(self@.nodes[x] is None && linked.nodes[x] is None);
                }
            }
            assert(r@.take(0) =~= Seq::<NodeId>::empty());
            assert forall|x: int| 0 <= x < m1.nodes.len() implies self@.nodes[x] == attach_partial(
                m1,
                parent,
                child,
                pos as int,
                r@.take(0),
            ).nodes[x] by {
                assert(!r@.take(0).contains(x as usize));
            }
            assert(self@ =~= attach_partial(m1, parent, child, pos as int, r@.take(0)));
        }
        // Refresh the heights of the moved subtree, parents first.
        let hp = match &self.nodes[parent] {
            Option::Some(nd) => nd.height,
            Option::None => 0,
        };
        proof {
            assert(!r@.take(0).contains(parent));
            assert(self@.nodes[parent as int] == linked.nodes[parent as int]);
            assert(hp == m1.node(parent).height);
        }
        let mut k: usize = 0;
        while k < r.len()
            invariant
                self@ == attach_partial(m1, parent, child, pos as int, r@.take(k as int)),
                linked == attach_links_spec(m1, parent, child, pos as int),
                target == attach_spec(m1, parent, child, pos as int),
                self.nodes@.len() == m1.nodes.len(),
                m1.wf(),
                m1.existing(parent),
                m1.existing(child),
                child != ROOT_ID,
                parent != child,
                !is_descendant(m1, child, parent),
                pos <= crate::listeners::remove_first(m1.node(parent).children, child).len(),
                m1.nodes.len() <= usize::MAX,
                hp == m1.node(parent).height,
                k <= r@.len(),
                r@.len() >= 1 && r@[0] == child,
                r@.no_duplicates(),
                forall|x: NodeId| r@.contains(x) == is_descendant(m1, child, x),
                forall|j: int| 1 <= j < r@.len() ==> parent_in_prefix(m1, r@, j),
            decreases r@.len() - k,
        {
            let ghost partial = attach_partial(m1, parent, child, pos as int, r@.take(k as int));
            let n = r[k];
            proof {
                assert(r@.contains(n)) by {
                    assert(r@[k as int] == n);
                }
                assert(is_descendant(m1, child, n));
                assert(m1.existing(n));
                assert(n < m1.nodes.len());
                lemma_descendant_depth(m1, child, n);
                lemma_disjoint_chains(m1, parent, child, n);
                assert(!r@.take(k as int).contains(n)) by {
                    if r@.take(k as int).contains(n) {
                        let j = choose|j: int|
                            0 <= j < r@.take(k as int).len() && r@.take(k as int)[j] == n;
                        assert(r@[j] == r@[k as int]);
                    }
                }
                assert(((n as int) as usize) == n);
                assert(partial.nodes[n as int] == (if r@.take(k as int).contains(n) {
                    attach_spec(m1, parent, child, pos as int).nodes[n as int]
                } else {
                    attach_links_spec(m1, parent, child, pos as int).nodes[n as int]
                }));
                assert(self@.nodes[n as int] == partial.nodes[n as int]);
                assert(partial.nodes[n as int] == linked.nodes[n as int]);
                assert(self@.nodes[n as int] == linked.nodes[n as int]);
            }
            let new_height: usize;
            if k == 0 {
                new_height = hp + 1;
                proof {
                    assert(n == child);
                    assert(attach_node_height(m1, parent, child, n, m1.node(n)) == hp + 1);
                }
            } else {
                proof {
                    assert(parent_in_prefix(m1, r@, k as int));
                    assert(n != child) by {
                        if n == child {
                            assert(r@[0] == r@[k as int]);
                        }
                    }
                }
                let q = match &self.nodes[n] {
                    Option::Some(nd) => match nd.parent {
                        Option::Some(q) => q,
                        Option::None => 0,
                    },
                    Option::None => 0,
                };
                proof {
                    // the stored parent of `n` is still the old one
                    assert(linked.nodes[n as int]->Some_0.parent == m1.node(n).parent);
                    assert(Option::Some(q) == m1.node(n).parent);
                    // that parent was refreshed earlier in the walk
                    let j = choose|j: int|
                        0 <= j < k && Option::Some(r@[j]) == m1.node(r@[k as int]).parent;
                    assert(r@[j] == q);
                    assert(r@.take(k as int).contains(q)) by {
                        assert(r@.take(k as int)[j] == q);
                    }
                    assert(r@.contains(q)) by {
                        assert(r@[j] == q);
                    }
                    assert(is_descendant(m1, child, q));
                    assert(m1.existing(q)) by {
                        let kk = choose|kk: nat| anc(m1, q, kk) == Option::Some(child);
                        lemma_anc_existing(m1, q, kk);
                    }
                    assert(q < m1.nodes.len());
                    lemma_descendant_depth(m1, child, q);
                    lemma_disjoint_chains(m1, parent, child, q);
                    assert(m1.node_ok(n));
                    assert(m1.node(n).height == m1.node(q).height + 1);
                    assert(((q as int) as usize) == q);
                    assert(partial.nodes[q as int] == (if r@.take(k as int).contains(q) {
                        attach_spec(m1, parent, child, pos as int).nodes[q as int]
                    } else {
                        attach_links_spec(m1, parent, child, pos as int).nodes[q as int]
                    }));
                    assert(self@.nodes[q as int] == partial.nodes[q as int]);
                    assert(partial.nodes[q as int] == target.nodes[q as int]);
                    assert(self@.nodes[q as int] == target.nodes[q as int]);
                    assert(target.nodes[q as int]->Some_0.height == attach_node_height(
                        m1,
                        parent,
                        child,
                        q,
                        m1.node(q),
                    ));
                }
                let hq = match &self.nodes[q] {
                    Option::Some(nd) => nd.height,
                    Option::None => 0,
                };
                proof {
                    assert(hq == hp + 1 + (m1.node(q).height - m1.node(child).height));
                    assert(hp + 1 + (m1.node(n).height - m1.node(child).height) < m1.nodes.len());
                }
                new_height = hq + 1;
                proof {
                    assert(attach_node_height(m1, parent, child, n, m1.node(n)) == new_height);
                }
            }
            let mut nd = self.nodes[n].take().unwrap();
            nd.height = new_height;
            self.nodes[n] = Some(nd);
            proof {
                assert(m1.nodes[n as int] is Some);
                assert(linked.nodes[n as int] is Some);
                assert(nd@ =~= NodeV { height: new_height, ..linked.nodes[n as int]->Some_0 });
                assert(nd@ =~= target.nodes[n as int]->Some_0) by {
                    assert(target.nodes[n as int]->Some_0 =~= NodeV {
                        height: attach_node_height(m1, parent, child, n, m1.node(n)),
                        ..linked.nodes[n as int]->Some_0
                    });
                    assert(target.nodes[n as int]->Some_0.height == attach_node_height(
                        m1,
                        parent,
                        child,
                        n,
                        m1.node(n),
                    ));
                }
                assert(r@.take(k + 1) =~= r@.take(k as int).push(n));
                assert forall|x: int| 0 <= x < m1.nodes.len() implies self@.nodes[x]
                    == attach_partial(m1, parent, child, pos as int, r@.take(k + 1)).nodes[x] by {
                    if x == n as int {
                        assert(r@.take(k + 1).contains(n)) by {
                            assert(r@.take(k + 1)[k as int] == n);
                        }
                        assert(self@.nodes[x] == Some(nd@));
                    } else {
                        assert(self@.nodes[x] == partial.nodes[x]);
                        assert(r@.take(k + 1).contains(x as usize) == r@.take(k as int).contains(
                            x as usize,
                        )) by {
                            if r@.take(k + 1).contains(x as usize) {
                                let j = choose|j: int|
                                    0 <= j < r@.take(k + 1).len() && #[trigger] r@.take(
                                        k + 1,
                                    )[j] == x as usize;
                                assert(j < k);
                                assert(r@.take(k as int)[j] == x as usize);
                            }
                            if r@.take(k as int).contains(x as usize) {
                                let j = choose|j: int|
                                    0 <= j < r@.take(k as int).len() && #[trigger] r@.take(
                                        k as int,
                                    )[j] == x as usize;
                                assert(r@.take(k + 1)[j] == x as usize);
                            }
                        }
                    }
                }
                assert(self@ =~= attach_partial(m1, parent, child, pos as int, r@.take(k + 1)));
            }
            k += 1;
        }
        proof {
            assert(r@.take(r@.len() as int) =~= r@);
            assert forall|x: int| 0 <= x < m1.nodes.len() implies self@.nodes[x]
                == target.nodes[x] by {
                if r@.contains(x as usize) {
                    assert(self@.nodes[x] == attach_partial(
                        m1,
                        parent,
                        child,
                        pos as int,
                        r@.take(r@.len() as int),
                    ).nodes[x]);
                } else {
                    if m1.nodes[x] is Some {
                        assert(!is_descendant(m1, child, x as usize));
                        assert(attach_node_height(m1, parent, child, x as usize, m1.nodes[x]->Some_0)
                            == m1.nodes[x]->Some_0.height);
                        assert(linked.nodes[x]->Some_0 =~= target.nodes[x]->Some_0);
                    } else {
                        assert(linked.nodes[x] is None && target.nodes[x] is None);
                    }
                }
            }
            assert(self@ =~= target);
        }
    }
}

/// The survivors of a listener list when the subtree of `id` goes away.
pub open spec fn purge_ids(m: DomV, id: NodeId, ids: Seq<NodeId>) -> Seq<NodeId>
    decreases ids.len(),
{
    if ids.len() == 0 {
        Seq::empty()
    } else {
        let rest = purge_ids(m, id, ids.drop_last());
        if is_descendant(m, id, ids.last()) {
            rest
        } else {
            rest.push(ids.last())
        }
    }
}

pub proof fn lemma_purge_ids_props(m: DomV, id: NodeId, ids: Seq<NodeId>)
    ensures
        forall|y: NodeId|
            #[trigger] purge_ids(m, id, ids).contains(y) == (ids.contains(y) && !is_descendant(
                m,
                id,
                y,
            )),
        ids.no_duplicates() ==> purge_ids(m, id, ids).no_duplicates(),
    decreases ids.len(),
{
    if ids.len() > 0 {
        lemma_purge_ids_props(m, id, ids.drop_last());
        let rest = purge_ids(m, id, ids.drop_last());
        assert forall|y: NodeId|
            #[trigger] purge_ids(m, id, ids).contains(y) == (ids.contains(y) && !is_descendant(
                m,
                id,
                y,
            )) by {
            if purge_ids(m, id, ids).contains(y) {
                if rest.contains(y) {
                    assert(ids.drop_last().contains(y));
                    let j = choose|j: int|
                        0 <= j < ids.drop_last().len() && ids.drop_last()[j] == y;
                    assert(ids[j] == y);
                } else {
                    assert(y == ids.last());
                    assert(ids[ids.len() - 1] == y);
                }
            }
            if ids.contains(y) && !is_descendant(m, id, y) {
                let j = choose|j: int| 0 <= j < ids.len() && ids[j] == y;
                if j < ids.len() - 1 {
                    assert(ids.drop_last()[j] == y);
                    assert(ids.drop_last().contains(y));
                    assert(rest.contains(y));
                    if !is_descendant(m, id, ids.last()) {
                        let t = choose|t: int| 0 <= t < rest.len() && rest[t] == y;
                        assert(purge_ids(m, id, ids)[t] == y);
                    }
                } else {
                    assert(ids.last() == y);
                    assert(purge_ids(m, id, ids)[purge_ids(m, id, ids).len() - 1] == y);
                }
            }
        }
        if ids.no_duplicates() {
            assert(ids.drop_last().no_duplicates()) by {
                assert forall|a: int, b: int|
                    0 <= a < b < ids.drop_last().len() implies ids.drop_last()[a]
                    != ids.drop_last()[b] by {
                    assert(ids[a] == ids.drop_last()[a]);
                }
            }
            if !is_descendant(m, id, ids.last()) {
                assert(!rest.contains(ids.last())) by {
                    if rest.contains(ids.last()) {
                        assert(ids.drop_last().contains(ids.last()));
                        let j = choose|j: int|
                            0 <= j < ids.drop_last().len() && ids.drop_last()[j] == ids.last();
                        assert(ids[j] == ids[ids.len() - 1]);
                    }
                }
                assert forall|a: int, b: int|
                    0 <= a < b < purge_ids(m, id, ids).len() implies purge_ids(m, id, ids)[a]
                    != purge_ids(m, id, ids)[b] by {
                    if b == purge_ids(m, id, ids).len() - 1 {
                        assert(rest.contains(rest[a])) by {}
                    }
                }
            }
        }
    }
}

/// The purged listener index.
pub open spec fn purge_listeners_spec(m: DomV, id: NodeId) -> Seq<(Seq<char>, Seq<NodeId>)> {
    m.listeners.map_values(|p: (Seq<char>, Seq<NodeId>)| (p.0, purge_ids(m, id, p.1)))
}

/// The change masks that the listed nodes carry, staged in listing
/// order for the next drain.
pub open spec fn staged_masks(m: DomV, src: Seq<NodeId>) -> Seq<(NodeId, crate::mask::MaskV)>
    decreases src.len(),
{
    if src.len() == 0 {
        Seq::empty()
    } else {
        let rest = staged_masks(m, src.drop_last());
        match m.node(src.last()).dirty_mask {
            Option::Some(mk) => rest.push((src.last(), mk)),
            Option::None => rest,
        }
    }
}

/// Every staged entry names a listed node, and distinct listings stage
/// distinct entries.
pub proof fn lemma_staged_masks_props(m: DomV, src: Seq<NodeId>)
    ensures
        forall|i: int|
            0 <= i < staged_masks(m, src).len() ==> src.contains(
                (#[trigger] staged_masks(m, src)[i]).0,
            ),
        src.no_duplicates() ==> (forall|i: int, j: int|
            0 <= i < j < staged_masks(m, src).len() ==> (#[trigger] staged_masks(m, src)[i]).0 != (
            #[trigger] staged_masks(m, src)[j]).0),
    decreases src.len(),
{
    if src.len() > 0 {
        lemma_staged_masks_props(m, src.drop_last());
        let rest = staged_masks(m, src.drop_last());
        assert forall|i: int|
            0 <= i < staged_masks(m, src).len() implies src.contains(
            (#[trigger] staged_masks(m, src)[i]).0) by {
            if i < rest.len() {
                assert(staged_masks(m, src)[i] == rest[i]);
                assert(src.drop_last().contains(rest[i].0));
                let k = choose|k: int|
                    0 <= k < src.drop_last().len() && src.drop_last()[k] == rest[i].0;
                assert(src[k] == rest[i].0);
            } else {
                assert(staged_masks(m, src)[i].0 == src.last());
                assert(src[src.len() - 1] == src.last());
            }
        }
        if src.no_duplicates() {
            assert(src.drop_last().no_duplicates()) by {
                assert forall|a: int, b: int|
                    0 <= a < b < src.drop_last().len() implies src.drop_last()[a]
                    != src.drop_last()[b] by {
                    assert(src[a] == src.drop_last()[a]);
                }
            }
            assert forall|i: int, j: int|
                0 <= i < j < staged_masks(m, src).len() implies (#[trigger] staged_masks(
                m,
                src,
            )[i]).0 != (#[trigger] staged_masks(m, src)[j]).0 by {
                if j == staged_masks(m, src).len() - 1 && staged_masks(m, src).len() > rest.len() {
                    assert(staged_masks(m, src)[j].0 == src.last());
                    assert(staged_masks(m, src)[i] == rest[i]);
                    assert(src.drop_last().contains(rest[i].0));
                    let k = choose|k: int|
                        0 <= k < src.drop_last().len() && src.drop_last()[k] == rest[i].0;
                    assert(src[k] == rest[i].0);
                    if rest[i].0 == src.last() {
                        assert(src[k] == src[src.len() - 1]);
                    }
                } else {
                    assert(staged_masks(m, src)[i] == rest[i]);
                    assert(staged_masks(m, src)[j] == rest[j]);
                }
            }
        }
    }
}

/// The dom after removing the subtree of `id`, with `done` naming the
/// slots already cleared and their masks already staged.
pub open spec fn remove_partial(m: DomV, id: NodeId, done: Seq<NodeId>) -> DomV {
    DomV {
        removed: m.removed + staged_masks(m, done),
        nodes: Seq::new(
            m.nodes.len(),
            |x: int| if done.contains(x as usize) {
                Option::None
            } else {
                match m.nodes[x] {
                    Option::None => Option::None,
                    Option::Some(n) => Option::Some(
                        NodeV { children: crate::listeners::remove_first(n.children, id), ..n },
                    ),
                }
            },
        ),
        listeners: purge_listeners_spec(m, id),
        ..m
    }
}

/// The dom after removing the subtree of `id`: its nodes are gone, it no
/// longer stands among its parent's children, and the listener index
/// names no removed node.
pub open spec fn remove_spec(m: DomV, id: NodeId) -> DomV {
    DomV {
        removed: m.removed + staged_masks(m, subtree_preorder(m, id)),
        nodes: Seq::new(
            m.nodes.len(),
            |x: int| if is_descendant(m, id, x as usize) {
                Option::None
            } else {
                match m.nodes[x] {
                    Option::None => Option::None,
                    Option::Some(n) => Option::Some(
                        NodeV { children: crate::listeners::remove_first(n.children, id), ..n },
                    ),
                }
            },
        ),
        listeners: purge_listeners_spec(m, id),
        ..m
    }
}

/// Removal keeps the dom well formed.
pub proof fn lemma_remove_wf(m: DomV, id: NodeId)
    requires
        m.wf(),
        m.existing(id),
        id != ROOT_ID,
        preorder_facts(m, id, subtree_preorder(m, id)),
    ensures
        remove_spec(m, id).wf(),
{
    let m2 = remove_spec(m, id);
    let src = subtree_preorder(m, id);
    assert(m2.removed_ok()) by {
        lemma_staged_masks_props(m, src);
        let staged = staged_masks(m, src);
        assert forall|i: int|
            0 <= i < m2.removed.len() implies (#[trigger] m2.removed[i]).0 < m2.nodes.len()
            && !m2.existing(m2.removed[i].0) by {
            if i < m.removed.len() {
                assert(m2.removed[i] == m.removed[i]);
                assert(!m.existing(m.removed[i].0));
            } else {
                assert(m2.removed[i] == staged[i - m.removed.len()]);
                let y = staged[i - m.removed.len()].0;
                assert(src.contains(y));
                assert(is_descendant(m, id, y));
                assert(m.existing(y)) by {
                    let kk = choose|kk: nat| anc(m, y, kk) == Option::Some(id);
                    lemma_anc_existing(m, y, kk);
                }
            }
        }
        assert forall|i: int, j: int|
            0 <= i < j < m2.removed.len() implies (#[trigger] m2.removed[i]).0 != (
        #[trigger] m2.removed[j]).0 by {
            if j < m.removed.len() {
                assert(m2.removed[i] == m.removed[i] && m2.removed[j] == m.removed[j]);
            } else if i >= m.removed.len() {
                assert(m2.removed[i] == staged[i - m.removed.len()]);
                assert(m2.removed[j] == staged[j - m.removed.len()]);
            } else {
                // an already staged id no longer exists; a newly staged one did
                assert(m2.removed[i] == m.removed[i]);
                assert(m2.removed[j] == staged[j - m.removed.len()]);
                let y = staged[j - m.removed.len()].0;
                assert(src.contains(y));
                assert(is_descendant(m, id, y));
                assert(m.existing(y)) by {
                    let kk = choose|kk: nat| anc(m, y, kk) == Option::Some(id);
                    lemma_anc_existing(m, y, kk);
                }
                assert(!m.existing(m.removed[i].0));
            }
        }
    }
    assert(!is_descendant(m, id, ROOT_ID)) by {
        if is_descendant(m, id, ROOT_ID) {
            lemma_descendant_depth(m, id, ROOT_ID);
            assert(m.node_ok(ROOT_ID));
            let k = (m.node(ROOT_ID).height - m.node(id).height) as nat;
            lemma_anc_height(m, ROOT_ID, k);
            assert(k == 0);
        }
    }
    assert(m2.existing(ROOT_ID));
    assert(m2.node(ROOT_ID).parent is None);
    assert forall|x: NodeId| m2.existing(x) implies #[trigger] m2.node_ok(x) by {
        assert(x < m.nodes.len());
        assert(!is_descendant(m, id, x) && m.existing(x));
        assert(m.node_ok(x));
        let n = m.node(x);
        lemma_remove_first_props(n.children, id);
        assert(x != id) by {
            lemma_self_desc(m, id);
        }
        match n.parent {
            Option::Some(p) => {
                assert(!is_descendant(m, id, p)) by {
                    if is_descendant(m, id, p) {
                        lemma_child_desc(m, id, p, x);
                    }
                }
                assert(m2.existing(p));
                assert(m2.node(p).height == m.node(p).height);
                assert(m2.node(p).children.contains(x)) by {
                    assert(m.node_ok(p));
                    lemma_remove_first_props(m.node(p).children, id);
                    assert(m.node(p).children.contains(x));
                }
            },
            Option::None => {},
        }
        assert forall|t: int|
            0 <= t < m2.node(x).children.len() implies m2.existing(
            #[trigger] m2.node(x).children[t]) && m2.node(m2.node(x).children[t]).parent
            == Option::Some(x) by {
            let c = m2.node(x).children[t];
            assert(m2.node(x).children.contains(c)) by {}
            assert(n.children.contains(c) && c != id);
            assert(m.existing(c) && m.node(c).parent == Option::Some(x));
            assert(!is_descendant(m, id, c)) by {
                if is_descendant(m, id, c) {
                    lemma_parent_desc(m, id, c);
                    assert(is_descendant(m, id, x));
                }
            }
        }
    }
    assert(m2.listeners_ok()) by {
        assert forall|i: int, j: int|
            0 <= i < j < m2.listeners.len() implies (#[trigger] m2.listeners[i]).0 != (
        #[trigger] m2.listeners[j]).0 by {
            assert(m.listeners[i].0 != m.listeners[j].0);
        }
        assert forall|i: int|
            0 <= i < m2.listeners.len() implies (#[trigger] m2.listeners[i]).1.no_duplicates() by {
            lemma_purge_ids_props(m, id, m.listeners[i].1);
        }
        assert forall|i: int, t: int|
            0 <= i < m2.listeners.len() && 0 <= t < m2.listeners[i].1.len() implies m2.existing(
            #[trigger] m2.listeners[i].1[t]) by {
            lemma_purge_ids_props(m, id, m.listeners[i].1);
            let y = m2.listeners[i].1[t];
            assert(purge_ids(m, id, m.listeners[i].1).contains(y)) by {}
            assert(m.listeners[i].1.contains(y) && !is_descendant(m, id, y));
            assert(m.existing(y));
        }
    }
}

impl RealDom {
    /// Remove the node and its whole subtree.  Every removed node leaves
    /// the slab and the listener index; its pending pass records go with
    /// it, but an accumulated change mask is staged so that the next
    /// update cycle still returns it.  The parent is marked as having
    /// lost a child.  The root cannot be removed.
    pub fn remove(&mut self, id: NodeId)
        requires
            old(self)@.wf(),
            old(self)@.existing(id),
            id != ROOT_ID,
        ensures
            final(self)@.wf(),
            final(self)@ == ({
                let m0 = old(self)@;
                let m1 = match m0.node(id).parent {
                    Option::Some(p) => m0.with_node(p, crate::dom::child_marked(m0, p)),
                    Option::None => m0,
                };
                remove_spec(m1, id)
            }),
    {
        let ghost m0 = self@;
        let p_opt = self.parent_id(id);
        match p_opt {
            Option::Some(p) => {
                proof {
                    assert(m0.node_ok(id));
                }
                self.mark_child_changed(p);
            },
            Option::None => {},
        }
        let ghost m1 = self@;
        proof {
            assert(same_links(m0, m1));
            lemma_desc_same_links(m0, m1, id, id);
            assert(m1.wf() && m1.existing(id));
            assert(m1.nodes.len() == self.nodes@.len());
        }
        let total = self.nodes.len();
        proof {
            assert(m1.nodes.len() == self.nodes@.len());
            assert(m1.nodes.len() <= usize::MAX);
        }
        let ghost target = remove_spec(m1, id);
        let r = self.collect_subtree(id);
        // Purge the listener index of every removed node.
        let mut e: usize = 0;
        while e < self.listeners.len()
            invariant
                self@.nodes == m1.nodes,
                self@.passes == m1.passes,
                self@.schedule == m1.schedule,
                self@.removed == m1.removed,
                m1.wf(),
                m1.existing(id),
                e <= self@.listeners.len(),
                self@.listeners.len() == m1.listeners.len(),
                forall|i: int|
                    0 <= i < e ==> #[trigger] self@.listeners[i] == (
                        m1.listeners[i].0,
                        purge_ids(m1, id, m1.listeners[i].1),
                    ),
                forall|i: int|
                    e <= i < m1.listeners.len() ==> #[trigger] self@.listeners[i]
                        == m1.listeners[i],
                forall|x: NodeId| r@.contains(x) == is_descendant(m1, id, x),
                m1.nodes.len() <= usize::MAX,
            decreases self@.listeners.len() - e,
        {
            let ghost pre = self.listeners@;
            let ghost pre_view = self@.listeners;
            proof {
                assert(pre_view[e as int] == m1.listeners[e as int]);
                assert(pre_view[e as int] == crate::dom::listener_entry_view(pre[e as int]));
            }
            let entry = self.listeners.remove(e);
            proof {
                assert(entry == pre[e as int]);
            }
            let (name, ids) = entry;
            let ghost old_ids = ids@;
            proof {
                assert(name@ == m1.listeners[e as int].0);
                assert(old_ids == m1.listeners[e as int].1);
            }
            let mut kept: Vec<NodeId> = Vec::new();
            let mut j: usize = 0;
            while j < ids.len()
                invariant
                    j <= ids@.len(),
                    ids@ == old_ids,
                    kept@ == purge_ids(m1, id, old_ids.take(j as int)),
                    forall|x: NodeId| r@.contains(x) == is_descendant(m1, id, x),
                decreases ids@.len() - j,
            {
                let y = ids[j];
                let keep = match crate::listeners::find_node_id(&r, y) {
                    Option::Some(_) => false,
                    Option::None => true,
                };
                proof {
                    crate::dom::lemma_first_index(r@, y);
                    let fi = crate::dom::first_index(r@, y);
                    if fi != -1 {
                        assert(r@[fi] == y);
                        assert(r@.contains(y));
                    } else {
                        if r@.contains(y) {
                            let t = choose|t: int| 0 <= t < r@.len() && r@[t] == y;
                            assert(r@[t] != y);
                        }
                    }
                    assert(keep == !is_descendant(m1, id, y));
                }
                if keep {
                    kept.push(y);
                }
                proof {
                    assert(old_ids.take(j + 1).drop_last() =~= old_ids.take(j as int));
                    assert(old_ids.take(j + 1).last() == old_ids[j as int]);
                }
                j += 1;
            }
            proof {
                assert(old_ids.take(old_ids.len() as int) =~= old_ids);
                assert(kept@ == purge_ids(m1, id, old_ids));
            }
            self.listeners.insert(e, (name, kept));
            proof {
                let le = self@.listeners;
                assert(self.listeners@ == pre.remove(e as int).insert(e as int, (name, kept)));
                assert(le.len() == m1.listeners.len());
                assert(le[e as int] == crate::dom::listener_entry_view((name, kept)));
                assert(le[e as int] == (m1.listeners[e as int].0, purge_ids(
                    m1,
                    id,
                    m1.listeners[e as int].1,
                )));
                assert forall|i: int| 0 <= i < e + 1 implies #[trigger] le[i] == (
                    m1.listeners[i].0,
                    purge_ids(m1, id, m1.listeners[i].1),
                ) by {
                    if i < e {
                        assert(self.listeners@[i] == pre[i]);
                        assert(le[i] == pre_view[i]);
                    }
                }
                assert forall|i: int| e + 1 <= i < m1.listeners.len() implies #[trigger] le[i]
                    == m1.listeners[i] by {
                    assert(self.listeners@[i] == pre[i]);
                    assert(le[i] == pre_view[i]);
                }
            }
            e += 1;
        }
        proof {
            assert(self@.listeners =~= purge_listeners_spec(m1, id));
        }
        // Detach `id` from its parent.
        match p_opt {
            Option::Some(p) => {
                proof {
                    assert(m1.node(id).parent == Option::Some(p));
                    assert(m1.node_ok(id));
                    assert(m1.existing(p));
                    assert(p != id) by {
                        if p == id {
                            assert(m1.node(id).height == m1.node(id).height + 1);
                        }
                    }
                    assert(!is_descendant(m1, id, p)) by {
                        if is_descendant(m1, id, p) {
                            lemma_self_desc(m1, id);
                            lemma_child_desc(m1, id, p, id);
                            lemma_descendant_depth(m1, id, p);
                            assert(m1.node(p).height >= m1.node(id).height);
                            assert(m1.node(id).height == m1.node(p).height + 1);
                        }
                    }
                    assert(!r@.contains(p));
                }
                let mut pnd = self.nodes[p].take().unwrap();
                proof {
                    assert(pnd@ == m1.node(p));
                    assert(m1.node_ok(p));
                    assert(m1.node(p).children.contains(id));
                }
                match crate::listeners::find_node_id(&pnd.children, id) {
                    Option::Some(i) => {
                        let _ = pnd.children.remove(i);
                        proof {
                            assert(pnd.children@ =~= crate::listeners::remove_first(
                                m1.node(p).children,
                                id,
                            ));
                        }
                    },
                    Option::None => {
                        proof {
                            crate::dom::lemma_first_index(m1.node(p).children, id);
                            let fi = crate::dom::first_index(m1.node(p).children, id);
                            if fi == -1 {
                                assert(!m1.node(p).children.contains(id));
                            }
                            assert(false);
                        }
                    },
                }
                self.nodes[p] = Some(pnd);
            },
            Option::None => {},
        }
        proof {
            assert(self@.nodes.len() == m1.nodes.len());
            assert(r@.take(0) =~= Seq::<NodeId>::empty());
            assert forall|x: int| 0 <= x < m1.nodes.len() implies self@.nodes[x] == remove_partial(
                m1,
                id,
                r@.take(0),
            ).nodes[x] by {
                assert(!r@.take(0).contains(x as usize));
                if m1.nodes[x] is Some {
                    let y = x as usize;
                    assert(m1.existing(y));
                    assert(m1.node_ok(y));
                    lemma_remove_first_props(m1.node(y).children, id);
                    if p_opt != Option::Some(y) {
                        assert(m1.node(id).parent != Option::Some(y));
                        lemma_unique_child_entry(m1, id, y);
                        assert(!m1.node(y).children.contains(id));
                    }
                    assert(self@.nodes[x]->Some_0 =~= remove_partial(
                        m1,
                        id,
                        r@.take(0),
                    ).nodes[x]->Some_0);
                }
            }
            assert(self@.removed =~= remove_partial(m1, id, r@.take(0)).removed) by {
                assert(staged_masks(m1, r@.take(0)) =~= Seq::<(NodeId, crate::mask::MaskV)>::empty());
                assert(m1.removed + staged_masks(m1, r@.take(0)) =~= m1.removed);
            }
            assert(self@ =~= remove_partial(m1, id, r@.take(0)));
        }
        // Clear the slots of the whole subtree.
        let mut k: usize = 0;
        while k < r.len()
            invariant
                self@ == remove_partial(m1, id, r@.take(k as int)),
                self.nodes@.len() == m1.nodes.len(),
                m1.wf(),
                m1.existing(id),
                k <= r@.len(),
                r@ == subtree_preorder(m1, id),
                r@.no_duplicates(),
                forall|x: NodeId| r@.contains(x) == is_descendant(m1, id, x),
                forall|x: NodeId| r@.contains(x) ==> x < m1.nodes.len(),
                m1.nodes.len() <= usize::MAX,
            decreases r@.len() - k,
        {
            let ghost partial = remove_partial(m1, id, r@.take(k as int));
            let n = r[k];
            proof {
                assert(r@.contains(n)) by {
                    assert(r@[k as int] == n);
                }
                assert(n < m1.nodes.len());
                assert(!r@.take(k as int).contains(n)) by {
                    if r@.take(k as int).contains(n) {
                        let j = choose|j: int|
                            0 <= j < r@.take(k as int).len() && r@.take(k as int)[j] == n;
                        assert(r@[j] == r@[k as int]);
                    }
                }
                assert(self@.nodes[n as int] == partial.nodes[n as int]);
                assert(m1.nodes[n as int] is Some) by {
                    assert(is_descendant(m1, id, n));
                    let kk = choose|kk: nat| anc(m1, n, kk) == Option::Some(id);
                    lemma_anc_existing(m1, n, kk);
                }
            }
            let nd = self.nodes[n].take().unwrap();
            match nd.dirty_mask {
                Option::Some(mask) => {
                    self.removed_masks.push((n, mask));
                    proof {
                        assert(m1.node(n).dirty_mask == Option::Some(mask@));
                    }
                },
                Option::None => {
                    proof {
                        assert(m1.node(n).dirty_mask is None);
                    }
                },
            }
            proof {
                assert(self@.removed =~= remove_partial(m1, id, r@.take(k + 1)).removed) by {
                    assert(r@.take(k + 1).drop_last() =~= r@.take(k as int));
                    assert(r@.take(k + 1).last() == n);
                    match m1.node(n).dirty_mask {
                        Option::Some(mk) => {
                            assert(staged_masks(m1, r@.take(k + 1)) == staged_masks(
                                m1,
                                r@.take(k as int),
                            ).push((n, mk)));
                            assert(m1.removed + staged_masks(m1, r@.take(k + 1)) =~= (m1.removed
                                + staged_masks(m1, r@.take(k as int))).push((n, mk)));
                        },
                        Option::None => {
                            assert(staged_masks(m1, r@.take(k + 1)) == staged_masks(
                                m1,
                                r@.take(k as int),
                            ));
                        },
                    }
                }
            }
            proof {
                assert(r@.take(k + 1) =~= r@.take(k as int).push(n));
                assert forall|x: int| 0 <= x < m1.nodes.len() implies self@.nodes[x]
                    == remove_partial(m1, id, r@.take(k + 1)).nodes[x] by {
                    if x == n as int {
                        assert(r@.take(k + 1).contains(n)) by {
                            assert(r@.take(k + 1)[k as int] == n);
                        }
                    } else {
                        assert(self@.nodes[x] == partial.nodes[x]);
                        assert(r@.take(k + 1).contains(x as usize) == r@.take(k as int).contains(
                            x as usize,
                        )) by {
                            if r@.take(k + 1).contains(x as usize) {
                                let j = choose|j: int|
                                    0 <= j < r@.take(k + 1).len() && #[trigger] r@.take(
                                        k + 1,
                                    )[j] == x as usize;
                                assert(j < k);
                                assert(r@.take(k as int)[j] == x as usize);
                            }
                            if r@.take(k as int).contains(x as usize) {
                                let j = choose|j: int|
                                    0 <= j < r@.take(k as int).len() && #[trigger] r@.take(
                                        k as int,
                                    )[j] == x as usize;
                                assert(r@.take(k + 1)[j] == x as usize);
                            }
                        }
                    }
                }
                assert(self@ =~= remove_partial(m1, id, r@.take(k + 1)));
            }
            k += 1;
        }
        proof {
            assert(r@.take(r@.len() as int) =~= r@);
            assert forall|x: int| 0 <= x < m1.nodes.len() implies self@.nodes[x]
                == target.nodes[x] by {
                assert(r@.contains(x as usize) == is_descendant(m1, id, x as usize));
            }
            assert(self@.removed =~= target.removed) by {
                assert(r@.take(r@.len() as int) == subtree_preorder(m1, id));
                assert(staged_masks(m1, r@.take(r@.len() as int)) == staged_masks(
                    m1,
                    subtree_preorder(m1, id),
                ));
            }
            assert(self@ =~= target);
            assert(preorder_facts(m1, id, subtree_preorder(m1, id)));
            lemma_remove_wf(m1, id);
            // the marked model is the one the contract names
            assert(m1 == (match m0.node(id).parent {
                Option::Some(p) => m0.with_node(p, crate::dom::child_marked(m0, p)),
                Option::None => m0,
            })) by {
                match m0.node(id).parent {
                    Option::Some(p) => {},
                    Option::None => {},
                }
            }
        }
    }
}

impl RealDom {
    /// Append `child` to the end of `parent`'s children, detaching it
    /// from any previous parent; the heights of the moved subtree are
    /// refreshed, the parent is marked as having gained a child, and the
    /// child as having changed parent.  The child must not be the root
    /// nor an ancestor of the parent.
    pub fn add_child(&mut self, parent: NodeId, child: NodeId)
        requires
            old(self)@.wf(),
            old(self)@.existing(parent),
            old(self)@.existing(child),
            child != ROOT_ID,
            !is_descendant(old(self)@, child, parent),
        ensures
            final(self)@.wf(),
            final(self)@ == ({
                let m0 = old(self)@;
                let ma = m0.with_node(parent, crate::dom::child_marked(m0, parent));
                let mb = ma.with_node(child, crate::dom::parent_marked(ma, child));
                attach_spec(
                    mb,
                    parent,
                    child,
                    crate::listeners::remove_first(mb.node(parent).children, child).len() as int,
                )
            }),
            final(self)@.node(child).height == old(self)@.node(parent).height + 1,
            final(self)@.node(child).parent == Option::Some(parent),
    {
        let ghost m0 = self@;
        let total = self.nodes.len();
        proof {
            assert(m0.nodes.len() == self.nodes@.len());
            assert(m0.nodes.len() <= usize::MAX);
        }
        self.mark_child_changed(parent);
        self.mark_parent_added_or_removed(child);
        let ghost mb = self@;
        proof {
            assert(mb.nodes.len() == m0.nodes.len());
            assert(same_links(m0, mb));
            lemma_desc_same_links(m0, mb, child, parent);
            assert(mb.node(parent).children == m0.node(parent).children);
            assert(mb.node(parent).height == m0.node(parent).height);
            assert(m0.node_ok(parent));
            lemma_remove_first_props(mb.node(parent).children, child);
        }
        let pos = match &self.nodes[parent] {
            Option::Some(nd) => {
                match crate::listeners::find_node_id(&nd.children, child) {
                    Option::Some(_) => {
                        proof {
                            crate::dom::lemma_first_index(mb.node(parent).children, child);
                            let fi = crate::dom::first_index(mb.node(parent).children, child);
                            assert(mb.node(parent).children[fi] == child);
                            assert(mb.node(parent).children.contains(child));
                        }
                        nd.children.len() - 1
                    },
                    Option::None => {
                        proof {
                            crate::dom::lemma_first_index(mb.node(parent).children, child);
                            if mb.node(parent).children.contains(child) {
                                let t = choose|t: int|
                                    0 <= t < mb.node(parent).children.len() && mb.node(
                                        parent,
                                    ).children[t] == child;
                                assert(mb.node(parent).children[t] != child);
                            }
                        }
                        nd.children.len()
                    },
                }
            },
            Option::None => 0,
        };
        proof {
            assert(pos == crate::listeners::remove_first(mb.node(parent).children, child).len());
        }
        self.attach_at(parent, child, pos);
        proof {
            lemma_attach_wf(mb, parent, child, pos as int);
        }
    }

    /// Insert `new_id` just before `old_id` among the children of
    /// `old_id`'s parent, detaching it from any previous parent.  The
    /// parent is marked as having gained a child and the moved node as
    /// having changed parent.
    pub fn insert_before(&mut self, old_id: NodeId, new_id: NodeId)
        requires
            old(self)@.wf(),
            old(self)@.existing(old_id),
            old(self)@.existing(new_id),
            new_id != ROOT_ID,
            new_id != old_id,
            old(self)@.node(old_id).parent is Some,
            !is_descendant(old(self)@, new_id, old(self)@.node(old_id).parent->Some_0),
        ensures
            final(self)@.wf(),
            final(self)@ == ({
                let m0 = old(self)@;
                let p = m0.node(old_id).parent->Some_0;
                let ma = m0.with_node(p, crate::dom::child_marked(m0, p));
                let mb = ma.with_node(new_id, crate::dom::parent_marked(ma, new_id));
                attach_spec(mb, p, new_id, insert_position(mb, p, old_id, new_id))
            }),
    {
        let ghost m0 = self@;
        let p = match self.parent_id(old_id) {
            Option::Some(p) => p,
            Option::None => 0,
        };
        proof {
            assert(Option::Some(p) == m0.node(old_id).parent);
            assert(m0.node_ok(old_id));
        }
        self.mark_child_changed(p);
        self.mark_parent_added_or_removed(new_id);
        let ghost mb = self@;
        proof {
            assert(same_links(m0, mb));
            lemma_desc_same_links(m0, mb, new_id, p);
            assert(mb.node(p).children == m0.node(p).children);
            assert(m0.node_ok(p));
            assert(m0.node(p).children.contains(old_id));
            lemma_remove_first_props(mb.node(p).children, new_id);
        }
        let pos = self.position_without(p, old_id, new_id);
        self.attach_at(p, new_id, pos);
    }

    /// Insert `new_id` just after `old_id` among the children of
    /// `old_id`'s parent, detaching it from any previous parent.
    pub fn insert_after(&mut self, old_id: NodeId, new_id: NodeId)
        requires
            old(self)@.wf(),
            old(self)@.existing(old_id),
            old(self)@.existing(new_id),
            new_id != ROOT_ID,
            new_id != old_id,
            old(self)@.node(old_id).parent is Some,
            !is_descendant(old(self)@, new_id, old(self)@.node(old_id).parent->Some_0),
        ensures
            final(self)@.wf(),
            final(self)@ == ({
                let m0 = old(self)@;
                let p = m0.node(old_id).parent->Some_0;
                let ma = m0.with_node(p, crate::dom::child_marked(m0, p));
                let mb = ma.with_node(new_id, crate::dom::parent_marked(ma, new_id));
                attach_spec(mb, p, new_id, insert_position(mb, p, old_id, new_id) + 1)
            }),
    {
        let ghost m0 = self@;
        let p = match self.parent_id(old_id) {
            Option::Some(p) => p,
            Option::None => 0,
        };
        proof {
            assert(Option::Some(p) == m0.node(old_id).parent);
            assert(m0.node_ok(old_id));
        }
        self.mark_child_changed(p);
        self.mark_parent_added_or_removed(new_id);
        let ghost mb = self@;
        proof {
            assert(same_links(m0, mb));
            lemma_desc_same_links(m0, mb, new_id, p);
            assert(mb.node(p).children == m0.node(p).children);
            assert(m0.node_ok(p));
            assert(m0.node(p).children.contains(old_id));
            lemma_remove_first_props(mb.node(p).children, new_id);
        }
        let pos = self.position_without(p, old_id, new_id);
        let cl = match &self.nodes[p] {
            Option::Some(nd) => nd.children.len(),
            Option::None => 0,
        };
        proof {
            assert(cl == mb.node(p).children.len());
            assert(crate::listeners::remove_first(mb.node(p).children, new_id).len() <= cl);
            assert(pos < cl);
        }
        self.attach_at(p, new_id, pos + 1);
    }

    /// The position `old_id` takes among `p`'s children once `new_id` is
    /// taken out of the list.
    fn position_without(&self, p: NodeId, old_id: NodeId, new_id: NodeId) -> (pos: usize)
        requires
            self@.wf(),
            self@.existing(p),
            self@.node(p).children.contains(old_id),
            old_id != new_id,
        ensures
            pos == insert_position(self@, p, old_id, new_id),
            pos < crate::listeners::remove_first(self@.node(p).children, new_id).len(),
    {
        let ghost m = self@;
        let ghost cs = m.node(p).children;
        proof {
            assert(m.node_ok(p));
            crate::dom::lemma_first_index(cs, old_id);
            crate::dom::lemma_first_index(cs, new_id);
            lemma_remove_first_props(cs, new_id);
        }
        match &self.nodes[p] {
            Option::Some(nd) => {
                let io = match crate::listeners::find_node_id(&nd.children, old_id) {
                    Option::Some(i) => i,
                    Option::None => {
                        proof {
                            let fi = crate::dom::first_index(cs, old_id);
                            if fi == -1 {
                                assert(!cs.contains(old_id));
                            }
                            assert(false);
                        }
                        0
                    },
                };
                let pos = match crate::listeners::find_node_id(&nd.children, new_id) {
                    Option::Some(i2) => {
                        proof {
                            assert(cs[io as int] == old_id);
                            assert(cs[i2 as int] == new_id);
                        }
                        if i2 < io {
                            io - 1
                        } else {
                            io
                        }
                    },
                    Option::None => io,
                };
                proof {
                    let fi_new = crate::dom::first_index(cs, new_id);
                    let base = crate::listeners::remove_first(cs, new_id);
                    if fi_new == -1 {
                        assert(base == cs);
                        assert(pos < base.len());
                    } else {
                        assert(base.len() == cs.len() - 1);
                        assert(cs[fi_new] == new_id && cs[io as int] == old_id);
                        assert(fi_new != io);
                        if fi_new < io {
                            assert(pos == io - 1);
                            assert(pos < base.len());
                        } else {
                            assert(pos == io);
                            assert(pos < base.len());
                        }
                    }
                }
                pos
            },
            Option::None => 0,
        }
    }
}

/// Where `new_id` lands so that it stands just before `old_id`: the index
/// of `old_id` among `p`'s children once `new_id` is taken out.
pub open spec fn insert_position(m: DomV, p: NodeId, old_id: NodeId, new_id: NodeId) -> int {
    let cs = m.node(p).children;
    let io = crate::dom::first_index(cs, old_id);
    let i2 = crate::dom::first_index(cs, new_id);
    if i2 != -1 && i2 < io {
        io - 1
    } else {
        io
    }
}

/// Whether a node is due for every registered pass under the full mask,
/// as a freshly created node is.
pub open spec fn fully_dirty(m: DomV, x: NodeId) -> bool {
    &&& m.node(x).dirty.len() == m.passes.len()
    &&& (forall|q: int| 0 <= q < m.node(x).dirty.len() ==> m.node(x).dirty[q])
    &&& m.node(x).dirty_mask == Option::Some(crate::mask::mask_all())
}

/// The record of the `t`-th copy when the subtree listed depth first by
/// `src_list` is copied onto fresh slots starting at `base`: the source's
/// payload, the copied parent and children (each source node stands at
/// its `src_list` position, its copy `base` later), the height relative
/// to the copied root, and the fresh-node dirty state.
pub open spec fn copied_node(m0: DomV, src_list: Seq<NodeId>, base: int, t: int) -> NodeV {
    let s = src_list[t];
    NodeV {
        ty: m0.node(s).ty,
        parent: if t == 0 {
            Option::None
        } else {
            Option::Some((base + crate::dom::first_index(src_list, m0.node(s).parent->Some_0)) as usize)
        },
        children: m0.node(s).children.map_values(
            |c: NodeId| (base + crate::dom::first_index(src_list, c)) as usize,
        ),
        height: (m0.node(s).height - m0.node(src_list[0]).height) as usize,
        states: Seq::new(m0.passes.len(), |q: int| Option::<u64>::None),
        dirty: Seq::new(m0.passes.len(), |q: int| true),
        dirty_mask: Option::Some(crate::mask::mask_all()),
    }
}

/// The dom after deep-copying the subtree of `id`: one fresh copy per
/// subtree node, appended in the subtree's depth-first order, and nothing
/// else touched.
pub open spec fn clone_spec(m0: DomV, id: NodeId) -> DomV {
    let src_list = subtree_preorder(m0, id);
    DomV {
        nodes: m0.nodes + Seq::new(
            src_list.len() as nat,
            |t: int| Option::Some(copied_node(m0, src_list, m0.nodes.len() as int, t)),
        ),
        ..m0
    }
}

/// The facts the depth-first listing of a subtree carries: the root
/// first, every subtree node exactly once, each after its parent.
pub open spec fn preorder_facts(m0: DomV, id: NodeId, src_list: Seq<NodeId>) -> bool {
    &&& src_list.len() >= 1
    &&& src_list[0] == id
    &&& src_list.no_duplicates()
    &&& (forall|x: NodeId| src_list.contains(x) == is_descendant(m0, id, x))
    &&& (forall|k: int| 1 <= k < src_list.len() ==> parent_in_prefix(m0, src_list, k))
}


/// Deep-clone fidelity, node for node: the copy carries the source's
/// payload, the same child count, and, position for position, copies of
/// the source's children; every copy is fully dirty.  The fuel only
/// bounds the recursion; the relation at every fuel follows from
/// `lemma_clone_fidelity`.
pub open spec fn subtree_cloned(mo: DomV, s: NodeId, mn: DomV, d: NodeId, fuel: nat) -> bool
    decreases fuel,
{
    &&& mn.existing(d)
    &&& mn.node(d).ty == mo.node(s).ty
    &&& mn.node(d).children.len() == mo.node(s).children.len()
    &&& fully_dirty(mn, d)
    &&& (fuel > 0 ==> forall|i: int|
        0 <= i < mo.node(s).children.len() ==> subtree_cloned(
            mo,
            mo.node(s).children[i],
            mn,
            mn.node(d).children[i],
            (fuel - 1) as nat,
        ))
}

/// Every node of the copied subtree mirrors its source, to any depth.
pub proof fn lemma_clone_fidelity(m0: DomV, id: NodeId, t: int, fuel: nat)
    requires
        m0.wf(),
        m0.existing(id),
        preorder_facts(m0, id, subtree_preorder(m0, id)),
        m0.nodes.len() + subtree_preorder(m0, id).len() <= usize::MAX,
        0 <= t < subtree_preorder(m0, id).len(),
    ensures
        subtree_cloned(
            m0,
            subtree_preorder(m0, id)[t],
            clone_spec(m0, id),
            (m0.nodes.len() + t) as usize,
            fuel,
        ),
    decreases fuel,
{
    let src = subtree_preorder(m0, id);
    let base = m0.nodes.len() as int;
    let m2 = clone_spec(m0, id);
    let s = src[t];
    let d = (base + t) as usize;
    assert(m0.existing(s) && is_descendant(m0, id, s)) by {
        assert(src.contains(s)) by {
            assert(src[t] == s);
        }
        let kk = choose|kk: nat| anc(m0, s, kk) == Option::Some(id);
        lemma_anc_existing(m0, s, kk);
    }
    assert(m0.node_ok(s));
    assert(m2.nodes[d as int] == Option::Some(copied_node(m0, src, base, t)));
    assert(m2.existing(d));
    assert(fully_dirty(m2, d));
    assert(m2.node(d).children.len() == m0.node(s).children.len());
    if fuel > 0 {
        assert forall|i: int| 0 <= i < m0.node(s).children.len() implies subtree_cloned(
            m0,
            m0.node(s).children[i],
            m2,
            m2.node(d).children[i],
            (fuel - 1) as nat,
        ) by {
            let c = m0.node(s).children[i];
            assert(m0.node(s).children.contains(c)) by {
                assert(m0.node(s).children[i] == c);
            }
            lemma_child_desc(m0, id, s, c);
            assert(src.contains(c));
            crate::dom::lemma_first_index(src, c);
            let fc = crate::dom::first_index(src, c);
            assert(fc != -1) by {
                if fc == -1 {
                    assert(!src.contains(c));
                }
            }
            assert(0 <= fc < src.len() && src[fc] == c);
            assert(m2.node(d).children[i] == (base + fc) as usize);
            lemma_clone_fidelity(m0, id, fc, (fuel - 1) as nat);
        }
    }
}

/// Deep-copying keeps the dom well formed.
#[verifier::rlimit(100)]
#[verifier::spinoff_prover]
pub proof fn lemma_clone_wf(m0: DomV, id: NodeId)
    requires
        m0.wf(),
        m0.existing(id),
        preorder_facts(m0, id, subtree_preorder(m0, id)),
        m0.nodes.len() + subtree_preorder(m0, id).len() <= usize::MAX,
    ensures
        clone_spec(m0, id).wf(),
{
    let src = subtree_preorder(m0, id);
    let base = m0.nodes.len() as int;
    let ll = src.len() as int;
    let m2 = clone_spec(m0, id);
    assert(m2.nodes.len() == base + ll);
    assert forall|x: NodeId| x < base implies m2.nodes[x as int] == m0.nodes[x as int] by {}
    assert(m2.existing(ROOT_ID) && m2.node(ROOT_ID).parent is None);
    // every listed source exists and lies in the subtree
    assert forall|t: int| 0 <= t < ll implies m0.existing(#[trigger] src[t]) && is_descendant(
        m0,
        id,
        src[t],
    ) by {
        assert(src.contains(src[t]));
        let kk = choose|kk: nat| anc(m0, src[t], kk) == Option::Some(id);
        lemma_anc_existing(m0, src[t], kk);
    }
    assert forall|x: NodeId| m2.existing(x) implies #[trigger] m2.node_ok(x) by {
        if x < base {
            assert(m0.existing(x));
            assert(m0.node_ok(x));
            assert(m2.node(x) == m0.node(x));
            match m0.node(x).parent {
                Option::Some(p) => {
                    assert(m0.existing(p));
                    assert(m2.node(p) == m0.node(p));
                },
                Option::None => {},
            }
            assert forall|k: int|
                0 <= k < m2.node(x).children.len() implies m2.existing(
                #[trigger] m2.node(x).children[k]) && m2.node(m2.node(x).children[k]).parent
                == Option::Some(x) by {
                let c = m0.node(x).children[k];
                assert(m0.existing(c) && m0.node(c).parent == Option::Some(x));
                assert(m2.node(c) == m0.node(c));
            }
        } else {
            let t = x - base;
            assert(m2.nodes[x as int] == Option::Some(copied_node(m0, src, base, t)));
            let s = src[t];
            assert(m0.existing(s) && is_descendant(m0, id, s));
            assert(m0.node_ok(s));
            let n2 = m2.node(x);
            // parent and height
            if t == 0 {
                assert(s == id);
                assert(n2.parent is None);
                assert(n2.height == 0);
            } else {
                assert(parent_in_prefix(m0, src, t));
                let j = choose|j: int|
                    0 <= j < t && Option::Some(src[j]) == m0.node(src[t]).parent;
                let q = src[j];
                assert(crate::dom::first_index(src, q) == j) by {
                    crate::dom::lemma_first_index(src, q);
                    let fi = crate::dom::first_index(src, q);
                    assert(src.contains(q)) by {
                        assert(src[j] == q);
                    }
                    assert(fi != -1);
                    assert(src[fi] == q);
                    if fi != j {
                        assert(src[fi] != src[j]);
                    }
                }
                assert(n2.parent == Option::Some((base + j) as usize));
                assert(m2.existing((base + j) as usize));
                assert(m2.node((base + j) as usize) == copied_node(m0, src, base, j));
                // heights sit one level apart, relative to the copied root
                assert(m0.node(s).height == m0.node(q).height + 1);
                lemma_descendant_depth(m0, id, s);
                assert(src.contains(q)) by {
                    assert(src[j] == q);
                }
                assert(is_descendant(m0, id, q));
                lemma_descendant_depth(m0, id, q);
                assert(n2.height == m2.node((base + j) as usize).height + 1);
                // the copied parent lists this copy among its children
                assert(m2.node((base + j) as usize).children.contains(x)) by {
                    assert(m0.node(q).children.contains(s));
                    let i = choose|i: int|
                        0 <= i < m0.node(q).children.len() && m0.node(q).children[i] == s;
                    assert(crate::dom::first_index(src, s) == t) by {
                        crate::dom::lemma_first_index(src, s);
                        let fi = crate::dom::first_index(src, s);
                        assert(src.contains(s)) by {
                            assert(src[t] == s);
                        }
                        assert(fi != -1 && src[fi] == s);
                        if fi != t {
                            assert(src[fi] != src[t]);
                        }
                    }
                    assert(m2.node((base + j) as usize).children[i] == x);
                }
            }
            // the copied children: fresh copies, each pointing back
            assert(n2.children == m0.node(s).children.map_values(
                |c: NodeId| (base + crate::dom::first_index(src, c)) as usize,
            ));
            assert forall|k: int|
                0 <= k < n2.children.len() implies m2.existing(#[trigger] n2.children[k])
                && m2.node(n2.children[k]).parent == Option::Some(x) by {
                let c = m0.node(s).children[k];
                assert(m0.node(s).children.contains(c)) by {
                    assert(m0.node(s).children[k] == c);
                }
                lemma_child_desc(m0, id, s, c);
                assert(src.contains(c));
                crate::dom::lemma_first_index(src, c);
                let fc = crate::dom::first_index(src, c);
                assert(fc != -1) by {
                    if fc == -1 {
                        assert(!src.contains(c));
                    }
                }
                assert(0 <= fc < ll && src[fc] == c);
                assert(n2.children[k] == (base + fc) as usize);
                assert(m2.existing((base + fc) as usize));
                assert(m2.node((base + fc) as usize) == copied_node(m0, src, base, fc));
                // `c` is not the copied root, so its copy has a parent
                assert(fc != 0) by {
                    if fc == 0 {
                        assert(c == id);
                        lemma_descendant_depth(m0, id, s);
                        assert(m0.node_ok(c));
                        assert(m0.node(c).parent == Option::Some(s));
                        assert(m0.node(c).height == m0.node(s).height + 1);
                    }
                }
                assert(m0.node(c).parent == Option::Some(s));
                assert(parent_in_prefix(m0, src, fc));
                assert(crate::dom::first_index(src, s) == t) by {
                    crate::dom::lemma_first_index(src, s);
                    let fi = crate::dom::first_index(src, s);
                    assert(src.contains(s)) by {
                        assert(src[t] == s);
                    }
                    assert(fi != -1 && src[fi] == s);
                    if fi != t {
                        assert(src[fi] != src[t]);
                    }
                }
                assert(m2.node((base + fc) as usize).parent == Option::Some(x));
            }
            assert(n2.children.no_duplicates()) by {
                assert forall|a: int, b: int|
                    0 <= a < b < n2.children.len() implies n2.children[a] != n2.children[b] by {
                    let ca = m0.node(s).children[a];
                    let cb = m0.node(s).children[b];
                    assert(ca != cb);
                    assert(m0.node(s).children.contains(ca)) by {
                        assert(m0.node(s).children[a] == ca);
                    }
                    assert(m0.node(s).children.contains(cb)) by {
                        assert(m0.node(s).children[b] == cb);
                    }
                    lemma_child_desc(m0, id, s, ca);
                    lemma_child_desc(m0, id, s, cb);
                    crate::dom::lemma_first_index(src, ca);
                    crate::dom::lemma_first_index(src, cb);
                    let fa = crate::dom::first_index(src, ca);
                    let fb = crate::dom::first_index(src, cb);
                    assert(fa != -1) by {
                        if fa == -1 {
                            assert(!src.contains(ca));
                        }
                    }
                    assert(fb != -1) by {
                        if fb == -1 {
                            assert(!src.contains(cb));
                        }
                    }
                    assert(src[fa] == ca && src[fb] == cb);
                    assert(fa != fb);
                }
            }
            assert(n2.states.len() == m2.passes.len());
            assert(n2.dirty.len() == m2.passes.len());
            assert(crate::dom::payload_ok(n2.ty));
        }
    }
    assert(m2.listeners_ok()) by {
        assert forall|i: int, k: int|
            0 <= i < m2.listeners.len() && 0 <= k < m2.listeners[i].1.len() implies m2.existing(
            #[trigger] m2.listeners[i].1[k]) by {
            assert(m0.existing(m0.listeners[i].1[k]));
        }
    }
}

impl RealDom {
    /// Deep-copy the subtree of `id`: one fresh, detached copy per
    /// subtree node with the source's payload, the same child lists in
    /// the same order (pointing at the copies), and heights relative to
    /// the copied root; every copy starts fully dirty under the full
    /// mask, as any created node does, and nothing already in the dom is
    /// touched.  The copies sit at consecutive identifiers in the
    /// subtree's depth-first order, the copied root first.
    pub fn clone_node(&mut self, id: NodeId) -> (new_id: NodeId)
        requires
            old(self)@.wf(),
            old(self)@.existing(id),
        ensures
            final(self)@.wf(),
            new_id == old(self)@.nodes.len(),
            final(self)@ == clone_spec(old(self)@, id),
            preorder_facts(old(self)@, id, subtree_preorder(old(self)@, id)),
            final(self)@.existing(new_id),
            !old(self)@.existing(new_id),
            final(self)@.node(new_id).ty == old(self)@.node(id).ty,
            final(self)@.node(new_id).parent is None,
            final(self)@.node(new_id).height == 0,
            fully_dirty(final(self)@, new_id),
            final(self)@.node(new_id).children.len() == old(self)@.node(id).children.len(),
            forall|x: NodeId|
                x < old(self)@.nodes.len() ==> final(self)@.nodes[x as int] == old(
                    self,
                )@.nodes[x as int],
            final(self)@.listeners == old(self)@.listeners,
            final(self)@.passes == old(self)@.passes,
            final(self)@.schedule == old(self)@.schedule,
    {
        let ghost m0 = self@;
        let base = self.nodes.len();
        proof {
            assert(m0.nodes.len() == self.nodes@.len());
        }
        let r = self.collect_subtree(id);
        let ghost src = subtree_preorder(m0, id);
        proof {
            assert(r@ == src);
            assert(preorder_facts(m0, id, src));
        }
        // First walk: one fresh copy per subtree node, in listing order.
        let mut k: usize = 0;
        while k < r.len()
            invariant
                m0.wf(),
                m0.existing(id),
                base == m0.nodes.len(),
                src == subtree_preorder(m0, id),
                r@ == src,
                preorder_facts(m0, id, src),
                k <= r@.len(),
                self@.wf(),
                self@.nodes.len() == base + k,
                forall|x: NodeId| x < base ==> self@.nodes[x as int] == m0.nodes[x as int],
                forall|t: int|
                    0 <= t < k ==> self@.nodes[base + t] == Option::Some(
                        crate::dom::fresh_node(m0.node(src[t]).ty, m0.n_passes()),
                    ),
                self@.listeners == m0.listeners,
                self@.passes == m0.passes,
                self@.schedule == m0.schedule,
                self@.removed == m0.removed,
            decreases r@.len() - k,
        {
            let sid = r[k];
            proof {
                assert(src[k as int] == sid);
                assert(src.contains(sid)) by {
                    assert(src[k as int] == sid);
                }
                assert(is_descendant(m0, id, sid));
                assert(m0.existing(sid)) by {
                    let kk = choose|kk: nat| anc(m0, sid, kk) == Option::Some(id);
                    lemma_anc_existing(m0, sid, kk);
                }
                assert(self@.nodes[sid as int] == m0.nodes[sid as int]);
                assert(m0.node_ok(sid));
            }
            let payload = match &self.nodes[sid] {
                Option::Some(nd) => nd.ty.clone_node_type(),
                Option::None => crate::node::NodeType::Placeholder,
            };
            proof {
                assert(payload@ == m0.node(sid).ty);
            }
            let nc = self.create_node(payload);
            proof {
                assert(nc == base + k);
            }
            k += 1;
        }
        let total = self.nodes.len();
        proof {
            assert(total == base + r@.len());
            assert(base + src.len() <= usize::MAX);
        }
        // Second walk: link each copy exactly as its source is linked,
        // with every reference moved onto the copies.
        let hid = match &self.nodes[id] {
            Option::Some(nd) => nd.height,
            Option::None => 0,
        };
        proof {
            assert(hid == m0.node(id).height);
        }
        let mut k2: usize = 0;
        while k2 < r.len()
            invariant
                m0.wf(),
                m0.existing(id),
                base == m0.nodes.len(),
                src == subtree_preorder(m0, id),
                r@ == src,
                preorder_facts(m0, id, src),
                total == base + src.len(),
                hid == m0.node(id).height,
                k2 <= r@.len(),
                self.nodes@.len() == total,
                forall|x: NodeId| x < base ==> self@.nodes[x as int] == m0.nodes[x as int],
                forall|t: int|
                    0 <= t < k2 ==> self@.nodes[base + t] == Option::Some(
                        copied_node(m0, src, base as int, t),
                    ),
                forall|t: int|
                    k2 <= t < src.len() ==> self@.nodes[base + t] == Option::Some(
                        crate::dom::fresh_node(m0.node(src[t]).ty, m0.n_passes()),
                    ),
                self@.listeners == m0.listeners,
                self@.passes == m0.passes,
                self@.schedule == m0.schedule,
                self@.removed == m0.removed,
            decreases r@.len() - k2,
        {
            let sid = r[k2];
            proof {
                assert(src[k2 as int] == sid);
                assert(src.contains(sid)) by {
                    assert(src[k2 as int] == sid);
                }
                assert(is_descendant(m0, id, sid));
                assert(m0.existing(sid)) by {
                    let kk = choose|kk: nat| anc(m0, sid, kk) == Option::Some(id);
                    lemma_anc_existing(m0, sid, kk);
                }
                assert(self@.nodes[sid as int] == m0.nodes[sid as int]);
                assert(m0.node_ok(sid));
                lemma_descendant_depth(m0, id, sid);
            }
            // the copied child list, in the source's order
            let src_children = match &self.nodes[sid] {
                Option::Some(nd) => crate::dom::clone_ids(&nd.children),
                Option::None => Vec::new(),
            };
            proof {
                assert(src_children@ == m0.node(sid).children);
            }
            let mut mapped: Vec<NodeId> = Vec::new();
            let mut j: usize = 0;
            while j < src_children.len()
                invariant
                    m0.wf(),
                    m0.existing(id),
                    m0.existing(sid),
                    is_descendant(m0, id, sid),
                    base == m0.nodes.len(),
                    src == subtree_preorder(m0, id),
                    r@ == src,
                    preorder_facts(m0, id, src),
                    total == base + src.len(),
                    src_children@ == m0.node(sid).children,
                    j <= src_children@.len(),
                    mapped@.len() == j,
                    forall|i: int|
                        0 <= i < j ==> mapped@[i] == (base + crate::dom::first_index(
                            src,
                            src_children@[i],
                        )) as usize,
                decreases src_children@.len() - j,
            {
                let c = src_children[j];
                proof {
                    assert(m0.node(sid).children.contains(c)) by {
                        assert(m0.node(sid).children[j as int] == c);
                    }
                    lemma_child_desc(m0, id, sid, c);
                    assert(src.contains(c));
                }
                let ji = match crate::listeners::find_node_id(&r, c) {
                    Option::Some(ji) => ji,
                    Option::None => {
                        proof {
                            crate::dom::lemma_first_index(src, c);
                            let fi = crate::dom::first_index(src, c);
                            if fi == -1 {
                                assert(!src.contains(c));
                            }
                            assert(false);
                        }
                        0
                    },
                };
                proof {
                    assert(ji < src.len());
                    assert(base + ji < total);
                }
                mapped.push(base + ji);
                j += 1;
            }
            proof {
                assert(mapped@ =~= m0.node(sid).children.map_values(
                    |c: NodeId| (base as int + crate::dom::first_index(src, c)) as usize,
                ));
            }
            // the copied parent and the relative height
            let mut nd = self.nodes[base + k2].take().unwrap();
            proof {
                assert(nd@ == crate::dom::fresh_node(m0.node(src[k2 as int]).ty, m0.n_passes()));
            }
            if k2 > 0 {
                proof {
                    assert(parent_in_prefix(m0, src, k2 as int));
                    let jp = choose|jp: int|
                        0 <= jp < k2 && Option::Some(src[jp]) == m0.node(src[k2 as int]).parent;
                    assert(m0.node(sid).parent is Some);
                }
                let q = match &self.nodes[sid] {
                    Option::Some(snd) => match snd.parent {
                        Option::Some(q) => q,
                        Option::None => 0,
                    },
                    Option::None => 0,
                };
                proof {
                    assert(Option::Some(q) == m0.node(sid).parent);
                }
                let qi = match crate::listeners::find_node_id(&r, q) {
                    Option::Some(qi) => qi,
                    Option::None => {
                        proof {
                            let jp = choose|jp: int|
                                0 <= jp < k2 && Option::Some(src[jp]) == m0.node(
                                    src[k2 as int],
                                ).parent;
                            assert(src[jp] == q);
                            assert(src.contains(q)) by {
                                assert(src[jp] == q);
                            }
                            crate::dom::lemma_first_index(src, q);
                            let fi = crate::dom::first_index(src, q);
                            if fi == -1 {
                                assert(!src.contains(q));
                            }
                            assert(false);
                        }
                        0
                    },
                };
                proof {
                    assert(qi < src.len());
                    assert(base + qi < total);
                }
                nd.parent = Option::Some(base + qi);
                let hs = match &self.nodes[sid] {
                    Option::Some(snd) => snd.height,
                    Option::None => 0,
                };
                proof {
                    assert(hs == m0.node(sid).height);
                    assert(hs >= hid);
                }
                nd.height = hs - hid;
            }
            nd.children = mapped;
            let ghost pre_nodes = self@.nodes;
            self.nodes[base + k2] = Some(nd);
            proof {
                assert(nd@ =~= copied_node(m0, src, base as int, k2 as int)) by {
                    if k2 == 0 {
                        assert(src[0] == id);
                        assert(m0.node(src[0]).height - m0.node(src[0]).height == 0);
                    }
                }
                assert forall|t: int|
                    0 <= t < k2 + 1 implies self@.nodes[base + t] == Option::Some(
                    copied_node(m0, src, base as int, t),
                ) by {
                    if t < k2 {
                        assert(self@.nodes[base + t] == pre_nodes[base + t]);
                    }
                }
                assert forall|t: int|
                    k2 + 1 <= t < src.len() implies self@.nodes[base + t] == Option::Some(
                    crate::dom::fresh_node(m0.node(src[t]).ty, m0.n_passes()),
                ) by {
                    assert(self@.nodes[base + t] == pre_nodes[base + t]);
                }
                assert forall|x: NodeId| x < base implies self@.nodes[x as int] == m0.nodes[x
                    as int] by {
                    assert(self@.nodes[x as int] == pre_nodes[x as int]);
                }
            }
            k2 += 1;
        }
        proof {
            assert(self@ =~= clone_spec(m0, id)) by {
                assert forall|x: int| 0 <= x < total implies self@.nodes[x] == clone_spec(
                    m0,
                    id,
                ).nodes[x] by {
                    if x >= base {
                        assert(self@.nodes[x] == Option::Some(
                            copied_node(m0, src, base as int, x - base),
                        ));
                    }
                }
                assert(self@.nodes =~= clone_spec(m0, id).nodes);
            }
            lemma_clone_wf(m0, id);
            // the facts about the copied root
            assert(clone_spec(m0, id).nodes[base as int] == Option::Some(
                copied_node(m0, src, base as int, 0),
            ));
            assert(src[0] == id);
            assert(self@.node(base).children.len() == m0.node(id).children.len());
            assert(fully_dirty(self@, base));
        }
        base
    }

    /// Deep-copy the subtree of `id` and return the copy's root.
    pub fn deep_clone_node(&mut self, id: NodeId) -> (new_id: NodeId)
        requires
            old(self)@.wf(),
            old(self)@.existing(id),
        ensures
            final(self)@.wf(),
            new_id == old(self)@.nodes.len(),
            final(self)@ == clone_spec(old(self)@, id),
            preorder_facts(old(self)@, id, subtree_preorder(old(self)@, id)),
            final(self)@.existing(new_id),
            final(self)@.node(new_id).ty == old(self)@.node(id).ty,
            final(self)@.node(new_id).parent is None,
            fully_dirty(final(self)@, new_id),
            forall|x: NodeId|
                x < old(self)@.nodes.len() ==> final(self)@.nodes[x as int] == old(
                    self,
                )@.nodes[x as int],
    {
        self.clone_node(id)
    }

    /// The nodes reachable from the root, in depth-first order: each node
    /// once, before its children, and an earlier sibling's whole subtree
    /// before a later sibling.
    pub fn traverse_depth_first(&self) -> (r: Vec<NodeId>)
        requires
            self@.wf(),
        ensures
            r@ == subtree_preorder(self@, ROOT_ID),
            r@.len() >= 1,
            r@[0] == ROOT_ID,
            r@.no_duplicates(),
            forall|x: NodeId| r@.contains(x) == is_descendant(self@, ROOT_ID, x),
            forall|k: int| 1 <= k < r@.len() ==> parent_in_prefix(self@, r@, k),
    {
        self.collect_subtree(ROOT_ID)
    }
}

/// Whether the parent of `r[k]` stands before position `k` and is open
/// for descent (not named in `skip`).
pub open spec fn open_parent_in_prefix(m: DomV, skip: Seq<NodeId>, r: Seq<NodeId>, k: int) -> bool {
    exists|j: int|
        0 <= j < k && Option::Some(r[j]) == m.node(r[k]).parent && !skip.contains(r[j])
}

impl RealDom {
    /// Walk the tree from the root in depth-first order — each node once,
    /// before its children, an earlier sibling's whole subtree before a
    /// later sibling — without descending below the nodes named in
    /// `opaque`.
    pub fn traverse_depth_first_advanced(&self, opaque: &Vec<NodeId>) -> (r: Vec<NodeId>)
        requires
            self@.wf(),
        ensures
            r@ == cut_preorder(self@, opaque@, ROOT_ID),
            r@.len() >= 1,
            r@[0] == ROOT_ID,
            r@.no_duplicates(),
            forall|k: int|
                0 <= k < r@.len() ==> self@.existing(#[trigger] r@[k]) && is_descendant(
                    self@,
                    ROOT_ID,
                    r@[k],
                ),
            forall|k: int, c: NodeId|
                0 <= k < r@.len() && !opaque@.contains(r@[k]) && #[trigger] self@.node(
                    r@[k],
                ).children.contains(c) ==> r@.contains(c),
            forall|k: int| 1 <= k < r@.len() ==> open_parent_in_prefix(self@, opaque@, r@, k),
    {
        let ghost m = self@;
        let ghost skip = opaque@;
        let ghost target = cut_preorder(m, skip, ROOT_ID);
        let mut result: Vec<NodeId> = Vec::new();
        let mut stack: Vec<NodeId> = Vec::new();
        stack.push(ROOT_ID);
        proof {
            assert((result@ + stack@) =~= seq![ROOT_ID]);
            assert(anc(m, ROOT_ID, 0) == Option::Some(ROOT_ID));
            assert(is_descendant(m, ROOT_ID, ROOT_ID));
            assert(pending_order(m, skip, stack@) == cut_preorder(m, skip, ROOT_ID)
                + pending_order(m, skip, stack@.drop_last()));
            assert(stack@.drop_last() =~= Seq::<NodeId>::empty());
            assert(result@ + pending_order(m, skip, stack@) =~= target);
        }
        while stack.len() > 0
            invariant
                self@ == m,
                skip == opaque@,
                m.wf(),
                target == cut_preorder(m, skip, ROOT_ID),
                result@ + pending_order(m, skip, stack@) == target,
                (result@ + stack@).no_duplicates(),
                forall|k: int|
                    0 <= k < result@.len() ==> m.existing(#[trigger] result@[k]) && is_descendant(
                        m,
                        ROOT_ID,
                        result@[k],
                    ),
                forall|k: int|
                    0 <= k < stack@.len() ==> m.existing(#[trigger] stack@[k]) && is_descendant(
                        m,
                        ROOT_ID,
                        stack@[k],
                    ),
                result@.len() == 0 ==> stack@ =~= seq![ROOT_ID],
                result@.len() > 0 ==> result@[0] == ROOT_ID,
                forall|k: int, c: NodeId|
                    0 <= k < result@.len() && !skip.contains(result@[k]) && #[trigger] m.node(
                        result@[k],
                    ).children.contains(c) ==> result@.contains(c) || stack@.contains(c),
                forall|k: int|
                    0 <= k < stack@.len() ==> (#[trigger] stack@[k]) == ROOT_ID || (
                    parent_recorded(m, result@, stack@[k]) && open_parent_recorded(
                        m,
                        skip,
                        result@,
                        stack@[k],
                    )),
                forall|k: int| 1 <= k < result@.len() ==> open_parent_in_prefix(m, skip, result@, k),
                result@.len() + stack@.len() <= m.nodes.len(),
            decreases m.nodes.len() - result@.len(),
        {
            let ghost old_result = result@;
            let ghost old_stack = stack@;
            let n = stack.pop().unwrap();
            result.push(n);
            proof {
                assert(old_stack[old_stack.len() - 1] == n);
                assert(old_stack.contains(n)) by {
                    assert(old_stack[old_stack.len() - 1] == n);
                }
                assert(result@ =~= old_result.push(n));
                assert(stack@ =~= old_stack.drop_last());
            }
            let descend = match crate::listeners::find_node_id(opaque, n) {
                Option::Some(_) => false,
                Option::None => true,
            };
            proof {
                crate::dom::lemma_first_index(skip, n);
                let fi = crate::dom::first_index(skip, n);
                if fi != -1 {
                    assert(skip[fi] == n);
                    assert(skip.contains(n));
                } else {
                    if skip.contains(n) {
                        let t = choose|t: int| 0 <= t < skip.len() && skip[t] == n;
                        assert(skip[t] != n);
                    }
                }
                assert(descend == !skip.contains(n));
            }
            let children = if descend {
                match &self.nodes[n] {
                    Option::Some(nd) => crate::dom::clone_ids(&nd.children),
                    Option::None => Vec::new(),
                }
            } else {
                Vec::new()
            };
            proof {
                assert(m.node_ok(n));
                if descend {
                    assert(children@ == m.node(n).children);
                } else {
                    assert(children@ =~= Seq::<NodeId>::empty());
                }
                assert(children@.skip(children@.len() as int).reverse() =~= Seq::<NodeId>::empty());
                assert(stack@ =~= old_stack.drop_last() + children@.skip(
                    children@.len() as int,
                ).reverse());
                assert(is_descendant(m, ROOT_ID, n)) by {
                    assert(old_stack[old_stack.len() - 1] == n);
                }
            }
            let mut i: usize = children.len();
            while i > 0
                invariant
                    self@ == m,
                    m.wf(),
                    m.existing(n),
                    descend ==> children@ == m.node(n).children,
                    !descend ==> children@ =~= Seq::<NodeId>::empty(),
                    i <= children@.len(),
                    result@ == old_result.push(n),
                    result@[result@.len() - 1] == n,
                    result@.len() >= 1,
                    is_descendant(m, ROOT_ID, n),
                    stack@ =~= old_stack.drop_last() + children@.skip(i as int).reverse(),
                decreases i,
            {
                i -= 1;
                let c = children[i];
                stack.push(c);
                proof {
                    assert(stack@ =~= old_stack.drop_last() + children@.skip(i as int).reverse())
                        by {
                        assert(children@.skip(i as int).reverse() =~= children@.skip(
                            i + 1,
                        ).reverse().push(children@[i as int]));
                    }
                }
            }
            proof {
                lemma_traverse_step(m, skip, old_result, old_stack, n, children@, descend);
                assert(stack@ =~= old_stack.drop_last() + children@.reverse()) by {
                    assert(children@.skip(0) =~= children@);
                }
                assert(children@ == (if skip.contains(n) {
                    Seq::<NodeId>::empty()
                } else {
                    m.node(n).children
                }));
                lemma_pending_step(m, skip, old_result, old_stack, target, children@);
            }
        }
        proof {
            assert(result@ + stack@ =~= result@);
            assert(result@ =~= result@ + pending_order(m, skip, stack@));
            assert(result@ == target);
            assert(result@.contains(ROOT_ID)) by {
                assert(result@[0] == ROOT_ID);
            }
            assert forall|k: int, c: NodeId|
                0 <= k < result@.len() && !skip.contains(result@[k]) && #[trigger] m.node(
                    result@[k],
                ).children.contains(c) implies result@.contains(c) by {
                assert(result@.contains(c) || stack@.contains(c));
                if stack@.contains(c) {
                    let t = choose|t: int| 0 <= t < stack@.len() && stack@[t] == c;
                }
            }
        }
        result
    }
}

/// Whether the recorded parent of `x` is open for descent.
pub open spec fn open_parent_recorded(m: DomV, skip: Seq<NodeId>, r: Seq<NodeId>, x: NodeId) -> bool {
    exists|j: int|
        0 <= j < r.len() && Option::Some(r[j]) == m.node(x).parent && !skip.contains(r[j])
}

/// One traversal step keeps the bookkeeping, whether or not the walk
/// descends below the popped node.
proof fn lemma_traverse_step(
    m: DomV,
    skip: Seq<NodeId>,
    old_result: Seq<NodeId>,
    old_stack: Seq<NodeId>,
    n: NodeId,
    children: Seq<NodeId>,
    descend: bool,
)
    requires
        m.wf(),
        old_stack.len() > 0,
        old_stack[old_stack.len() - 1] == n,
        descend == !skip.contains(n),
        descend ==> children == m.node(n).children,
        !descend ==> children =~= Seq::<NodeId>::empty(),
        (old_result + old_stack).no_duplicates(),
        forall|k: int|
            0 <= k < old_result.len() ==> m.existing(#[trigger] old_result[k]) && is_descendant(
                m,
                ROOT_ID,
                old_result[k],
            ),
        forall|k: int|
            0 <= k < old_stack.len() ==> m.existing(#[trigger] old_stack[k]) && is_descendant(
                m,
                ROOT_ID,
                old_stack[k],
            ),
        old_result.len() == 0 ==> old_stack =~= seq![ROOT_ID],
        old_result.len() > 0 ==> old_result[0] == ROOT_ID,
        forall|k: int, c: NodeId|
            0 <= k < old_result.len() && !skip.contains(old_result[k]) && #[trigger] m.node(
                old_result[k],
            ).children.contains(c) ==> old_result.contains(c) || old_stack.contains(c),
        forall|k: int|
            0 <= k < old_stack.len() ==> (#[trigger] old_stack[k]) == ROOT_ID || (parent_recorded(
                m,
                old_result,
                old_stack[k],
            ) && open_parent_recorded(m, skip, old_result, old_stack[k])),
        forall|k: int| 1 <= k < old_result.len() ==> open_parent_in_prefix(m, skip, old_result, k),
        old_result.len() + old_stack.len() <= m.nodes.len(),
    ensures
        ({
            let result = old_result.push(n);
            let stack = old_stack.drop_last() + children.reverse();
            &&& (result + stack).no_duplicates()
            &&& (forall|k: int|
                0 <= k < result.len() ==> m.existing(#[trigger] result[k]) && is_descendant(
                    m,
                    ROOT_ID,
                    result[k],
                ))
            &&& (forall|k: int|
                0 <= k < stack.len() ==> m.existing(#[trigger] stack[k]) && is_descendant(
                    m,
                    ROOT_ID,
                    stack[k],
                ))
            &&& result[0] == ROOT_ID
            &&& (forall|k: int, c: NodeId|
                0 <= k < result.len() && !skip.contains(result[k]) && #[trigger] m.node(
                    result[k],
                ).children.contains(c) ==> result.contains(c) || stack.contains(c))
            &&& (forall|k: int|
                0 <= k < stack.len() ==> (#[trigger] stack[k]) == ROOT_ID || (parent_recorded(
                    m,
                    result,
                    stack[k],
                ) && open_parent_recorded(m, skip, result, stack[k])))
            &&& (forall|k: int| 1 <= k < result.len() ==> open_parent_in_prefix(m, skip, result, k))
            &&& result.len() + stack.len() <= m.nodes.len()
        }),
{
    let result = old_result.push(n);
    let stack = old_stack.drop_last() + children.reverse();
    assert(m.existing(n) && is_descendant(m, ROOT_ID, n)) by {
        assert(old_stack[old_stack.len() - 1] == n);
    }
    assert(n == ROOT_ID || (parent_recorded(m, old_result, n) && open_parent_recorded(
        m,
        skip,
        old_result,
        n,
    ))) by {
        assert(old_stack[old_stack.len() - 1] == n);
    }
    assert(m.node_ok(n));
    assert(result[0] == ROOT_ID) by {
        if old_result.len() == 0 {
            assert(old_stack =~= seq![ROOT_ID]);
            assert(n == ROOT_ID);
        }
    }
    assert forall|t: int| 0 <= t < children.len() implies {
        &&& m.existing(#[trigger] children[t])
        &&& m.node(children[t]).parent == Option::Some(n)
        &&& is_descendant(m, ROOT_ID, children[t])
    } by {
        assert(m.node(n).children[t] == children[t]);
        let c = children[t];
        assert(m.existing(c) && m.node(c).parent == Option::Some(n));
        let k = choose|k: nat| anc(m, n, k) == Option::Some(ROOT_ID);
        assert(anc(m, c, 0) == Option::Some(c));
        assert(anc(m, c, 1) == Option::Some(n));
        lemma_anc_compose(m, c, 1, k);
        assert(anc(m, c, (1 + k) as nat) == Option::Some(ROOT_ID));
    }
    assert forall|t: int| 0 <= t < children.len() implies {
        &&& !old_result.contains(#[trigger] children[t])
        &&& !old_stack.drop_last().contains(children[t])
        &&& children[t] != n
    } by {
        let c = children[t];
        assert(m.node(c).parent == Option::Some(n));
        assert(!old_result.contains(n)) by {
            if old_result.contains(n) {
                let j = choose|j: int| 0 <= j < old_result.len() && old_result[j] == n;
                assert((old_result + old_stack)[j] == n);
                assert((old_result + old_stack)[old_result.len() + old_stack.len() - 1] == n);
            }
        }
        if c == n {
            assert(m.node_ok(c));
            assert(m.node(c).height == m.node(n).height + 1);
        }
        assert(m.node_ok(c));
        if old_result.contains(c) {
            let j = choose|j: int| 0 <= j < old_result.len() && old_result[j] == c;
            if j == 0 {
                assert(old_result[0] == ROOT_ID);
                assert(c == ROOT_ID);
                assert(m.node(ROOT_ID).parent is None);
            } else {
                assert(open_parent_in_prefix(m, skip, old_result, j));
                let j2 = choose|j2: int|
                    0 <= j2 < j && Option::Some(old_result[j2]) == m.node(old_result[j]).parent
                        && !skip.contains(old_result[j2]);
                assert(old_result[j2] == n);
                assert(old_result.contains(n));
            }
        }
        if old_stack.drop_last().contains(c) {
            let j = choose|j: int|
                0 <= j < old_stack.drop_last().len() && old_stack.drop_last()[j] == c;
            assert(old_stack[j] == c);
            if c == ROOT_ID {
                assert(m.node(ROOT_ID).parent is None);
            } else {
                assert(parent_recorded(m, old_result, old_stack[j]));
                let j2 = choose|j2: int|
                    0 <= j2 < old_result.len() && Option::Some(old_result[j2]) == m.node(
                        old_stack[j],
                    ).parent;
                assert(old_result[j2] == n);
                assert(old_result.contains(n));
            }
        }
    }
    assert((result + stack).no_duplicates()) by {
        let combined = result + stack;
        assert forall|a: int, b: int| 0 <= a < b < combined.len() implies combined[a]
            != combined[b] by {
            let old_combined = old_result + old_stack;
            let rl = result.len();
            let osl = old_stack.drop_last().len();
            assert forall|t: int| 0 <= t < combined.len() implies combined[t] == spec_entry(
                old_result,
                old_stack,
                n,
                children,
                t,
            ) by {
                if t < rl - 1 {
                    assert(combined[t] == old_result[t]);
                } else if t == rl - 1 {
                    assert(combined[t] == n);
                } else if t < rl + osl {
                    assert(combined[t] == old_stack[t - rl]);
                } else {
                    assert(combined[t] == children.reverse()[t - rl - osl]);
                }
            }
            let old_combined_idx = |t: int|
                if t < rl - 1 {
                    t
                } else if t == rl - 1 {
                    old_result.len() + old_stack.len() - 1
                } else {
                    t - 1
                };
            if a < rl + osl && b < rl + osl {
                assert(old_combined[old_combined_idx(a)] == combined[a]);
                assert(old_combined[old_combined_idx(b)] == combined[b]);
                assert(old_combined_idx(a) != old_combined_idx(b));
            } else if b >= rl + osl {
                let cb = children.reverse()[b - rl - osl];
                assert(children.contains(cb)) by {
                    assert(children[children.len() - 1 - (b - rl - osl)] == cb);
                }
                if a >= rl + osl {
                    let ca = children.reverse()[a - rl - osl];
                    assert(m.node(n).children.no_duplicates());
                    assert(children.reverse().no_duplicates()) by {
                        assert forall|u: int, v: int|
                            0 <= u < v < children.reverse().len() implies children.reverse()[u]
                            != children.reverse()[v] by {
                            assert(children.reverse()[u] == children[children.len() - 1 - u]);
                            assert(children.reverse()[v] == children[children.len() - 1 - v]);
                        }
                    }
                    assert(ca != cb);
                } else if a == rl - 1 {
                    assert(combined[a] == n);
                    assert(cb != n);
                } else if a < rl - 1 {
                    assert(!old_result.contains(cb));
                    assert(old_result[a] == combined[a]);
                    if combined[a] == cb {
                        assert(old_result.contains(cb)) by {
                            assert(old_result[a] == cb);
                        }
                    }
                } else {
                    assert(!old_stack.drop_last().contains(cb));
                    assert(old_stack.drop_last()[a - rl] == combined[a]);
                    if combined[a] == cb {
                        assert(old_stack.drop_last().contains(cb)) by {
                            assert(old_stack.drop_last()[a - rl] == cb);
                        }
                    }
                }
            }
        }
    }
    assert(result.len() + stack.len() <= m.nodes.len()) by {
        lemma_distinct_bounded_len_nodes(m, result + stack);
    }
    assert forall|k: int, c: NodeId|
        0 <= k < result.len() && !skip.contains(result[k]) && #[trigger] m.node(
            result[k],
        ).children.contains(c) implies result.contains(c) || stack.contains(c) by {
        if k < result.len() - 1 {
            assert(old_result.contains(c) || old_stack.contains(c));
            if old_result.contains(c) {
                let j = choose|j: int| 0 <= j < old_result.len() && old_result[j] == c;
                assert(result[j] == c);
            } else {
                let j = choose|j: int| 0 <= j < old_stack.len() && old_stack[j] == c;
                if j < old_stack.len() - 1 {
                    assert(stack[j] == c);
                } else {
                    assert(c == n);
                    assert(result[result.len() - 1] == n);
                }
            }
        } else {
            assert(result[k] == n);
            assert(!skip.contains(n));
            assert(descend);
            let t = choose|t: int| 0 <= t < children.len() && children[t] == c;
            assert(children.reverse()[children.len() - 1 - t] == c);
            assert(stack[old_stack.drop_last().len() + children.len() - 1 - t] == c);
        }
    }
    assert forall|k: int|
        0 <= k < stack.len() implies (#[trigger] stack[k]) == ROOT_ID || (parent_recorded(
        m,
        result,
        stack[k],
    ) && open_parent_recorded(m, skip, result, stack[k])) by {
        if k < old_stack.drop_last().len() {
            assert(old_stack[k] == stack[k]);
            if old_stack[k] != ROOT_ID {
                let j = choose|j: int|
                    0 <= j < old_result.len() && Option::Some(old_result[j]) == m.node(
                        old_stack[k],
                    ).parent && !skip.contains(old_result[j]);
                assert(result[j] == old_result[j]);
                assert(parent_recorded(m, result, stack[k]));
                assert(open_parent_recorded(m, skip, result, stack[k]));
            }
        } else {
            let c = stack[k];
            assert(children.reverse()[k - old_stack.drop_last().len()] == c);
            assert(children.contains(c)) by {
                assert(children[children.len() - 1 - (k - old_stack.drop_last().len())] == c);
            }
            assert(descend);
            assert(m.node(c).parent == Option::Some(n));
            assert(result[result.len() - 1] == n);
            assert(parent_recorded(m, result, c)) by {
                assert(Option::Some(result[result.len() - 1]) == m.node(c).parent);
            }
            assert(open_parent_recorded(m, skip, result, c)) by {
                assert(Option::Some(result[result.len() - 1]) == m.node(c).parent);
                assert(!skip.contains(result[result.len() - 1]));
            }
        }
    }
    assert forall|k: int| 1 <= k < result.len() implies open_parent_in_prefix(
        m,
        skip,
        result,
        k,
    ) by {
        if k < result.len() - 1 {
            assert(open_parent_in_prefix(m, skip, old_result, k));
            let j = choose|j: int|
                0 <= j < k && Option::Some(old_result[j]) == m.node(old_result[k]).parent
                    && !skip.contains(old_result[j]);
            assert(result[j] == old_result[j]);
            assert(result[k] == old_result[k]);
        } else {
            if n == ROOT_ID {
                assert(old_result.len() > 0);
                assert(old_result[0] == ROOT_ID);
                assert((old_result + old_stack)[0] == ROOT_ID);
                assert((old_result + old_stack)[old_result.len() + old_stack.len() - 1] == n);
                assert(false);
            } else {
                let j = choose|j: int|
                    0 <= j < old_result.len() && Option::Some(old_result[j]) == m.node(n).parent
                        && !skip.contains(old_result[j]);
                assert(result[j] == old_result[j]);
                assert(Option::Some(result[j]) == m.node(result[k]).parent);
                assert(!skip.contains(result[j]));
            }
        }
    }
}

} // verus!
