use vstd::prelude::*;
use crate::mask::{MaskV, NodeMask, mask_all, mask_union};
use crate::node::{AttrValueV, NodeType, NodeTypeV};
use crate::passes::{DescV, PassDescriptor, PassV, ResolvedPass, descs_of, has_id, resolved_ok, resolve_passes};
use crate::schedule::{schedule_ok, stuck_set, build_schedule};

verus! {

/// Identifier of a node: an index into the engine's node slab.
pub type NodeId = usize;

/// The identifier of the root node, created at construction.
pub const ROOT_ID: NodeId = 0;

/// Ghost model of one node.
#[verifier::ext_equal]
pub struct NodeV {
    pub ty: NodeTypeV,
    pub parent: Option<NodeId>,
    pub children: Seq<NodeId>,
    /// Distance from the root (0 for the root and for detached nodes).
    pub height: usize,
    /// One derived-value slot per registered pass.
    pub states: Seq<Option<u64>>,
    /// Which passes must recompute this node in the next cycle.
    pub dirty: Seq<bool>,
    /// The accumulated mask of raw mutations since the last cycle.
    pub dirty_mask: Option<MaskV>,
}

/// Ghost model of the whole dom.
#[verifier::ext_equal]
pub struct DomV {
    pub nodes: Seq<Option<NodeV>>,
    /// The reverse listener index: event name to listening nodes, in
    /// registration order; event names are unique.
    pub listeners: Seq<(Seq<char>, Seq<NodeId>)>,
    pub passes: Seq<PassV>,
    /// A dependency-respecting order over pass indices.
    pub schedule: Seq<usize>,
    /// The accumulated change masks of nodes removed since the last
    /// drain, in removal order; the next cycle returns and clears them.
    pub removed: Seq<(NodeId, MaskV)>,
}

/// Payload well-formedness: element attribute names and listener names
/// are unique.
pub open spec fn payload_ok(ty: NodeTypeV) -> bool {
    match ty {
        NodeTypeV::Element(e) => attr_names(e.attrs).no_duplicates() && e.listeners.no_duplicates(),
        _ => true,
    }
}

/// The names of an attribute list, in order.
pub open spec fn attr_names(attrs: Seq<(Seq<char>, AttrValueV)>) -> Seq<Seq<char>> {
    attrs.map_values(|p: (Seq<char>, AttrValueV)| p.0)
}

/// Identifiers of the registered passes are unique.
pub open spec fn pass_ids_unique(descs: Seq<DescV>) -> bool {
    forall|i: int, j: int| 0 <= i < j < descs.len() ==> descs[i].id != descs[j].id
}

impl DomV {
    pub open spec fn existing(self, id: NodeId) -> bool {
        id < self.nodes.len() && self.nodes[id as int] is Some
    }

    pub open spec fn node(self, id: NodeId) -> NodeV {
        self.nodes[id as int]->Some_0
    }

    pub open spec fn n_passes(self) -> int {
        self.passes.len() as int
    }

    /// The model with node `id` replaced.
    pub open spec fn with_node(self, id: NodeId, n: NodeV) -> DomV {
        DomV { nodes: self.nodes.update(id as int, Some(n)), ..self }
    }

    /// Per-node well-formedness: tree links are coherent and the state
    /// slots match the pass count.
    pub open spec fn node_ok(self, id: NodeId) -> bool {
        let n = self.node(id);
        &&& match n.parent {
            Option::Some(p) => {
                &&& self.existing(p)
                &&& n.height == self.node(p).height + 1
                &&& self.node(p).children.contains(id)
            },
            Option::None => n.height == 0,
        }
        &&& n.children.no_duplicates()
        &&& (forall|k: int| #![trigger n.children[k]]
            0 <= k < n.children.len() ==> self.existing(n.children[k]) && self.node(
                n.children[k],
            ).parent == Option::Some(id))
        &&& n.states.len() == self.passes.len()
        &&& n.dirty.len() == self.passes.len()
        &&& payload_ok(n.ty)
    }

    /// Staged removed-node masks name distinct, no-longer-existing slots.
    pub open spec fn removed_ok(self) -> bool {
        &&& (forall|i: int|
            0 <= i < self.removed.len() ==> (#[trigger] self.removed[i]).0 < self.nodes.len()
                && !self.existing(self.removed[i].0))
        &&& (forall|i: int, j: int|
            0 <= i < j < self.removed.len() ==> (#[trigger] self.removed[i]).0 != (
            #[trigger] self.removed[j]).0)
    }

    pub open spec fn listeners_ok(self) -> bool {
        &&& (forall|i: int, j: int|
            0 <= i < j < self.listeners.len() ==> (#[trigger] self.listeners[i]).0 != (
            #[trigger] self.listeners[j]).0)
        &&& (forall|i: int|
            0 <= i < self.listeners.len() ==> (#[trigger] self.listeners[i]).1.no_duplicates())
        &&& (forall|i: int, k: int|
            0 <= i < self.listeners.len() && 0 <= k < self.listeners[i].1.len() ==> self.existing(
                #[trigger] self.listeners[i].1[k],
            ))
    }

    /// The engine's invariant: a root exists, every node's links are
    /// coherent, the listener index names existing nodes, and the pass
    /// table carries exactly the declared dependant edges under a
    /// dependency-respecting schedule.
    pub open spec fn wf(self) -> bool {
        &&& 1 <= self.nodes.len()
        &&& self.existing(ROOT_ID)
        &&& self.node(ROOT_ID).parent is None
        &&& (forall|id: NodeId| self.existing(id) ==> #[trigger] self.node_ok(id))
        &&& self.listeners_ok()
        &&& self.removed_ok()
        &&& resolved_ok(self.passes)
        &&& schedule_ok(descs_of(self.passes), self.schedule)
        &&& pass_ids_unique(descs_of(self.passes))
    }
}

/// One slab entry.
pub struct NodeData {
    pub ty: NodeType,
    pub parent: Option<NodeId>,
    pub children: Vec<NodeId>,
    pub height: usize,
    pub states: Vec<Option<u64>>,
    pub dirty: Vec<bool>,
    pub dirty_mask: Option<NodeMask>,
}

impl View for NodeData {
    type V = NodeV;

    open spec fn view(&self) -> NodeV {
        NodeV {
            ty: self.ty@,
            parent: self.parent,
            children: self.children@,
            height: self.height,
            states: self.states@,
            dirty: self.dirty@,
            dirty_mask: match self.dirty_mask {
                Option::Some(ref m) => Option::Some(m@),
                Option::None => Option::None,
            },
        }
    }
}

/// The value of a slab slot.
pub open spec fn slot_view(o: Option<NodeData>) -> Option<NodeV> {
    match o {
        Option::Some(nd) => Option::Some(nd@),
        Option::None => Option::None,
    }
}

/// The value of a listener-index entry.
pub open spec fn listener_entry_view(p: (String, Vec<NodeId>)) -> (Seq<char>, Seq<NodeId>) {
    (p.0@, p.1@)
}

/// The value of a staged removed-node mask.
pub open spec fn removed_entry_view(p: (NodeId, NodeMask)) -> (NodeId, MaskV) {
    (p.0, p.1@)
}

/// A tree of nodes with per-node derived-state slots, a dirty tracker,
/// and a registry of state passes; mutations go through its methods,
/// which record what the next update cycle must recompute.
///
/// The fields are public so that specifications can name them; callers
/// that bypass the methods forfeit the stated invariants.
pub struct RealDom {
    pub nodes: Vec<Option<NodeData>>,
    pub listeners: Vec<(String, Vec<NodeId>)>,
    pub passes: Vec<ResolvedPass>,
    pub schedule: Vec<usize>,
    /// The accumulated change masks of removed nodes, staged for the
    /// next update cycle's returned map.
    pub removed_masks: Vec<(NodeId, NodeMask)>,
}

impl View for RealDom {
    type V = DomV;

    open spec fn view(&self) -> DomV {
        DomV {
            nodes: self.nodes@.map_values(|o: Option<NodeData>| slot_view(o)),
            listeners: self.listeners@.map_values(|p: (String, Vec<NodeId>)| listener_entry_view(p)),
            passes: self.passes@.map_values(|p: ResolvedPass| p@),
            schedule: self.schedule@,
            removed: self.removed_masks@.map_values(|p: (NodeId, NodeMask)| removed_entry_view(p)),
        }
    }
}

/// Why construction was refused.
pub enum BuildError {
    /// Two passes declared the same identifier.
    DuplicatePassId(u64),
    /// A pass depends on an identifier that no pass declares.
    UnknownDependency(u64),
    /// The declared dependencies are cyclic; the payload is a set of
    /// passes each of which waits on another member of the set.
    DependencyCycle(Vec<usize>),
}

/// Whether `x` is the identifier of some pass.
pub open spec fn id_known(descs: Seq<DescV>, x: u64) -> bool {
    exists|j: int| 0 <= j < descs.len() && descs[j].id == x
}

/// Whether `d` declares a dependency on identifier `x`.
pub open spec fn dep_of(d: DescV, x: u64) -> bool {
    has_id(d.parent_deps, x) || has_id(d.child_deps, x) || has_id(d.node_deps, x)
}

/// Whether some pass declares a dependency on identifier `x`.
pub open spec fn some_dep(descs: Seq<DescV>, x: u64) -> bool {
    exists|i: int| 0 <= i < descs.len() && dep_of(descs[i], x)
}

/// Whether identifiers `x` is declared twice.
pub open spec fn duplicated_id(descs: Seq<DescV>, x: u64) -> bool {
    exists|i: int, j: int| 0 <= i < j < descs.len() && descs[i].id == x && descs[j].id == x
}

/// A freshly created node: no links, every pass dirty, the full mask.
pub open spec fn fresh_node(ty: NodeTypeV, n_passes: int) -> NodeV {
    NodeV {
        ty: ty,
        parent: Option::None,
        children: Seq::empty(),
        height: 0,
        states: Seq::new(n_passes as nat, |p: int| Option::None),
        dirty: Seq::new(n_passes as nat, |p: int| true),
        dirty_mask: Option::Some(mask_all()),
    }
}

/// The node with the dirty records that a raw mutation under `mask` adds:
/// every pass whose read mask overlaps it becomes dirty, and the mask is
/// merged into the accumulated one.
pub open spec fn dirty_marked(m: DomV, id: NodeId, mask: MaskV) -> NodeV {
    let n = m.node(id);
    NodeV {
        dirty: Seq::new(n.dirty.len(), |p: int| n.dirty[p] || m.passes[p].desc.mask.overlaps(mask)),
        dirty_mask: match n.dirty_mask {
            Option::None => Option::Some(mask),
            Option::Some(acc) => Option::Some(mask_union(acc, mask)),
        },
        ..n
    }
}

/// The node with every pass that has a parent dependency marked dirty.
pub open spec fn parent_marked(m: DomV, id: NodeId) -> NodeV {
    let n = m.node(id);
    NodeV {
        dirty: Seq::new(n.dirty.len(), |p: int| n.dirty[p] || m.passes[p].desc.parent_deps.len() > 0),
        ..n
    }
}

/// The node with every pass that has a child dependency marked dirty.
pub open spec fn child_marked(m: DomV, id: NodeId) -> NodeV {
    let n = m.node(id);
    NodeV {
        dirty: Seq::new(n.dirty.len(), |p: int| n.dirty[p] || m.passes[p].desc.child_deps.len() > 0),
        ..n
    }
}

/// The first position of `x` in `s`, or -1 when absent.
pub open spec fn first_index<A>(s: Seq<A>, x: A) -> int
    decreases s.len(),
{
    if s.len() == 0 {
        -1
    } else if s[0] == x {
        0
    } else {
        let r = first_index(s.drop_first(), x);
        if r == -1 {
            -1
        } else {
            r + 1
        }
    }
}

pub proof fn lemma_first_index<A>(s: Seq<A>, x: A)
    ensures
        first_index(s, x) == -1 ==> !s.contains(x),
        first_index(s, x) != -1 ==> {
            &&& 0 <= first_index(s, x) < s.len()
            &&& s[first_index(s, x)] == x
            &&& forall|j: int| 0 <= j < first_index(s, x) ==> s[j] != x
        },
    decreases s.len(),
{
    if s.len() > 0 && s[0] != x {
        lemma_first_index(s.drop_first(), x);
        let r = first_index(s.drop_first(), x);
        if r == -1 {
            assert forall|j: int| 0 <= j < s.len() implies s[j] != x by {
                if j > 0 {
                    assert(s.drop_first()[j - 1] == s[j]);
                    assert(!s.drop_first().contains(x));
                }
            }
            if s.contains(x) {
                let j = choose|j: int| 0 <= j < s.len() && s[j] == x;
            }
        } else {
            assert(s.drop_first()[r] == s[r + 1]);
            assert forall|j: int| 0 <= j < r + 1 implies s[j] != x by {
                if j > 0 {
                    assert(s.drop_first()[j - 1] == s[j]);
                }
            }
        }
    }
}

/// The first `p` dirty bits carry the overlap marks for `mask`.
pub open spec fn mask_marks_upto(d: Seq<bool>, d0: Seq<bool>, passes: Seq<PassV>, mask: MaskV, p: int) -> bool {
    forall|q: int| 0 <= q < p ==> d[q] == (d0[q] || passes[q].desc.mask.overlaps(mask))
}

/// The first `p` dirty bits carry the child-dependency marks.
pub open spec fn child_marks_upto(d: Seq<bool>, d0: Seq<bool>, passes: Seq<PassV>, p: int) -> bool {
    forall|q: int| 0 <= q < p ==> d[q] == (d0[q] || passes[q].desc.child_deps.len() > 0)
}

/// The first `p` dirty bits carry the parent-dependency marks.
pub open spec fn parent_marks_upto(d: Seq<bool>, d0: Seq<bool>, passes: Seq<PassV>, p: int) -> bool {
    forall|q: int| 0 <= q < p ==> d[q] == (d0[q] || passes[q].desc.parent_deps.len() > 0)
}

/// Replacing a node without touching its links or slot counts keeps the
/// whole dom well formed.
pub proof fn lemma_with_node_same_links(m: DomV, id: NodeId, n: NodeV)
    requires
        m.wf(),
        m.existing(id),
        n.parent == m.node(id).parent,
        n.children == m.node(id).children,
        n.height == m.node(id).height,
        n.states.len() == m.passes.len(),
        n.dirty.len() == m.passes.len(),
        payload_ok(n.ty),
    ensures
        m.with_node(id, n).wf(),
{
    let m2 = m.with_node(id, n);
    assert forall|x: NodeId| m2.existing(x) implies #[trigger] m2.node_ok(x) by {
        assert(m.existing(x));
        assert(m.node_ok(x));
        assert(m2.node(x).parent == m.node(x).parent);
        assert(m2.node(x).children == m.node(x).children);
        assert(m2.node(x).height == m.node(x).height);
        match m2.node(x).parent {
            Option::Some(p) => {
                assert(m2.existing(p));
                assert(m2.node(p).height == m.node(p).height);
            },
            Option::None => {},
        }
        assert forall|k: int|
            0 <= k < m2.node(x).children.len() implies m2.existing(#[trigger] m2.node(x).children[k])
            && m2.node(m2.node(x).children[k]).parent == Option::Some(x) by {
            assert(m.node(x).children[k] == m2.node(x).children[k]);
            assert(m.existing(m.node(x).children[k]));
        }
    }
    assert(m2.listeners_ok()) by {
        assert forall|i: int, k: int|
            0 <= i < m2.listeners.len() && 0 <= k < m2.listeners[i].1.len() implies m2.existing(
            #[trigger] m2.listeners[i].1[k]) by {
            assert(m.existing(m.listeners[i].1[k]));
        }
    }
    assert(m2.removed_ok()) by {
        assert forall|i: int|
            0 <= i < m2.removed.len() implies (#[trigger] m2.removed[i]).0 < m2.nodes.len()
            && !m2.existing(m2.removed[i].0) by {
            assert(!m.existing(m.removed[i].0));
        }
    }
}

impl RealDom {
    /// The identifier of the root node.
    pub fn root_id(&self) -> (id: NodeId)
        ensures
            id == ROOT_ID,
    {
        ROOT_ID
    }

    /// Whether a node with this identifier exists.
    pub fn contains(&self, id: NodeId) -> (r: bool)
        ensures
            r == self@.existing(id),
    {
        id < self.nodes.len() && self.nodes[id].is_some()
    }

    /// The height of a node: its distance from the root.  Absent nodes
    /// have no height.
    pub fn height(&self, id: NodeId) -> (r: Option<usize>)
        ensures
            r == if self@.existing(id) {
                Option::Some(self@.node(id).height)
            } else {
                Option::<usize>::None
            },
    {
        if id < self.nodes.len() {
            match &self.nodes[id] {
                Option::Some(nd) => Option::Some(nd.height),
                Option::None => Option::None,
            }
        } else {
            Option::None
        }
    }

    /// The parent of a node, if the node exists and has one.
    pub fn parent_id(&self, id: NodeId) -> (r: Option<NodeId>)
        ensures
            r == if self@.existing(id) {
                self@.node(id).parent
            } else {
                Option::<NodeId>::None
            },
    {
        if id < self.nodes.len() {
            match &self.nodes[id] {
                Option::Some(nd) => nd.parent,
                Option::None => Option::None,
            }
        } else {
            Option::None
        }
    }

    /// The ordered children of a node; empty for an absent node.
    pub fn child_ids(&self, id: NodeId) -> (r: Vec<NodeId>)
        ensures
            r@ == if self@.existing(id) {
                self@.node(id).children
            } else {
                Seq::<NodeId>::empty()
            },
    {
        if id < self.nodes.len() {
            match &self.nodes[id] {
                Option::Some(nd) => clone_ids(&nd.children),
                Option::None => Vec::new(),
            }
        } else {
            Vec::new()
        }
    }

    /// A view of a whole node record, when the node exists.
    pub fn get(&self, id: NodeId) -> (r: Option<&NodeData>)
        ensures
            match r {
                Option::Some(nd) => self@.existing(id) && nd@ == self@.node(id),
                Option::None => !self@.existing(id),
            },
    {
        if id < self.nodes.len() {
            match &self.nodes[id] {
                Option::Some(nd) => Option::Some(nd),
                Option::None => Option::None,
            }
        } else {
            Option::None
        }
    }

    /// A view of the payload of a node.
    pub fn node_type(&self, id: NodeId) -> (r: Option<&NodeType>)
        ensures
            match r {
                Option::Some(t) => self@.existing(id) && t@ == self@.node(id).ty,
                Option::None => !self@.existing(id),
            },
    {
        if id < self.nodes.len() {
            match &self.nodes[id] {
                Option::Some(nd) => Option::Some(&nd.ty),
                Option::None => Option::None,
            }
        } else {
            Option::None
        }
    }

    /// The derived-state slot of a node for the pass at `pass_index`.
    pub fn get_state(&self, id: NodeId, pass_index: usize) -> (r: Option<u64>)
        ensures
            r == if self@.existing(id) && pass_index < self@.node(id).states.len() {
                self@.node(id).states[pass_index as int]
            } else {
                Option::<u64>::None
            },
    {
        if id < self.nodes.len() {
            match &self.nodes[id] {
                Option::Some(nd) => {
                    if pass_index < nd.states.len() {
                        nd.states[pass_index]
                    } else {
                        Option::None
                    }
                },
                Option::None => Option::None,
            }
        } else {
            Option::None
        }
    }

    /// The passes marked dirty on a node, as pass indices, ascending.
    pub fn dirty_passes(&self, id: NodeId) -> (r: Vec<usize>)
        ensures
            forall|p: usize|
                r@.contains(p) == (self@.existing(id) && p < self@.node(id).dirty.len()
                    && self@.node(id).dirty[p as int]),
            r@.no_duplicates(),
    {
        let mut r: Vec<usize> = Vec::new();
        if id < self.nodes.len() {
            match &self.nodes[id] {
                Option::Some(nd) => {
                    let mut p: usize = 0;
                    while p < nd.dirty.len()
                        invariant
                            p <= nd.dirty@.len(),
                            forall|i: int, j: int| 0 <= i < j < r@.len() ==> r@[i] < r@[j],
                            forall|i: int| 0 <= i < r@.len() ==> r@[i] < p,
                            forall|x: usize|
                                x < p ==> (r@.contains(x) == nd.dirty@[x as int]),
                        decreases nd.dirty@.len() - p,
                    {
                        if nd.dirty[p] {
                            let ghost old_r = r@;
                            r.push(p);
                            proof {
                                assert(r@[r@.len() - 1] == p);
                                assert forall|x: usize| x < p + 1 implies (r@.contains(x)
                                    == nd.dirty@[x as int]) by {
                                    if x < p {
                                        if old_r.contains(x) {
                                            let k = choose|k: int|
                                                0 <= k < old_r.len() && old_r[k] == x;
                                            assert(r@[k] == x);
                                        }
                                        if r@.contains(x) {
                                            let k = choose|k: int| 0 <= k < r@.len() && r@[k] == x;
                                            assert(k < old_r.len());
                                            assert(old_r.contains(x));
                                        }
                                    }
                                }
                            }
                        } else {
                            proof {
                                assert forall|x: usize| x < p + 1 implies (r@.contains(x)
                                    == nd.dirty@[x as int]) by {
                                    if x == p && r@.contains(x) {
                                        let k = choose|k: int| 0 <= k < r@.len() && r@[k] == x;
                                        assert(r@[k] < p);
                                    }
                                }
                            }
                        }
                        p += 1;
                    }
                    proof {
                        assert(r@.no_duplicates()) by {
                            assert forall|i: int, j: int|
                                0 <= i < j < r@.len() implies r@[i] != r@[j] by {
                                assert(r@[i] < r@[j]);
                            }
                        }
                        assert forall|x: usize| r@.contains(x) implies x
                            < self@.node(id).dirty.len() by {
                            assert(r@.contains(x) == nd.dirty@[x as int]);
                        }
                    }
                },
                Option::None => {},
            }
        }
        r
    }

    /// The number of registered passes.
    pub fn pass_count(&self) -> (n: usize)
        ensures
            n == self@.passes.len(),
    {
        self.passes.len()
    }

    /// The identifier of the pass at a schedule-independent index.
    pub fn pass_id_at(&self, pass_index: usize) -> (r: Option<u64>)
        ensures
            r == if pass_index < self@.passes.len() {
                Option::Some(self@.passes[pass_index as int].desc.id)
            } else {
                Option::<u64>::None
            },
    {
        if pass_index < self.passes.len() {
            Option::Some(self.passes[pass_index].desc.id)
        } else {
            Option::None
        }
    }
}

/// Copy a list of identifiers.
pub(crate) fn clone_ids(v: &Vec<NodeId>) -> (r: Vec<NodeId>)
    ensures
        r@ == v@,
{
    let mut r: Vec<NodeId> = Vec::new();
    let mut i: usize = 0;
    while i < v.len()
        invariant
            i <= v@.len(),
            r@ == v@.take(i as int),
        decreases v@.len() - i,
    {
        r.push(v[i]);
        proof {
            assert(v@.take(i + 1) =~= v@.take(i as int).push(v@[i as int]));
        }
        i += 1;
    }
    proof {
        assert(v@.take(v@.len() as int) =~= v@);
    }
    r
}

/// Appending a fresh, link-free node keeps the dom well formed.
pub proof fn lemma_wf_push(m: DomV, n: NodeV)
    requires
        m.wf(),
        n.parent is None,
        n.children == Seq::<NodeId>::empty(),
        n.height == 0,
        n.states.len() == m.passes.len(),
        n.dirty.len() == m.passes.len(),
        payload_ok(n.ty),
    ensures
        (DomV { nodes: m.nodes.push(Some(n)), ..m }).wf(),
{
    let m2 = DomV { nodes: m.nodes.push(Some(n)), ..m };
    assert(m2.existing(ROOT_ID));
    assert(m2.node(ROOT_ID) == m.node(ROOT_ID));
    assert forall|x: NodeId| m2.existing(x) implies #[trigger] m2.node_ok(x) by {
        if x < m.nodes.len() {
            assert(m.existing(x));
            assert(m.node_ok(x));
            assert(m2.node(x) == m.node(x));
            match m2.node(x).parent {
                Option::Some(p) => {
                    assert(m.existing(p));
                    assert(m2.node(p) == m.node(p));
                },
                Option::None => {},
            }
            assert forall|k: int|
                0 <= k < m2.node(x).children.len() implies m2.existing(
                #[trigger] m2.node(x).children[k]) && m2.node(m2.node(x).children[k]).parent
                == Option::Some(x) by {
                assert(m.existing(m.node(x).children[k]));
                assert(m2.node(m.node(x).children[k]) == m.node(m.node(x).children[k]));
            }
        } else {
            assert(m2.node(x) == n);
        }
    }
    assert(m2.listeners_ok()) by {
        assert forall|i: int, k: int|
            0 <= i < m2.listeners.len() && 0 <= k < m2.listeners[i].1.len() implies m2.existing(
            #[trigger] m2.listeners[i].1[k]) by {
            assert(m.existing(m.listeners[i].1[k]));
        }
    }
    assert(m2.removed_ok()) by {
        assert forall|i: int|
            0 <= i < m2.removed.len() implies (#[trigger] m2.removed[i]).0 < m2.nodes.len()
            && !m2.existing(m2.removed[i].0) by {
            assert(!m.existing(m.removed[i].0));
            assert(m.removed[i].0 < m.nodes.len());
        }
    }
}

/// The payload of the root node: an element with the root tag.
pub open spec fn root_payload() -> NodeTypeV {
    NodeTypeV::Element(
        crate::node::ElementV {
            tag: "Root"@,
            attrs: Seq::empty(),
            listeners: Seq::empty(),
        },
    )
}

fn id_known_exec(descriptors: &Vec<PassDescriptor>, x: u64) -> (r: bool)
    ensures
        r == id_known(descriptors@.map_values(|d: PassDescriptor| d@), x),
{
    let ghost dv = descriptors@.map_values(|d: PassDescriptor| d@);
    let mut j: usize = 0;
    while j < descriptors.len()
        invariant
            j <= dv.len(),
            dv == descriptors@.map_values(|d: PassDescriptor| d@),
            forall|k: int| 0 <= k < j ==> dv[k].id != x,
        decreases dv.len() - j,
    {
        if descriptors[j].id == x {
            assert(dv[j as int].id == x);
            return true;
        }
        j += 1;
    }
    false
}

impl RealDom {
    /// Mark a node dirty for every pass whose read mask overlaps `mask`,
    /// and merge `mask` into the node's accumulated change mask.
    pub(crate) fn mark_dirty(&mut self, id: NodeId, mask: &NodeMask)
        requires
            old(self)@.wf(),
            old(self)@.existing(id),
        ensures
            final(self)@ == old(self)@.with_node(id, dirty_marked(old(self)@, id, mask@)),
            final(self)@.wf(),
    {
        let ghost m0 = self@;
        let mut nd = self.nodes[id].take().unwrap();
        proof {
            assert(nd@ == m0.node(id));
            assert(m0.node_ok(id));
        }
        let ghost nd0 = nd@;
        let n = self.passes.len();
        let mut p: usize = 0;
        while p < n
            invariant
                p <= n,
                n == m0.passes.len(),
                self@.passes == m0.passes,
                nd@.dirty.len() == n,
                nd0.dirty.len() == n,
                mask_marks_upto(nd@.dirty, nd0.dirty, m0.passes, mask@, p as int),
                forall|q: int| p <= q < n ==> nd@.dirty[q] == nd0.dirty[q],
                nd@.ty == nd0.ty,
                nd@.parent == nd0.parent,
                nd@.children == nd0.children,
                nd@.height == nd0.height,
                nd@.states == nd0.states,
                nd@.dirty_mask == nd0.dirty_mask,
                self.passes@.map_values(|rp: ResolvedPass| rp@) == m0.passes,
            decreases n - p,
        {
            proof {
                assert(m0.passes[p as int] == self.passes@[p as int]@);
            }
            let ov = self.passes[p].desc.mask.overlaps(mask);
            proof {
                assert(ov == m0.passes[p as int].desc.mask.overlaps(mask@));
            }
            let b = nd.dirty[p];
            let ghost prev = nd@.dirty;
            nd.dirty[p] = b || ov;
            proof {
                assert(nd@.dirty == prev.update(p as int, b || ov));
                assert(mask_marks_upto(nd@.dirty, nd0.dirty, m0.passes, mask@, p + 1)) by {
                    assert forall|q: int| 0 <= q < p + 1 implies nd@.dirty[q] == (nd0.dirty[q]
                        || m0.passes[q].desc.mask.overlaps(mask@)) by {
                        if q < p {
                            assert(nd@.dirty[q] == prev[q]);
                            assert(mask_marks_upto(prev, nd0.dirty, m0.passes, mask@, p as int));
                            assert(prev[q] == (nd0.dirty[q]
                                || m0.passes[q].desc.mask.overlaps(mask@)));
                        } else {
                            assert(nd@.dirty[q] == (b || ov));
                        }
                    }
                }
            }
            p += 1;
        }
        let acc = nd.dirty_mask.take();
        match acc {
            Option::Some(a) => {
                nd.dirty_mask = Option::Some(a.union(mask));
            },
            Option::None => {
                nd.dirty_mask = Option::Some(mask.clone_mask());
            },
        }
        self.nodes[id] = Some(nd);
        proof {
            let target = dirty_marked(m0, id, mask@);
            assert(mask_marks_upto(nd@.dirty, nd0.dirty, m0.passes, mask@, n as int));
            assert forall|q: int| 0 <= q < n implies nd@.dirty[q] == target.dirty[q] by {
                assert(nd@.dirty[q] == (nd0.dirty[q] || m0.passes[q].desc.mask.overlaps(mask@)));
            }
            assert(self@.nodes[id as int]->Some_0.dirty =~= target.dirty);
            assert(self@.nodes[id as int]->Some_0 =~= target);
            assert(self@.nodes =~= m0.with_node(id, target).nodes);
            assert(self@ =~= m0.with_node(id, target));
            lemma_with_node_same_links(m0, id, target);
        }
    }

    /// Mark a node whose parent was added or removed: every pass with a
    /// parent dependency must recompute it.
    #[verifier::rlimit(50)]
    pub(crate) fn mark_parent_added_or_removed(&mut self, id: NodeId)
        requires
            old(self)@.wf(),
            old(self)@.existing(id),
        ensures
            final(self)@ == old(self)@.with_node(id, parent_marked(old(self)@, id)),
            final(self)@.wf(),
    {
        let ghost m0 = self@;
        let mut nd = self.nodes[id].take().unwrap();
        proof {
            assert(nd@ == m0.node(id));
            assert(m0.node_ok(id));
        }
        let ghost nd0 = nd@;
        let n = self.passes.len();
        let mut p: usize = 0;
        while p < n
            invariant
                p <= n,
                n == m0.passes.len(),
                self@.passes == m0.passes,
                nd@.dirty.len() == n,
                nd0.dirty.len() == n,
                parent_marks_upto(nd@.dirty, nd0.dirty, m0.passes, p as int),
                forall|q: int| p <= q < n ==> nd@.dirty[q] == nd0.dirty[q],
                nd@.ty == nd0.ty,
                nd@.parent == nd0.parent,
                nd@.children == nd0.children,
                nd@.height == nd0.height,
                nd@.states == nd0.states,
                nd@.dirty_mask == nd0.dirty_mask,
                self.passes@.map_values(|rp: ResolvedPass| rp@) == m0.passes,
            decreases n - p,
        {
            proof {
                assert(m0.passes[p as int] == self.passes@[p as int]@);
            }
            let has_dep = self.passes[p].desc.parent_dependencies.len() > 0;
            proof {
                assert(has_dep == (m0.passes[p as int].desc.parent_deps.len() > 0));
            }
            let b = nd.dirty[p];
            let ghost prev = nd@.dirty;
            nd.dirty[p] = b || has_dep;
            proof {
                assert(nd@.dirty == prev.update(p as int, b || has_dep));
                assert(parent_marks_upto(nd@.dirty, nd0.dirty, m0.passes, p + 1)) by {
                    assert forall|q: int| 0 <= q < p + 1 implies nd@.dirty[q] == (nd0.dirty[q]
                        || m0.passes[q].desc.parent_deps.len() > 0) by {
                        if q < p {
                            assert(nd@.dirty[q] == prev[q]);
                            assert(parent_marks_upto(prev, nd0.dirty, m0.passes, p as int));
                            assert(prev[q] == (nd0.dirty[q]
                                || m0.passes[q].desc.parent_deps.len() > 0));
                        } else {
                            assert(nd@.dirty[q] == (b || has_dep));
                        }
                    }
                }
            }
            p += 1;
        }
        self.nodes[id] = Some(nd);
        proof {
            let target = parent_marked(m0, id);
            assert(parent_marks_upto(nd@.dirty, nd0.dirty, m0.passes, n as int));
            assert forall|q: int| 0 <= q < n implies nd@.dirty[q] == target.dirty[q] by {
                assert(nd@.dirty[q] == (nd0.dirty[q] || m0.passes[q].desc.parent_deps.len() > 0));
            }
            assert(self@.nodes[id as int]->Some_0.dirty =~= target.dirty);
            assert(self@.nodes[id as int]->Some_0 =~= target);
            assert(self@.nodes =~= m0.with_node(id, target).nodes);
            assert(self@ =~= m0.with_node(id, target));
            lemma_with_node_same_links(m0, id, target);
        }
    }

    /// Mark a node that had a child added or removed: every pass with a
    /// child dependency must recompute it.
    pub(crate) fn mark_child_changed(&mut self, id: NodeId)
        requires
            old(self)@.wf(),
            old(self)@.existing(id),
        ensures
            final(self)@ == old(self)@.with_node(id, child_marked(old(self)@, id)),
            final(self)@.wf(),
    {
        let ghost m0 = self@;
        let mut nd = self.nodes[id].take().unwrap();
        proof {
            assert(nd@ == m0.node(id));
            assert(m0.node_ok(id));
        }
        let ghost nd0 = nd@;
        let n = self.passes.len();
        let mut p: usize = 0;
        while p < n
            invariant
                p <= n,
                n == m0.passes.len(),
                self@.passes == m0.passes,
                nd@.dirty.len() == n,
                nd0.dirty.len() == n,
                child_marks_upto(nd@.dirty, nd0.dirty, m0.passes, p as int),
                forall|q: int| p <= q < n ==> nd@.dirty[q] == nd0.dirty[q],
                nd@.ty == nd0.ty,
                nd@.parent == nd0.parent,
                nd@.children == nd0.children,
                nd@.height == nd0.height,
                nd@.states == nd0.states,
                nd@.dirty_mask == nd0.dirty_mask,
                self.passes@.map_values(|rp: ResolvedPass| rp@) == m0.passes,
            decreases n - p,
        {
            proof {
                assert(m0.passes[p as int] == self.passes@[p as int]@);
            }
            let has_dep = self.passes[p].desc.child_dependencies.len() > 0;
            proof {
                assert(has_dep == (m0.passes[p as int].desc.child_deps.len() > 0));
            }
            let b = nd.dirty[p];
            let ghost prev = nd@.dirty;
            nd.dirty[p] = b || has_dep;
            proof {
                assert(nd@.dirty == prev.update(p as int, b || has_dep));
                assert(child_marks_upto(nd@.dirty, nd0.dirty, m0.passes, p + 1)) by {
                    assert forall|q: int| 0 <= q < p + 1 implies nd@.dirty[q] == (nd0.dirty[q]
                        || m0.passes[q].desc.child_deps.len() > 0) by {
                        if q < p {
                            assert(nd@.dirty[q] == prev[q]);
                            assert(child_marks_upto(prev, nd0.dirty, m0.passes, p as int));
                            assert(prev[q] == (nd0.dirty[q]
                                || m0.passes[q].desc.child_deps.len() > 0));
                        } else {
                            assert(nd@.dirty[q] == (b || has_dep));
                        }
                    }
                }
            }
            p += 1;
        }
        self.nodes[id] = Some(nd);
        proof {
            let target = child_marked(m0, id);
            assert(child_marks_upto(nd@.dirty, nd0.dirty, m0.passes, n as int));
            assert forall|q: int| 0 <= q < n implies nd@.dirty[q] == target.dirty[q] by {
                assert(nd@.dirty[q] == (nd0.dirty[q] || m0.passes[q].desc.child_deps.len() > 0));
            }
            assert(self@.nodes[id as int]->Some_0.dirty =~= target.dirty);
            assert(self@.nodes[id as int]->Some_0 =~= target);
            assert(self@.nodes =~= m0.with_node(id, target).nodes);
            assert(self@ =~= m0.with_node(id, target));
            lemma_with_node_same_links(m0, id, target);
        }
    }

    /// Create a fresh node with the given payload.  The node starts
    /// detached, dirty for every registered pass, with the full mask, so
    /// that its first update cycle computes every derived state.
    pub fn create_node(&mut self, ty: NodeType) -> (id: NodeId)
        requires
            old(self)@.wf(),
            payload_ok(ty@),
        ensures
            final(self)@.wf(),
            id == old(self)@.nodes.len(),
            final(self)@.nodes == old(self)@.nodes.push(
                Some(fresh_node(ty@, old(self)@.n_passes())),
            ),
            final(self)@.existing(id),
            final(self)@.node(id) == fresh_node(ty@, old(self)@.n_passes()),
            final(self)@.listeners == old(self)@.listeners,
            final(self)@.passes == old(self)@.passes,
            final(self)@.schedule == old(self)@.schedule,
            final(self)@.removed == old(self)@.removed,
    {
        let ghost m0 = self@;
        let id = self.nodes.len();
        let n = self.passes.len();
        let mut states: Vec<Option<u64>> = Vec::new();
        let mut dirty: Vec<bool> = Vec::new();
        let mut p: usize = 0;
        while p < n
            invariant
                p <= n,
                states@.len() == p,
                dirty@.len() == p,
                forall|q: int| 0 <= q < p ==> states@[q] is None,
                forall|q: int| 0 <= q < p ==> dirty@[q],
            decreases n - p,
        {
            states.push(Option::None);
            dirty.push(true);
            p += 1;
        }
        let nd = NodeData {
            ty,
            parent: Option::None,
            children: Vec::new(),
            height: 0,
            states,
            dirty,
            dirty_mask: Option::Some(NodeMask::all()),
        };
        let ghost ndv = nd@;
        self.nodes.push(Some(nd));
        proof {
            assert(ndv =~= fresh_node(ndv.ty, m0.n_passes())) by {
                assert(ndv.states =~= Seq::new(m0.passes.len(), |p: int| Option::<u64>::None));
                assert(ndv.dirty =~= Seq::new(m0.passes.len(), |p: int| true));
            }
            assert(self@.nodes =~= m0.nodes.push(Some(fresh_node(ndv.ty, m0.n_passes()))));
            assert(self@ =~= DomV {
                nodes: m0.nodes.push(Some(fresh_node(ndv.ty, m0.n_passes()))),
                ..m0
            });
            lemma_wf_push(m0, fresh_node(ndv.ty, m0.n_passes()));
        }
        id
    }

    /// Build an engine over the given state passes.  The passes'
    /// dependant edges are resolved, a dependency-respecting schedule is
    /// computed, and a root element is created, dirty for every pass.
    /// Construction is refused when two passes share an identifier, when
    /// a declared dependency names no pass, or when the declared
    /// dependencies are cyclic.
    pub fn new(descriptors: Vec<PassDescriptor>) -> (r: Result<RealDom, BuildError>)
        ensures
            match r {
                Result::Ok(dom) => {
                    let dv = descriptors@.map_values(|d: PassDescriptor| d@);
                    &&& dom@.wf()
                    &&& descs_of(dom@.passes) == dv
                    &&& schedule_ok(dv, dom@.schedule)
                    &&& resolved_ok(dom@.passes)
                    &&& dom@.nodes.len() == 1
                    &&& dom@.existing(ROOT_ID)
                    &&& dom@.node(ROOT_ID) == fresh_node(root_payload(), dv.len() as int)
                    &&& dom@.listeners == Seq::<(Seq<char>, Seq<NodeId>)>::empty()
                    &&& dom@.removed == Seq::<(NodeId, MaskV)>::empty()
                    &&& pass_ids_unique(dv)
                    &&& (forall|x: u64| some_dep(dv, x) ==> id_known(dv, x))
                },
                Result::Err(e) => {
                    let dv = descriptors@.map_values(|d: PassDescriptor| d@);
                    match e {
                        BuildError::DuplicatePassId(x) => duplicated_id(dv, x),
                        BuildError::UnknownDependency(x) => some_dep(dv, x) && !id_known(dv, x),
                        BuildError::DependencyCycle(s) => stuck_set(dv, s@),
                    }
                },
            },
    {
        let ghost dv = descriptors@.map_values(|d: PassDescriptor| d@);
        let n = descriptors.len();
        // Refuse duplicated identifiers.
        let mut i: usize = 0;
        while i < n
            invariant
                i <= n,
                n == dv.len(),
                dv == descriptors@.map_values(|d: PassDescriptor| d@),
                forall|a: int, b: int| 0 <= a < b < dv.len() && a < i ==> dv[a].id != dv[b].id,
            decreases n - i,
        {
            let mut j: usize = i + 1;
            while j < n
                invariant
                    i < j <= n || (i + 1 == j && j > n),
                    i < n,
                    n == dv.len(),
                    dv == descriptors@.map_values(|d: PassDescriptor| d@),
                    forall|b: int| i < b < j ==> dv[i as int].id != dv[b].id,
                decreases n - j,
            {
                if descriptors[i].id == descriptors[j].id {
                    let x = descriptors[i].id;
                    proof {
                        assert(dv[i as int].id == x && dv[j as int].id == x);
                        assert(duplicated_id(dv, x));
                    }
                    return Result::Err(BuildError::DuplicatePassId(x));
                }
                j += 1;
            }
            i += 1;
        }
        proof {
            assert(pass_ids_unique(dv));
        }
        // Refuse dependencies on identifiers that no pass declares.
        let mut i2: usize = 0;
        while i2 < n
            invariant
                i2 <= n,
                n == dv.len(),
                dv == descriptors@.map_values(|d: PassDescriptor| d@),
                forall|a: int, x: u64|
                    0 <= a < i2 && #[trigger] dep_of(dv[a], x) ==> id_known(dv, x),
            decreases n - i2,
        {
            let mut k: usize = 0;
            while k < descriptors[i2].parent_dependencies.len()
                invariant
                    i2 < n,
                    n == dv.len(),
                    dv == descriptors@.map_values(|d: PassDescriptor| d@),
                    k <= dv[i2 as int].parent_deps.len(),
                    forall|k2: int| 0 <= k2 < k ==> id_known(dv, dv[i2 as int].parent_deps[k2]),
                decreases dv[i2 as int].parent_deps.len() - k,
            {
                let x = descriptors[i2].parent_dependencies[k];
                if !id_known_exec(&descriptors, x) {
                    proof {
                        assert(has_id(dv[i2 as int].parent_deps, x));
                        assert(dep_of(dv[i2 as int], x));
                        assert(some_dep(dv, x));
                    }
                    return Result::Err(BuildError::UnknownDependency(x));
                }
                k += 1;
            }
            let mut k2: usize = 0;
            while k2 < descriptors[i2].child_dependencies.len()
                invariant
                    i2 < n,
                    n == dv.len(),
                    dv == descriptors@.map_values(|d: PassDescriptor| d@),
                    k2 <= dv[i2 as int].child_deps.len(),
                    forall|k3: int| 0 <= k3 < k2 ==> id_known(dv, dv[i2 as int].child_deps[k3]),
                decreases dv[i2 as int].child_deps.len() - k2,
            {
                let x = descriptors[i2].child_dependencies[k2];
                if !id_known_exec(&descriptors, x) {
                    proof {
                        assert(has_id(dv[i2 as int].child_deps, x));
                        assert(dep_of(dv[i2 as int], x));
                        assert(some_dep(dv, x));
                    }
                    return Result::Err(BuildError::UnknownDependency(x));
                }
                k2 += 1;
            }
            let mut k4: usize = 0;
            while k4 < descriptors[i2].node_dependencies.len()
                invariant
                    i2 < n,
                    n == dv.len(),
                    dv == descriptors@.map_values(|d: PassDescriptor| d@),
                    k4 <= dv[i2 as int].node_deps.len(),
                    forall|k5: int| 0 <= k5 < k4 ==> id_known(dv, dv[i2 as int].node_deps[k5]),
                decreases dv[i2 as int].node_deps.len() - k4,
            {
                let x = descriptors[i2].node_dependencies[k4];
                if !id_known_exec(&descriptors, x) {
                    proof {
                        assert(has_id(dv[i2 as int].node_deps, x));
                        assert(dep_of(dv[i2 as int], x));
                        assert(some_dep(dv, x));
                    }
                    return Result::Err(BuildError::UnknownDependency(x));
                }
                k4 += 1;
            }
            proof {
                assert forall|x: u64| #[trigger] dep_of(dv[i2 as int], x) implies id_known(
                    dv,
                    x,
                ) by {
                    if has_id(dv[i2 as int].parent_deps, x) {
                        let k9 = choose|k9: int|
                            0 <= k9 < dv[i2 as int].parent_deps.len() && dv[
                                i2 as int
                            ].parent_deps[k9] == x;
                        assert(id_known(dv, dv[i2 as int].parent_deps[k9]));
                    } else if has_id(dv[i2 as int].child_deps, x) {
                        let k9 = choose|k9: int|
                            0 <= k9 < dv[i2 as int].child_deps.len() && dv[
                                i2 as int
                            ].child_deps[k9] == x;
                        assert(id_known(dv, dv[i2 as int].child_deps[k9]));
                    } else {
                        let k9 = choose|k9: int|
                            0 <= k9 < dv[i2 as int].node_deps.len() && dv[
                                i2 as int
                            ].node_deps[k9] == x;
                        assert(id_known(dv, dv[i2 as int].node_deps[k9]));
                    }
                }
            }
            i2 += 1;
        }
        // Refuse cyclic dependencies; otherwise keep the computed order.
        let schedule = match build_schedule(&descriptors) {
            Result::Ok(order) => order,
            Result::Err(stuck) => {
                return Result::Err(BuildError::DependencyCycle(stuck));
            },
        };
        let passes = resolve_passes(descriptors);
        // The root node: an element, dirty for every pass.
        let mut dom = RealDom {
            nodes: Vec::new(),
            listeners: Vec::new(),
            passes,
            schedule,
            removed_masks: Vec::new(),
        };
        proof {
            assert(descs_of(dom@.passes) =~= dv) by {
                assert forall|b: int| 0 <= b < dom@.passes.len() implies descs_of(
                    dom@.passes,
                )[b] == dv[b] by {
                    assert(dom@.passes[b] == dom.passes@[b]@);
                }
            }
            assert(dom@.listeners =~= Seq::<(Seq<char>, Seq<NodeId>)>::empty());
            assert(dom@.removed =~= Seq::<(NodeId, MaskV)>::empty());
        }
        let n_passes = dom.passes.len();
        let mut states: Vec<Option<u64>> = Vec::new();
        let mut dirty: Vec<bool> = Vec::new();
        let mut p: usize = 0;
        while p < n_passes
            invariant
                p <= n_passes,
                states@.len() == p,
                dirty@.len() == p,
                forall|q: int| 0 <= q < p ==> states@[q] is None,
                forall|q: int| 0 <= q < p ==> dirty@[q],
            decreases n_passes - p,
        {
            states.push(Option::None);
            dirty.push(true);
            p += 1;
        }
        let root = NodeData {
            ty: NodeType::Element(
                crate::node::ElementNode {
                    tag: root_tag(),
                    attributes: Vec::new(),
                    listeners: Vec::new(),
                },
            ),
            parent: Option::None,
            children: Vec::new(),
            height: 0,
            states,
            dirty,
            dirty_mask: Option::Some(NodeMask::all()),
        };
        proof {
            assert(root@.ty =~= root_payload());
            assert(root@ =~= fresh_node(root_payload(), dv.len() as int)) by {
                assert(root@.states =~= Seq::new(dv.len() as nat, |p: int| Option::<u64>::None));
                assert(root@.dirty =~= Seq::new(dv.len() as nat, |p: int| true));
            }
        }
        dom.nodes.push(Some(root));
        proof {
            assert(dom@.nodes.len() == 1);
            assert(dom@.nodes[0] == Some(fresh_node(root_payload(), dv.len() as int)));
            assert(dom@.existing(ROOT_ID));
            assert(dom@.node(ROOT_ID) == fresh_node(root_payload(), dv.len() as int));
            // Well-formedness of the one-node dom.
            assert forall|id: NodeId| dom@.existing(id) implies #[trigger] dom@.node_ok(id) by {
                assert(id == 0);
                assert(attr_names(Seq::<(Seq<char>, AttrValueV)>::empty()) =~= Seq::<
                    Seq<char>,
                >::empty());
                assert(payload_ok(root_payload()));
            }
            assert(schedule_ok(descs_of(dom@.passes), dom@.schedule));
            assert(dom@.wf());
        }
        Result::Ok(dom)
    }
}

/// The tag of the root element.
fn root_tag() -> (r: String)
    ensures
        r@ == "Root"@,
{
    let r = "Root";
    r.to_owned()
}

} // verus!
