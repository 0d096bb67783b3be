use vstd::prelude::*;
use crate::mask::{MaskV, NodeMask};

verus! {

/// The identifier a caller gives to a state pass; identifiers are unique
/// across the passes handed to the engine.
pub type PassId = u64;

/// The traversal direction a pass needs: whether a node's value is read
/// from its parent, from its children, or from neither.
#[derive(Clone, Copy, PartialEq, Eq, Structural)]
pub enum PassDirection {
    ParentToChild,
    ChildToParent,
    AnyOrder,
}

/// Ghost model of a pass description.
#[verifier::ext_equal]
pub struct DescV {
    pub id: PassId,
    pub mask: MaskV,
    pub parent_deps: Seq<PassId>,
    pub child_deps: Seq<PassId>,
    pub node_deps: Seq<PassId>,
    pub direction: PassDirection,
}

/// Ghost model of a pass after dependant resolution: the description plus
/// the reverse edges, as indices into the pass list.
#[verifier::ext_equal]
pub struct PassV {
    pub desc: DescV,
    /// Passes to refresh on a node's parent when this pass changes on the node.
    pub dep_parent: Seq<usize>,
    /// Passes to refresh on a node's children when this pass changes on the node.
    pub dep_child: Seq<usize>,
    /// Passes to refresh on the node itself when this pass changes on it.
    pub dep_node: Seq<usize>,
}

/// Describes one derived state: its identifier, the categories of node
/// data it reads, the passes it depends on via the parent, children and
/// same-node relations, and its traversal direction.
pub struct PassDescriptor {
    pub id: PassId,
    pub mask: NodeMask,
    pub parent_dependencies: Vec<PassId>,
    pub child_dependencies: Vec<PassId>,
    pub node_dependencies: Vec<PassId>,
    pub direction: PassDirection,
}

impl View for PassDescriptor {
    type V = DescV;

    open spec fn view(&self) -> DescV {
        DescV {
            id: self.id,
            mask: self.mask@,
            parent_deps: self.parent_dependencies@,
            child_deps: self.child_dependencies@,
            node_deps: self.node_dependencies@,
            direction: self.direction,
        }
    }
}

/// A pass with its resolved dependant edges.  The fields are public so
/// that specifications can speak about them; they are filled once at
/// construction and read-only afterwards.
pub struct ResolvedPass {
    pub desc: PassDescriptor,
    pub dep_parent: Vec<usize>,
    pub dep_child: Vec<usize>,
    pub dep_node: Vec<usize>,
}

impl View for ResolvedPass {
    type V = PassV;

    open spec fn view(&self) -> PassV {
        PassV {
            desc: self.desc@,
            dep_parent: self.dep_parent@,
            dep_child: self.dep_child@,
            dep_node: self.dep_node@,
        }
    }
}

/// Whether a list of identifiers holds `x`.
pub open spec fn has_id(s: Seq<PassId>, x: PassId) -> bool {
    s.contains(x)
}

pub(crate) fn contains_id(v: &Vec<PassId>, x: PassId) -> (b: bool)
    ensures
        b == has_id(v@, x),
{
    let mut i: usize = 0;
    while i < v.len()
        invariant
            0 <= i <= v@.len(),
            forall|j: int| 0 <= j < i ==> v@[j] != x,
        decreases v@.len() - i,
    {
        if v[i] == x {
            assert(has_id(v@, x));
            return true;
        }
        i += 1;
    }
    assert(!has_id(v@, x));
    false
}

/// When pass `b` changes on a node, must pass `a` be refreshed on the
/// node's children in the next cycle?  Yes when `a` declares a parent
/// dependency on `b`'s state, and for a parent-to-child pass on itself.
pub open spec fn child_edge(descs: Seq<DescV>, a: int, b: int) -> bool {
    if a == b {
        descs[a].direction is ParentToChild
    } else {
        has_id(descs[a].parent_deps, descs[b].id)
    }
}

/// When pass `b` changes on a node, must pass `a` be refreshed on the
/// node's parent in the next cycle?
pub open spec fn parent_edge(descs: Seq<DescV>, a: int, b: int) -> bool {
    if a == b {
        descs[a].direction is ChildToParent
    } else {
        has_id(descs[a].child_deps, descs[b].id)
    }
}

/// When pass `b` changes on a node, must pass `a` (another pass) be
/// refreshed on the same node in the next cycle?
pub open spec fn node_edge(descs: Seq<DescV>, a: int, b: int) -> bool {
    a != b && has_id(descs[a].node_deps, descs[b].id)
}

/// The descriptions of a resolved pass list.
pub open spec fn descs_of(passes: Seq<PassV>) -> Seq<DescV> {
    passes.map_values(|p: PassV| p.desc)
}

/// Whether the dependant edges recorded in `passes` are exactly the ones
/// the descriptions call for.
pub open spec fn resolved_ok(passes: Seq<PassV>) -> bool {
    let descs = descs_of(passes);
    forall|b: int| #![trigger passes[b]] 0 <= b < passes.len() ==> {
        &&& passes[b].dep_child.no_duplicates()
        &&& passes[b].dep_parent.no_duplicates()
        &&& passes[b].dep_node.no_duplicates()
        &&& (forall|a: usize| passes[b].dep_child.contains(a) ==> a < passes.len())
        &&& (forall|a: usize| passes[b].dep_parent.contains(a) ==> a < passes.len())
        &&& (forall|a: usize| passes[b].dep_node.contains(a) ==> a < passes.len())
        &&& (forall|a: usize| a < passes.len() ==> (passes[b].dep_child.contains(a) == child_edge(descs, a as int, b)))
        &&& (forall|a: usize| a < passes.len() ==> (passes[b].dep_parent.contains(a) == parent_edge(descs, a as int, b)))
        &&& (forall|a: usize| a < passes.len() ==> (passes[b].dep_node.contains(a) == node_edge(descs, a as int, b)))
    }
}

enum EdgeKind {
    Parent,
    Child,
    Node,
}

impl EdgeKind {
    spec fn spec_edge(&self, descs: Seq<DescV>, a: int, b: int) -> bool {
        match self {
            EdgeKind::Parent => parent_edge(descs, a, b),
            EdgeKind::Child => child_edge(descs, a, b),
            EdgeKind::Node => node_edge(descs, a, b),
        }
    }
}

fn edge_exec(kind: &EdgeKind, descs: &Vec<PassDescriptor>, a: usize, b: usize) -> (r: bool)
    requires
        a < descs@.len(),
        b < descs@.len(),
    ensures
        r == kind.spec_edge(descs@.map_values(|d: PassDescriptor| d@), a as int, b as int),
{
    let ghost dv = descs@.map_values(|d: PassDescriptor| d@);
    match kind {
        EdgeKind::Child => {
            if a == b {
                matches!(descs[a].direction, PassDirection::ParentToChild)
            } else {
                contains_id(&descs[a].parent_dependencies, descs[b].id)
            }
        },
        EdgeKind::Parent => {
            if a == b {
                matches!(descs[a].direction, PassDirection::ChildToParent)
            } else {
                contains_id(&descs[a].child_dependencies, descs[b].id)
            }
        },
        EdgeKind::Node => {
            if a == b {
                false
            } else {
                contains_id(&descs[a].node_dependencies, descs[b].id)
            }
        },
    }
}

/// The passes (as indices) that `kind`-depend on pass `b`, ascending.
fn dependants_of(kind: &EdgeKind, descs: &Vec<PassDescriptor>, b: usize) -> (r: Vec<usize>)
    requires
        b < descs@.len(),
    ensures
        r@.no_duplicates(),
        forall|a: usize| r@.contains(a) ==> a < descs@.len(),
        forall|a: usize|
            a < descs@.len() ==> (r@.contains(a) == kind.spec_edge(
                descs@.map_values(|d: PassDescriptor| d@),
                a as int,
                b as int,
            )),
{
    let ghost dv = descs@.map_values(|d: PassDescriptor| d@);
    let mut r: Vec<usize> = Vec::new();
    let mut a: usize = 0;
    while a < descs.len()
        invariant
            0 <= a <= descs@.len(),
            b < descs@.len(),
            dv == descs@.map_values(|d: PassDescriptor| d@),
            forall|i: int, j: int| 0 <= i < j < r@.len() ==> r@[i] < r@[j],
            forall|i: int| 0 <= i < r@.len() ==> r@[i] < a,
            forall|x: usize| x < a ==> (r@.contains(x) == kind.spec_edge(dv, x as int, b as int)),
        decreases descs@.len() - a,
    {
        let e = edge_exec(kind, descs, a, b);
        if e {
            let ghost old_r = r@;
            r.push(a);
            proof {
                assert forall|x: usize| x < a + 1 implies (r@.contains(x) == kind.spec_edge(
                    dv,
                    x as int,
                    b as int,
                )) by {
                    if x == a {
                        assert(r@[r@.len() - 1] == a);
                        assert(r@.contains(a));
                    } else {
                        if old_r.contains(x) {
                            let i = choose|i: int| 0 <= i < old_r.len() && old_r[i] == x;
                            assert(r@[i] == x);
                            assert(r@.contains(x));
                        }
                        if r@.contains(x) {
                            let i = choose|i: int| 0 <= i < r@.len() && r@[i] == x;
                            assert(i < old_r.len());
                            assert(old_r.contains(x));
                        }
                    }
                }
            }
        } else {
            proof {
                assert forall|x: usize| x < a + 1 implies (r@.contains(x) == kind.spec_edge(
                    dv,
                    x as int,
                    b as int,
                )) by {
                    if x == a {
                        if r@.contains(x) {
                            let i = choose|i: int| 0 <= i < r@.len() && r@[i] == x;
                            assert(r@[i] < a);
                        }
                    }
                }
            }
        }
        a += 1;
    }
    proof {
        assert(r@.no_duplicates()) by {
            assert forall|i: int, j: int| 0 <= i < j < r@.len() implies r@[i] != r@[j] by {
                assert(r@[i] < r@[j]);
            }
        }
        assert forall|x: usize| r@.contains(x) implies x < descs@.len() by {
            assert(r@.contains(x) == kind.spec_edge(dv, x as int, b as int));
        }
    }
    r
}

/// The resolution requirement of one resolved pass against the descriptions.
pub open spec fn pass_resolved(p: PassV, descs: Seq<DescV>, b: int) -> bool {
    &&& p.dep_child.no_duplicates()
    &&& p.dep_parent.no_duplicates()
    &&& p.dep_node.no_duplicates()
    &&& (forall|a: usize| p.dep_child.contains(a) ==> a < descs.len())
    &&& (forall|a: usize| p.dep_parent.contains(a) ==> a < descs.len())
    &&& (forall|a: usize| p.dep_node.contains(a) ==> a < descs.len())
    &&& (forall|a: usize| a < descs.len() ==> (p.dep_child.contains(a) == child_edge(descs, a as int, b)))
    &&& (forall|a: usize| a < descs.len() ==> (p.dep_parent.contains(a) == parent_edge(descs, a as int, b)))
    &&& (forall|a: usize| a < descs.len() ==> (p.dep_node.contains(a) == node_edge(descs, a as int, b)))
}

/// Resolve the dependant edges of every pass, as spec `resolved_ok` states.
pub(crate) fn resolve_passes(descs: Vec<PassDescriptor>) -> (r: Vec<ResolvedPass>)
    ensures
        r@.len() == descs@.len(),
        forall|b: int| 0 <= b < r@.len() ==> (#[trigger] r@[b])@.desc == descs@[b]@,
        resolved_ok(r@.map_values(|p: ResolvedPass| p@)),
{
    let n = descs.len();
    let ghost dv = descs@.map_values(|d: PassDescriptor| d@);
    let mut parent_lists: Vec<Vec<usize>> = Vec::new();
    let mut child_lists: Vec<Vec<usize>> = Vec::new();
    let mut node_lists: Vec<Vec<usize>> = Vec::new();
    let mut b: usize = 0;
    while b < n
        invariant
            n == dv.len(),
            dv == descs@.map_values(|d: PassDescriptor| d@),
            parent_lists@.len() == b,
            child_lists@.len() == b,
            node_lists@.len() == b,
            b <= n,
            forall|i: int| 0 <= i < b ==> pass_resolved(
                PassV {
                    desc: dv[i],
                    dep_parent: (#[trigger] parent_lists@[i])@,
                    dep_child: child_lists@[i]@,
                    dep_node: node_lists@[i]@,
                },
                dv,
                i,
            ),
        decreases n - b,
    {
        parent_lists.push(dependants_of(&EdgeKind::Parent, &descs, b));
        child_lists.push(dependants_of(&EdgeKind::Child, &descs, b));
        node_lists.push(dependants_of(&EdgeKind::Node, &descs, b));
        b += 1;
    }
    // Pair each descriptor with its edge lists, consuming from the back.
    let mut rev: Vec<ResolvedPass> = Vec::new();
    let mut rem = descs;
    while rem.len() > 0
        invariant
            rem@.len() + rev@.len() == n,
            n == dv.len(),
            parent_lists@.len() == rem@.len(),
            child_lists@.len() == rem@.len(),
            node_lists@.len() == rem@.len(),
            forall|i: int| 0 <= i < rem@.len() ==> (#[trigger] rem@[i])@ == dv[i],
            forall|i: int| 0 <= i < rem@.len() ==> pass_resolved(
                PassV {
                    desc: dv[i],
                    dep_parent: (#[trigger] parent_lists@[i])@,
                    dep_child: child_lists@[i]@,
                    dep_node: node_lists@[i]@,
                },
                dv,
                i,
            ),
            forall|i: int|
                0 <= i < rev@.len() ==> (#[trigger] rev@[i])@.desc == dv[n - 1 - i],
            forall|i: int|
                0 <= i < rev@.len() ==> pass_resolved((#[trigger] rev@[i])@, dv, n - 1 - i),
        decreases rem@.len(),
    {
        let d = rem.pop().unwrap();
        let dp = parent_lists.pop().unwrap();
        let dc = child_lists.pop().unwrap();
        let dn = node_lists.pop().unwrap();
        rev.push(ResolvedPass { desc: d, dep_parent: dp, dep_child: dc, dep_node: dn });
    }
    let mut r: Vec<ResolvedPass> = Vec::new();
    while rev.len() > 0
        invariant
            rev@.len() + r@.len() == n,
            n == dv.len(),
            forall|i: int|
                0 <= i < rev@.len() ==> (#[trigger] rev@[i])@.desc == dv[n - 1 - i],
            forall|i: int|
                0 <= i < rev@.len() ==> pass_resolved((#[trigger] rev@[i])@, dv, n - 1 - i),
            forall|i: int| 0 <= i < r@.len() ==> (#[trigger] r@[i])@.desc == dv[i],
            forall|i: int| 0 <= i < r@.len() ==> pass_resolved((#[trigger] r@[i])@, dv, i),
        decreases rev@.len(),
    {
        let p = rev.pop().unwrap();
        r.push(p);
    }
    proof {
        let rv = r@.map_values(|p: ResolvedPass| p@);
        assert(descs_of(rv) =~= dv) by {
            assert forall|i: int| 0 <= i < rv.len() implies descs_of(rv)[i] == dv[i] by {
                assert(rv[i] == r@[i]@);
            }
        }
        assert forall|b2: int| 0 <= b2 < rv.len() implies {
            &&& rv[b2].dep_child.no_duplicates()
            &&& rv[b2].dep_parent.no_duplicates()
            &&& rv[b2].dep_node.no_duplicates()
            &&& (forall|a: usize| rv[b2].dep_child.contains(a) ==> a < rv.len())
            &&& (forall|a: usize| rv[b2].dep_parent.contains(a) ==> a < rv.len())
            &&& (forall|a: usize| rv[b2].dep_node.contains(a) ==> a < rv.len())
            &&& (forall|a: usize|
                a < rv.len() ==> (rv[b2].dep_child.contains(a) == child_edge(descs_of(rv), a as int, b2)))
            &&& (forall|a: usize|
                a < rv.len() ==> (rv[b2].dep_parent.contains(a) == parent_edge(descs_of(rv), a as int, b2)))
            &&& (forall|a: usize|
                a < rv.len() ==> (rv[b2].dep_node.contains(a) == node_edge(descs_of(rv), a as int, b2)))
        } by {
            assert(pass_resolved(r@[b2]@, dv, b2));
            assert(rv[b2] == r@[b2]@);
        }
    }
    r
}

} // verus!
