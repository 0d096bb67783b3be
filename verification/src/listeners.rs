use vstd::prelude::*;
use crate::mask::NodeMask;
use crate::node::{ElementV, NodeType, NodeTypeV};
use crate::attributes::listeners_mask_v;
use crate::dom::{DomV, NodeData, NodeId, NodeV, RealDom, dirty_marked, first_index, lemma_first_index, lemma_with_node_same_links};

verus! {

/// The event names of the listener index, in order.
pub open spec fn listener_names(ls: Seq<(Seq<char>, Seq<NodeId>)>) -> Seq<Seq<char>> {
    ls.map_values(|p: (Seq<char>, Seq<NodeId>)| p.0)
}

/// The position of an event in the listener index, or -1.
pub open spec fn listener_index(ls: Seq<(Seq<char>, Seq<NodeId>)>, event: Seq<char>) -> int {
    first_index(listener_names(ls), event)
}

/// A sequence with `x` appended unless already present.
pub open spec fn push_if_absent<A>(s: Seq<A>, x: A) -> Seq<A> {
    if s.contains(x) {
        s
    } else {
        s.push(x)
    }
}

/// A sequence with the first occurrence of `x` removed.
pub open spec fn remove_first<A>(s: Seq<A>, x: A) -> Seq<A> {
    let i = first_index(s, x);
    if i == -1 {
        s
    } else {
        s.remove(i)
    }
}

/// The listener index after registering node `id` for `event`.
pub open spec fn add_listener_spec(
    ls: Seq<(Seq<char>, Seq<NodeId>)>,
    event: Seq<char>,
    id: NodeId,
) -> Seq<(Seq<char>, Seq<NodeId>)> {
    let i = listener_index(ls, event);
    if i == -1 {
        ls.push((event, seq![id]))
    } else {
        ls.update(i, (ls[i].0, push_if_absent(ls[i].1, id)))
    }
}

/// The listener index after unregistering node `id` from `event`.
pub open spec fn remove_listener_spec(
    ls: Seq<(Seq<char>, Seq<NodeId>)>,
    event: Seq<char>,
    id: NodeId,
) -> Seq<(Seq<char>, Seq<NodeId>)> {
    let i = listener_index(ls, event);
    if i == -1 {
        ls
    } else {
        ls.update(i, (ls[i].0, remove_first(ls[i].1, id)))
    }
}

/// Whether a list of identifiers holds `x`, and where.
pub(crate) fn find_node_id(v: &Vec<NodeId>, x: NodeId) -> (r: Option<usize>)
    ensures
        match r {
            Option::Some(i) => i < v@.len() && first_index(v@, x) == i as int,
            Option::None => first_index(v@, x) == -1,
        },
{
    proof {
        lemma_first_index(v@, x);
    }
    let mut i: usize = 0;
    while i < v.len()
        invariant
            i <= v@.len(),
            forall|j: int| 0 <= j < i ==> v@[j] != x,
        decreases v@.len() - i,
    {
        if v[i] == x {
            proof {
                lemma_first_index(v@, x);
                let fi = first_index(v@, x);
                assert(v@.contains(x)) by {
                    assert(v@[i as int] == x);
                }
                assert(fi != -1);
                if fi < i {
                    assert(v@[fi] != x);
                }
                if fi > i {
                    assert(v@[i as int] != x);
                }
            }
            return Option::Some(i);
        }
        i += 1;
    }
    proof {
        lemma_first_index(v@, x);
        let fi = first_index(v@, x);
        if fi != -1 {
            assert(v@[fi] != x);
        }
    }
    Option::None
}

/// Whether a list of names holds `x`, and where.
fn find_name(v: &Vec<String>, x: &String) -> (r: Option<usize>)
    ensures
        match r {
            Option::Some(i) => i < v@.len() && first_index(crate::node::strings_view(v@), x@) == i as int,
            Option::None => first_index(crate::node::strings_view(v@), x@) == -1,
        },
{
    let ghost names = crate::node::strings_view(v@);
    let mut i: usize = 0;
    while i < v.len()
        invariant
            i <= v@.len(),
            names == crate::node::strings_view(v@),
            forall|j: int| 0 <= j < i ==> names[j] != x@,
        decreases v@.len() - i,
    {
        proof {
            assert(names[i as int] == v@[i as int]@);
        }
        if v[i].eq(x) {
            proof {
                lemma_first_index(names, x@);
                let fi = first_index(names, x@);
                assert(names.contains(x@)) by {
                    assert(names[i as int] == x@);
                }
                assert(fi != -1);
                if fi < i {
                    assert(names[fi] != x@);
                }
                if fi > i {
                    assert(names[i as int] != x@);
                }
            }
            return Option::Some(i);
        }
        i += 1;
    }
    proof {
        lemma_first_index(names, x@);
        let fi = first_index(names, x@);
        if fi != -1 {
            assert(names[fi] != x@);
        }
    }
    Option::None
}

/// The position of an event in the engine's listener index.
fn find_listener_entry(ls: &Vec<(String, Vec<NodeId>)>, event: &String) -> (r: Option<usize>)
    ensures
        ({
            let lv = ls@.map_values(|p: (String, Vec<NodeId>)| crate::dom::listener_entry_view(p));
            match r {
                Option::Some(i) => i < ls@.len() && listener_index(lv, event@) == i as int,
                Option::None => listener_index(lv, event@) == -1,
            }
        }),
{
    let ghost lv = ls@.map_values(|p: (String, Vec<NodeId>)| crate::dom::listener_entry_view(p));
    let ghost names = listener_names(lv);
    proof {
        assert(names.len() == ls@.len());
    }
    let mut i: usize = 0;
    while i < ls.len()
        invariant
            i <= ls@.len(),
            lv == ls@.map_values(|p: (String, Vec<NodeId>)| crate::dom::listener_entry_view(p)),
            names == listener_names(lv),
            names.len() == ls@.len(),
            forall|j: int| 0 <= j < i ==> names[j] != event@,
        decreases ls@.len() - i,
    {
        proof {
            assert(names[i as int] == ls@[i as int].0@);
        }
        if ls[i].0.eq(event) {
            proof {
                lemma_first_index(names, event@);
                let fi = first_index(names, event@);
                assert(names.contains(event@)) by {
                    assert(names[i as int] == event@);
                }
                assert(fi != -1);
                if fi < i {
                    assert(names[fi] != event@);
                }
                if fi > i {
                    assert(names[i as int] != event@);
                }
            }
            return Option::Some(i);
        }
        i += 1;
    }
    proof {
        lemma_first_index(names, event@);
        let fi = first_index(names, event@);
        if fi != -1 {
            assert(names[fi] != event@);
        }
    }
    Option::None
}

impl RealDom {
    /// Whether node `id` is registered for `event`.
    pub fn is_node_listening(&self, id: NodeId, event: &String) -> (r: bool)
        ensures
            r == ({
                let i = listener_index(self@.listeners, event@);
                i != -1 && self@.listeners[i].1.contains(id)
            }),
    {
        match find_listener_entry(&self.listeners, event) {
            Option::Some(i) => {
                let r = match find_node_id(&self.listeners[i].1, id) {
                    Option::Some(_) => true,
                    Option::None => false,
                };
                proof {
                    let lv = self@.listeners;
                    lemma_first_index(self.listeners@[i as int].1@, id);
                    assert(lv[i as int].1 == self.listeners@[i as int].1@);
                    if r {
                        let fi = first_index(self.listeners@[i as int].1@, id);
                        assert(self.listeners@[i as int].1@[fi] == id);
                        assert(lv[i as int].1.contains(id));
                    }
                }
                r
            },
            Option::None => false,
        }
    }

    /// The nodes registered for `event`, in registration order; empty
    /// when no node ever registered for it.
    pub fn get_listeners(&self, event: &String) -> (r: Vec<NodeId>)
        ensures
            r@ == ({
                let i = listener_index(self@.listeners, event@);
                if i == -1 {
                    Seq::<NodeId>::empty()
                } else {
                    self@.listeners[i].1
                }
            }),
    {
        match find_listener_entry(&self.listeners, event) {
            Option::Some(i) => {
                let r = crate::dom::clone_ids(&self.listeners[i].1);
                proof {
                    assert(self@.listeners[i as int].1 == self.listeners@[i as int].1@);
                }
                r
            },
            Option::None => Vec::new(),
        }
    }

    /// Register node `id` in the reverse listener index for `event`.
    fn add_to_listener_index(&mut self, event: String, id: NodeId)
        requires
            old(self)@.wf(),
            old(self)@.existing(id),
        ensures
            final(self)@ == (DomV {
                listeners: add_listener_spec(old(self)@.listeners, event@, id),
                ..old(self)@
            }),
            final(self)@.wf(),
    {
        let ghost m0 = self@;
        let ghost lv0 = m0.listeners;
        match find_listener_entry(&self.listeners, &event) {
            Option::Some(i) => {
                let entry = self.listeners.remove(i);
                let (name, mut ids) = entry;
                match find_node_id(&ids, id) {
                    Option::Some(_) => {
                        proof {
                            lemma_first_index(ids@, id);
                            let fi = first_index(ids@, id);
                            assert(ids@[fi] == id);
                            assert(ids@.contains(id));
                            assert(push_if_absent(lv0[i as int].1, id) == ids@);
                        }
                    },
                    Option::None => {
                        proof {
                            lemma_first_index(ids@, id);
                            if ids@.contains(id) {
                                let j = choose|j: int| 0 <= j < ids@.len() && ids@[j] == id;
                                assert(first_index(ids@, id) != -1) by {
                                    assert(ids@[j] == id);
                                    if first_index(ids@, id) == -1 {
                                        assert(!ids@.contains(id));
                                    }
                                }
                            }
                        }
                        ids.push(id);
                    },
                }
                self.listeners.insert(i, (name, ids));
                proof {
                    assert(self@.listeners =~= add_listener_spec(lv0, event@, id));
                    assert(self@ =~= DomV { listeners: add_listener_spec(lv0, event@, id), ..m0 });
                    lemma_add_listener_wf(m0, event@, id);
                }
            },
            Option::None => {
                let mut ids: Vec<NodeId> = Vec::new();
                ids.push(id);
                self.listeners.push((event, ids));
                proof {
                    assert(self@.listeners =~= add_listener_spec(lv0, event@, id)) by {
                        assert(seq![id] =~= Seq::<NodeId>::empty().push(id));
                    }
                    assert(self@ =~= DomV { listeners: add_listener_spec(lv0, event@, id), ..m0 });
                    lemma_add_listener_wf(m0, event@, id);
                }
            },
        }
    }

    /// Unregister node `id` from the reverse index for `event`; a no-op
    /// when no entry for the event exists.
    fn remove_from_listener_index(&mut self, event: &String, id: NodeId)
        requires
            old(self)@.wf(),
        ensures
            final(self)@ == (DomV {
                listeners: remove_listener_spec(old(self)@.listeners, event@, id),
                ..old(self)@
            }),
            final(self)@.wf(),
    {
        let ghost m0 = self@;
        let ghost lv0 = m0.listeners;
        match find_listener_entry(&self.listeners, event) {
            Option::Some(i) => {
                let entry = self.listeners.remove(i);
                let (name, mut ids) = entry;
                match find_node_id(&ids, id) {
                    Option::Some(k) => {
                        let _ = ids.remove(k);
                        proof {
                            assert(ids@ =~= remove_first(lv0[i as int].1, id));
                        }
                    },
                    Option::None => {
                        proof {
                            assert(ids@ =~= remove_first(lv0[i as int].1, id));
                        }
                    },
                }
                self.listeners.insert(i, (name, ids));
                proof {
                    assert(self@.listeners =~= remove_listener_spec(lv0, event@, id));
                    assert(self@ =~= DomV {
                        listeners: remove_listener_spec(lv0, event@, id),
                        ..m0
                    });
                    lemma_remove_listener_wf(m0, event@, id);
                }
            },
            Option::None => {
                proof {
                    assert(self@.listeners =~= remove_listener_spec(lv0, event@, id));
                    assert(self@ =~= DomV {
                        listeners: remove_listener_spec(lv0, event@, id),
                        ..m0
                    });
                    lemma_remove_listener_wf(m0, event@, id);
                }
            },
        }
    }

    /// Register node `id` for `event`: the event joins the element's
    /// listener list and the reverse index, and the passes that read
    /// listeners are marked dirty.  A non-element node is left unchanged.
    pub fn add_event_listener(&mut self, id: NodeId, event: String)
        requires
            old(self)@.wf(),
            old(self)@.existing(id),
        ensures
            final(self)@.wf(),
            ({
                let m0 = old(self)@;
                match m0.node(id).ty {
                    NodeTypeV::Element(e0) => {
                        let n1 = NodeV {
                            ty: NodeTypeV::Element(
                                ElementV { listeners: push_if_absent(e0.listeners, event@), ..e0 },
                            ),
                            ..m0.node(id)
                        };
                        let m1 = m0.with_node(id, n1);
                        let m2 = m1.with_node(id, dirty_marked(m1, id, listeners_mask_v()));
                        final(self)@ == (DomV {
                            listeners: add_listener_spec(m0.listeners, event@, id),
                            ..m2
                        })
                    },
                    _ => final(self)@ == m0,
                }
            }),
    {
        let ghost m0 = self@;
        let mut nd = self.nodes[id].take().unwrap();
        proof {
            assert(nd@ == m0.node(id));
            assert(m0.node_ok(id));
        }
        let NodeData { ty, parent, children, height, states, dirty, dirty_mask } = nd;
        match ty {
            NodeType::Element(mut e) => {
                let ghost e0 = m0.node(id).ty->Element_0;
                match find_name(&e.listeners, &event) {
                    Option::Some(_) => {
                        proof {
                            let ln = crate::node::strings_view(e.listeners@);
                            lemma_first_index(ln, event@);
                            let fi = first_index(ln, event@);
                            assert(ln[fi] == event@);
                            assert(e0.listeners.contains(event@));
                            assert(push_if_absent(e0.listeners, event@) == e0.listeners);
                        }
                    },
                    Option::None => {
                        proof {
                            let ln = crate::node::strings_view(e.listeners@);
                            lemma_first_index(ln, event@);
                            if e0.listeners.contains(event@) {
                                let j = choose|j: int|
                                    0 <= j < e0.listeners.len() && e0.listeners[j] == event@;
                                assert(ln[j] == event@);
                            }
                        }
                        e.listeners.push(event.clone());
                    },
                }
                let ghost new_listeners = push_if_absent(e0.listeners, event@);
                proof {
                    assert(crate::node::strings_view(e.listeners@) =~= new_listeners);
                    assert(new_listeners.no_duplicates()) by {
                        if !e0.listeners.contains(event@) {
                            assert forall|a: int, b: int|
                                0 <= a < b < new_listeners.len() implies new_listeners[a]
                                != new_listeners[b] by {
                                if b == new_listeners.len() - 1 {
                                    assert(new_listeners[a] == e0.listeners[a]);
                                }
                            }
                        }
                    }
                }
                let nd2 = NodeData {
                    ty: NodeType::Element(e),
                    parent,
                    children,
                    height,
                    states,
                    dirty,
                    dirty_mask,
                };
                self.nodes[id] = Some(nd2);
                let ghost n1 = NodeV {
                    ty: NodeTypeV::Element(ElementV { listeners: new_listeners, ..e0 }),
                    ..m0.node(id)
                };
                proof {
                    assert(nd2@ =~= n1) by {
                        assert(nd2@.ty =~= n1.ty);
                    }
                    assert(self@ =~= m0.with_node(id, n1));
                    lemma_with_node_same_links(m0, id, n1);
                }
                let mask = NodeMask::for_listeners();
                proof {
                    assert(mask@ =~= listeners_mask_v());
                }
                self.mark_dirty(id, &mask);
                self.add_to_listener_index(event, id);
            },
            other => {
                let nd2 = NodeData { ty: other, parent, children, height, states, dirty, dirty_mask };
                self.nodes[id] = Some(nd2);
                proof {
                    assert(nd2@ =~= m0.node(id));
                    assert(self@ =~= m0);
                }
            },
        }
    }

    /// Unregister node `id` from `event`: the event leaves the element's
    /// listener list and the reverse index, and the passes that read
    /// listeners are marked dirty.  A non-element node is left unchanged,
    /// and an event that was never registered anywhere is a no-op in the
    /// index.
    pub fn remove_event_listener(&mut self, id: NodeId, event: &String)
        requires
            old(self)@.wf(),
            old(self)@.existing(id),
        ensures
            final(self)@.wf(),
            ({
                let m0 = old(self)@;
                match m0.node(id).ty {
                    NodeTypeV::Element(e0) => {
                        let n1 = NodeV {
                            ty: NodeTypeV::Element(
                                ElementV { listeners: remove_first(e0.listeners, event@), ..e0 },
                            ),
                            ..m0.node(id)
                        };
                        let m1 = m0.with_node(id, n1);
                        let m2 = m1.with_node(id, dirty_marked(m1, id, listeners_mask_v()));
                        final(self)@ == (DomV {
                            listeners: remove_listener_spec(m0.listeners, event@, id),
                            ..m2
                        })
                    },
                    _ => final(self)@ == m0,
                }
            }),
    {
        let ghost m0 = self@;
        let mut nd = self.nodes[id].take().unwrap();
        proof {
            assert(nd@ == m0.node(id));
            assert(m0.node_ok(id));
        }
        let NodeData { ty, parent, children, height, states, dirty, dirty_mask } = nd;
        match ty {
            NodeType::Element(mut e) => {
                let ghost e0 = m0.node(id).ty->Element_0;
                match find_name(&e.listeners, event) {
                    Option::Some(k) => {
                        let _ = e.listeners.remove(k);
                        proof {
                            assert(crate::node::strings_view(e.listeners@) =~= remove_first(
                                e0.listeners,
                                event@,
                            ));
                        }
                    },
                    Option::None => {
                        proof {
                            assert(crate::node::strings_view(e.listeners@) =~= remove_first(
                                e0.listeners,
                                event@,
                            ));
                        }
                    },
                }
                let ghost new_listeners = remove_first(e0.listeners, event@);
                proof {
                    assert(new_listeners.no_duplicates()) by {
                        let i = first_index(e0.listeners, event@);
                        if i != -1 {
                            lemma_first_index(e0.listeners, event@);
                            assert forall|a: int, b: int|
                                0 <= a < b < new_listeners.len() implies new_listeners[a]
                                != new_listeners[b] by {
                                let a2 = if a < i { a } else { a + 1 };
                                let b2 = if b < i { b } else { b + 1 };
                                assert(new_listeners[a] == e0.listeners[a2]);
                                assert(new_listeners[b] == e0.listeners[b2]);
                            }
                        }
                    }
                }
                let nd2 = NodeData {
                    ty: NodeType::Element(e),
                    parent,
                    children,
                    height,
                    states,
                    dirty,
                    dirty_mask,
                };
                self.nodes[id] = Some(nd2);
                let ghost n1 = NodeV {
                    ty: NodeTypeV::Element(ElementV { listeners: new_listeners, ..e0 }),
                    ..m0.node(id)
                };
                proof {
                    assert(nd2@ =~= n1) by {
                        assert(nd2@.ty =~= n1.ty);
                    }
                    assert(self@ =~= m0.with_node(id, n1));
                    lemma_with_node_same_links(m0, id, n1);
                }
                let mask = NodeMask::for_listeners();
                proof {
                    assert(mask@ =~= listeners_mask_v());
                }
                self.mark_dirty(id, &mask);
                self.remove_from_listener_index(event, id);
            },
            other => {
                let nd2 = NodeData { ty: other, parent, children, height, states, dirty, dirty_mask };
                self.nodes[id] = Some(nd2);
                proof {
                    assert(nd2@ =~= m0.node(id));
                    assert(self@ =~= m0);
                }
            },
        }
    }
}

/// Registering a node keeps the listener index well formed.
proof fn lemma_add_listener_wf(m: DomV, event: Seq<char>, id: NodeId)
    requires
        m.wf(),
        m.existing(id),
    ensures
        (DomV { listeners: add_listener_spec(m.listeners, event, id), ..m }).wf(),
{
    let ls2 = add_listener_spec(m.listeners, event, id);
    let m2 = DomV { listeners: ls2, ..m };
    let i = listener_index(m.listeners, event);
    lemma_first_index(listener_names(m.listeners), event);
    assert forall|x: NodeId| m2.existing(x) implies #[trigger] m2.node_ok(x) by {
        assert(m.node_ok(x));
        assert(m2.node(x) == m.node(x));
        match m2.node(x).parent {
            Option::Some(p) => {
                assert(m2.node(p) == m.node(p));
            },
            Option::None => {},
        }
        assert forall|k: int|
            0 <= k < m2.node(x).children.len() implies m2.existing(#[trigger] m2.node(x).children[k])
            && m2.node(m2.node(x).children[k]).parent == Option::Some(x) by {
            assert(m.existing(m.node(x).children[k]));
            assert(m2.node(m.node(x).children[k]) == m.node(m.node(x).children[k]));
        }
    }
    assert(m2.listeners_ok()) by {
        if i == -1 {
            assert forall|a: int, b: int|
                0 <= a < b < ls2.len() implies (#[trigger] ls2[a]).0 != (#[trigger] ls2[b]).0 by {
                if b == ls2.len() - 1 {
                    assert(listener_names(m.listeners)[a] == m.listeners[a].0);
                }
            }
            assert forall|a: int|
                0 <= a < ls2.len() implies (#[trigger] ls2[a]).1.no_duplicates() by {
                if a == ls2.len() - 1 {
                    assert(ls2[a].1 =~= seq![id]);
                }
            }
            assert forall|a: int, k: int|
                0 <= a < ls2.len() && 0 <= k < ls2[a].1.len() implies m2.existing(
                #[trigger] ls2[a].1[k]) by {
                if a < ls2.len() - 1 {
                    assert(m.existing(m.listeners[a].1[k]));
                } else {
                    assert(ls2[a].1[k] == id);
                }
            }
        } else {
            let old_ids = m.listeners[i].1;
            let new_ids = push_if_absent(old_ids, id);
            assert(new_ids.no_duplicates()) by {
                if !old_ids.contains(id) {
                    assert forall|a: int, b: int|
                        0 <= a < b < new_ids.len() implies new_ids[a] != new_ids[b] by {
                        if b == new_ids.len() - 1 {
                            assert(new_ids[a] == old_ids[a]);
                        }
                    }
                }
            }
            assert forall|a: int, b: int|
                0 <= a < b < ls2.len() implies (#[trigger] ls2[a]).0 != (#[trigger] ls2[b]).0 by {
                assert(m.listeners[a].0 != m.listeners[b].0);
            }
            assert forall|a: int|
                0 <= a < ls2.len() implies (#[trigger] ls2[a]).1.no_duplicates() by {
                if a != i {
                    assert(ls2[a] == m.listeners[a]);
                }
            }
            assert forall|a: int, k: int|
                0 <= a < ls2.len() && 0 <= k < ls2[a].1.len() implies m2.existing(
                #[trigger] ls2[a].1[k]) by {
                if a != i {
                    assert(ls2[a] == m.listeners[a]);
                    assert(m.existing(m.listeners[a].1[k]));
                } else {
                    if k < old_ids.len() {
                        assert(new_ids[k] == old_ids[k]);
                        assert(m.existing(old_ids[k]));
                    } else {
                        assert(new_ids[k] == id);
                    }
                }
            }
        }
    }
}

/// Unregistering a node keeps the listener index well formed.
proof fn lemma_remove_listener_wf(m: DomV, event: Seq<char>, id: NodeId)
    requires
        m.wf(),
    ensures
        (DomV { listeners: remove_listener_spec(m.listeners, event, id), ..m }).wf(),
{
    let ls2 = remove_listener_spec(m.listeners, event, id);
    let m2 = DomV { listeners: ls2, ..m };
    let i = listener_index(m.listeners, event);
    lemma_first_index(listener_names(m.listeners), event);
    assert forall|x: NodeId| m2.existing(x) implies #[trigger] m2.node_ok(x) by {
        assert(m.node_ok(x));
        assert(m2.node(x) == m.node(x));
        match m2.node(x).parent {
            Option::Some(p) => {
                assert(m2.node(p) == m.node(p));
            },
            Option::None => {},
        }
        assert forall|k: int|
            0 <= k < m2.node(x).children.len() implies m2.existing(#[trigger] m2.node(x).children[k])
            && m2.node(m2.node(x).children[k]).parent == Option::Some(x) by {
            assert(m.existing(m.node(x).children[k]));
            assert(m2.node(m.node(x).children[k]) == m.node(m.node(x).children[k]));
        }
    }
    assert(m2.listeners_ok()) by {
        if i != -1 {
            let old_ids = m.listeners[i].1;
            let k0 = first_index(old_ids, id);
            lemma_first_index(old_ids, id);
            let new_ids = remove_first(old_ids, id);
            assert(new_ids.no_duplicates()) by {
                if k0 != -1 {
                    assert forall|a: int, b: int|
                        0 <= a < b < new_ids.len() implies new_ids[a] != new_ids[b] by {
                        let a2 = if a < k0 { a } else { a + 1 };
                        let b2 = if b < k0 { b } else { b + 1 };
                        assert(new_ids[a] == old_ids[a2]);
                        assert(new_ids[b] == old_ids[b2]);
                    }
                }
            }
            assert forall|a: int, b: int|
                0 <= a < b < ls2.len() implies (#[trigger] ls2[a]).0 != (#[trigger] ls2[b]).0 by {
                assert(m.listeners[a].0 != m.listeners[b].0);
            }
            assert forall|a: int|
                0 <= a < ls2.len() implies (#[trigger] ls2[a]).1.no_duplicates() by {
                if a != i {
                    assert(ls2[a] == m.listeners[a]);
                }
            }
            assert forall|a: int, k: int|
                0 <= a < ls2.len() && 0 <= k < ls2[a].1.len() implies m2.existing(
                #[trigger] ls2[a].1[k]) by {
                if a != i {
                    assert(ls2[a] == m.listeners[a]);
                    assert(m.existing(m.listeners[a].1[k]));
                } else {
                    if k0 != -1 {
                        let k2 = if k < k0 { k } else { k + 1 };
                        assert(new_ids[k] == old_ids[k2]);
                        assert(m.existing(old_ids[k2]));
                    } else {
                        assert(m.existing(old_ids[k]));
                    }
                }
            }
        }
    }
}

} // verus!
