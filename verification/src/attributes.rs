use vstd::prelude::*;
use crate::mask::{MaskV, NodeMask, names_of};
use crate::node::{AttrValueV, AttributeValue, ElementV, NodeType, NodeTypeV};
use crate::dom::{NodeData, NodeId, NodeV, RealDom, attr_names, dirty_marked, first_index, lemma_first_index, lemma_with_node_same_links, payload_ok};

verus! {

/// The mask that covers exactly one attribute name.
pub open spec fn attr_mask_v(name: Seq<char>) -> MaskV {
    MaskV { all_attrs: false, attrs: Set::empty().insert(name), text: false, listeners: false }
}

/// The mask that covers exactly the text category.
pub open spec fn text_mask_v() -> MaskV {
    MaskV { all_attrs: false, attrs: Set::empty(), text: true, listeners: false }
}

/// The mask that covers exactly the listener category.
pub open spec fn listeners_mask_v() -> MaskV {
    MaskV { all_attrs: false, attrs: Set::empty(), text: false, listeners: true }
}

/// The attribute list with `name` bound to `value`: replaced in place
/// when present, appended otherwise.
pub open spec fn attr_set(
    attrs: Seq<(Seq<char>, AttrValueV)>,
    name: Seq<char>,
    value: AttrValueV,
) -> Seq<(Seq<char>, AttrValueV)> {
    let i = first_index(attr_names(attrs), name);
    if i == -1 {
        attrs.push((name, value))
    } else {
        attrs.update(i, (name, value))
    }
}

/// The value bound to `name`, when present.
pub open spec fn attr_lookup(attrs: Seq<(Seq<char>, AttrValueV)>, name: Seq<char>) -> Option<
    AttrValueV,
> {
    let i = first_index(attr_names(attrs), name);
    if i == -1 {
        Option::None
    } else {
        Option::Some(attrs[i].1)
    }
}

/// The attribute list without `name`.
pub open spec fn attr_remove(attrs: Seq<(Seq<char>, AttrValueV)>, name: Seq<char>) -> Seq<
    (Seq<char>, AttrValueV),
> {
    let i = first_index(attr_names(attrs), name);
    if i == -1 {
        attrs
    } else {
        attrs.remove(i)
    }
}

/// The position of `name` in the attribute list, as `first_index` gives it.
fn find_attr(attributes: &Vec<(String, AttributeValue)>, name: &String) -> (r: Option<usize>)
    ensures
        match r {
            Option::Some(i) => i < attributes@.len() && first_index(
                attr_names(crate::node::attrs_view(attributes@)),
                name@,
            ) == i as int,
            Option::None => first_index(
                attr_names(crate::node::attrs_view(attributes@)),
                name@,
            ) == -1,
        },
{
    let ghost names = attr_names(crate::node::attrs_view(attributes@));
    proof {
        assert(names.len() == attributes@.len());
        lemma_first_index(names, name@);
    }
    let mut i: usize = 0;
    while i < attributes.len()
        invariant
            i <= attributes@.len(),
            names == attr_names(crate::node::attrs_view(attributes@)),
            names.len() == attributes@.len(),
            forall|j: int| 0 <= j < i ==> names[j] != name@,
        decreases attributes@.len() - i,
    {
        proof {
            assert(names[i as int] == attributes@[i as int].0@);
        }
        if attributes[i].0.eq(name) {
            proof {
                lemma_first_index(names, name@);
                let fi = first_index(names, name@);
                assert(names.contains(name@)) by {
                    assert(names[i as int] == name@);
                }
                assert(fi != -1);
                if fi < i {
                    assert(names[fi] != name@);
                }
                if fi > i {
                    assert(names[i as int] != name@);
                }
                assert(fi == i);
            }
            return Option::Some(i);
        }
        i += 1;
    }
    proof {
        lemma_first_index(names, name@);
        let fi = first_index(names, name@);
        if fi != -1 {
            assert(names[fi] != name@);
        }
    }
    Option::None
}

impl RealDom {
    /// Read an attribute of an element node.  Absent nodes, non-element
    /// nodes and unknown names yield nothing.  Reading never dirties:
    /// mutable access goes through `set_attribute`, which records the
    /// mutation, so there is no dirtying read-for-write accessor here.
    pub fn get_attribute(&self, id: NodeId, name: &String) -> (r: Option<&AttributeValue>)
        ensures
            match r {
                Option::Some(v) => {
                    &&& self@.existing(id)
                    &&& self@.node(id).ty is Element
                    &&& attr_lookup(self@.node(id).ty->Element_0.attrs, name@) == Option::Some(v@)
                },
                Option::None => !self@.existing(id) || !(self@.node(id).ty is Element)
                    || attr_lookup(self@.node(id).ty->Element_0.attrs, name@) is None,
            },
    {
        if id >= self.nodes.len() {
            return Option::None;
        }
        match &self.nodes[id] {
            Option::Some(nd) => match &nd.ty {
                NodeType::Element(e) => {
                    match find_attr(&e.attributes, name) {
                        Option::Some(i) => {
                            proof {
                                assert(crate::node::attrs_view(e.attributes@)[i as int].1 == e.attributes@[i as int].1@);
                            }
                            Option::Some(&e.attributes[i].1)
                        },
                        Option::None => Option::None,
                    }
                },
                _ => Option::None,
            },
            Option::None => Option::None,
        }
    }

    /// Bind an attribute of an element node and return the value it
    /// replaces, if any.  The passes whose masks cover the name are
    /// marked dirty, and the name joins the node's accumulated mask.
    pub fn set_attribute(&mut self, id: NodeId, name: String, value: AttributeValue) -> (r: Option<
        AttributeValue,
    >)
        requires
            old(self)@.wf(),
            old(self)@.existing(id),
            old(self)@.node(id).ty is Element,
        ensures
            final(self)@.wf(),
            ({
                let m0 = old(self)@;
                let e0 = m0.node(id).ty->Element_0;
                let n1 = NodeV {
                    ty: NodeTypeV::Element(ElementV { attrs: attr_set(e0.attrs, name@, value@), ..e0 }),
                    ..m0.node(id)
                };
                let m1 = m0.with_node(id, n1);
                &&& final(self)@ == m1.with_node(id, dirty_marked(m1, id, attr_mask_v(name@)))
                &&& (match r {
                    Option::Some(v) => attr_lookup(e0.attrs, name@) == Option::Some(v@),
                    Option::None => attr_lookup(e0.attrs, name@) is None,
                })
            }),
    {
        let ghost m0 = self@;
        let ghost e0 = m0.node(id).ty->Element_0;
        let mask = NodeMask::for_attributes(vec![name.clone()]);
        proof {
            assert(mask@ =~= attr_mask_v(name@)) by {
                let v = seq![name];
                assert(names_of(v).contains(name@)) by {
                    assert(v[0]@ == name@);
                }
                assert forall|n: Seq<char>| names_of(v).contains(n) implies n == name@ by {
                    let j = choose|j: int| 0 <= j < v.len() && v[j]@ == n;
                }
                assert(mask@.attrs =~= Set::empty().insert(name@));
            }
        }
        let mut nd = self.nodes[id].take().unwrap();
        proof {
            assert(nd@ == m0.node(id));
            assert(m0.node_ok(id));
        }
        let NodeData { ty, parent, children, height, states, dirty, dirty_mask } = nd;
        let (ty2, r) = match ty {
            NodeType::Element(mut e) => {
                let ghost names = attr_names(e0.attrs);
                proof {
                    assert(crate::node::attrs_view(e.attributes@) == e0.attrs);
                    assert(names.no_duplicates());
                }
                let found = find_attr(&e.attributes, &name);
                let r = match found {
                    Option::Some(i) => {
                        let old_val = e.attributes[i].1.clone_value();
                        proof {
                            assert(e0.attrs[i as int].1 == e.attributes@[i as int].1@);
                            assert(attr_lookup(e0.attrs, name@) == Option::Some(old_val@));
                        }
                        e.attributes[i] = (name, value);
                        proof {
                            assert(crate::node::attrs_view(e.attributes@) =~= attr_set(
                                e0.attrs,
                                name@,
                                value@,
                            ));
                            // The replaced entry keeps its name, so the name
                            // list is unchanged.
                            lemma_first_index(names, name@);
                            assert(names[i as int] == name@);
                            assert(attr_names(attr_set(e0.attrs, name@, value@)) =~= names);
                        }
                        Option::Some(old_val)
                    },
                    Option::None => {
                        proof {
                            assert(attr_lookup(e0.attrs, name@) is None);
                            lemma_first_index(names, name@);
                        }
                        e.attributes.push((name, value));
                        proof {
                            assert(crate::node::attrs_view(e.attributes@) =~= attr_set(
                                e0.attrs,
                                name@,
                                value@,
                            ));
                            let new_names = attr_names(attr_set(e0.attrs, name@, value@));
                            assert(new_names =~= names.push(name@));
                            assert(new_names.no_duplicates()) by {
                                assert forall|a: int, b: int|
                                    0 <= a < b < new_names.len() implies new_names[a]
                                    != new_names[b] by {
                                    if b == new_names.len() - 1 {
                                        assert(new_names[a] == names[a]);
                                        assert(names[a] != name@);
                                    }
                                }
                            }
                        }
                        Option::None
                    },
                };
                (NodeType::Element(e), r)
            },
            other => {
                proof {
                    assert(false);
                }
                (other, Option::None)
            },
        };
        let nd2 = NodeData { ty: ty2, parent, children, height, states, dirty, dirty_mask };
        self.nodes[id] = Some(nd2);
        proof {
            let n1 = NodeV {
                ty: NodeTypeV::Element(
                    ElementV { attrs: attr_set(e0.attrs, name@, value@), ..e0 },
                ),
                ..m0.node(id)
            };
            assert(nd2@ =~= n1) by {
                assert(nd2@.ty =~= n1.ty);
            }
            assert(self@ =~= m0.with_node(id, n1));
            lemma_with_node_same_links(m0, id, n1);
        }
        self.mark_dirty(id, &mask);
        r
    }

    /// Unbind an attribute of an element node and return the value it
    /// held, if any.  The passes whose masks cover the name are marked
    /// dirty even when the name was absent, as a raw mutation touched it.
    pub fn remove_attribute(&mut self, id: NodeId, name: &String) -> (r: Option<AttributeValue>)
        requires
            old(self)@.wf(),
            old(self)@.existing(id),
            old(self)@.node(id).ty is Element,
        ensures
            final(self)@.wf(),
            ({
                let m0 = old(self)@;
                let e0 = m0.node(id).ty->Element_0;
                let n1 = NodeV {
                    ty: NodeTypeV::Element(ElementV { attrs: attr_remove(e0.attrs, name@), ..e0 }),
                    ..m0.node(id)
                };
                let m1 = m0.with_node(id, n1);
                &&& final(self)@ == m1.with_node(id, dirty_marked(m1, id, attr_mask_v(name@)))
                &&& (match r {
                    Option::Some(v) => attr_lookup(e0.attrs, name@) == Option::Some(v@),
                    Option::None => attr_lookup(e0.attrs, name@) is None,
                })
            }),
    {
        let ghost m0 = self@;
        let ghost e0 = m0.node(id).ty->Element_0;
        let mask = NodeMask::for_attributes(vec![name.clone()]);
        proof {
            assert(mask@ =~= attr_mask_v(name@)) by {
                let v = seq![*name];
                assert(names_of(v).contains(name@)) by {
                    assert(v[0]@ == name@);
                }
                assert forall|n: Seq<char>| names_of(v).contains(n) implies n == name@ by {
                    let j = choose|j: int| 0 <= j < v.len() && v[j]@ == n;
                }
                assert(mask@.attrs =~= Set::empty().insert(name@));
            }
        }
        let mut nd = self.nodes[id].take().unwrap();
        proof {
            assert(nd@ == m0.node(id));
            assert(m0.node_ok(id));
        }
        let NodeData { ty, parent, children, height, states, dirty, dirty_mask } = nd;
        let (ty2, r) = match ty {
            NodeType::Element(mut e) => {
                let ghost names = attr_names(e0.attrs);
                proof {
                    assert(crate::node::attrs_view(e.attributes@) == e0.attrs);
                    assert(names.no_duplicates());
                }
                let found = find_attr(&e.attributes, name);
                let r = match found {
                    Option::Some(i) => {
                        let entry = e.attributes.remove(i);
                        proof {
                            assert(e0.attrs[i as int].1 == entry.1@);
                            assert(attr_lookup(e0.attrs, name@) == Option::Some(entry.1@));
                            assert(crate::node::attrs_view(e.attributes@) =~= attr_remove(
                                e0.attrs,
                                name@,
                            ));
                            let new_names = attr_names(attr_remove(e0.attrs, name@));
                            assert(new_names =~= names.remove(i as int));
                            assert(new_names.no_duplicates()) by {
                                assert forall|a: int, b: int|
                                    0 <= a < b < new_names.len() implies new_names[a]
                                    != new_names[b] by {
                                    let a2 = if a < i as int { a } else { a + 1 };
                                    let b2 = if b < i as int { b } else { b + 1 };
                                    assert(new_names[a] == names[a2]);
                                    assert(new_names[b] == names[b2]);
                                }
                            }
                        }
                        Option::Some(entry.1)
                    },
                    Option::None => {
                        proof {
                            assert(attr_lookup(e0.attrs, name@) is None);
                            assert(crate::node::attrs_view(e.attributes@) =~= attr_remove(
                                e0.attrs,
                                name@,
                            ));
                        }
                        Option::None
                    },
                };
                (NodeType::Element(e), r)
            },
            other => {
                proof {
                    assert(false);
                }
                (other, Option::None)
            },
        };
        let nd2 = NodeData { ty: ty2, parent, children, height, states, dirty, dirty_mask };
        self.nodes[id] = Some(nd2);
        proof {
            let n1 = NodeV {
                ty: NodeTypeV::Element(ElementV { attrs: attr_remove(e0.attrs, name@), ..e0 }),
                ..m0.node(id)
            };
            assert(nd2@ =~= n1) by {
                assert(nd2@.ty =~= n1.ty);
            }
            assert(self@ =~= m0.with_node(id, n1));
            lemma_with_node_same_links(m0, id, n1);
        }
        self.mark_dirty(id, &mask);
        r
    }

    /// Read the text of a text node.
    pub fn text(&self, id: NodeId) -> (r: Option<&String>)
        ensures
            match r {
                Option::Some(t) => {
                    &&& self@.existing(id)
                    &&& self@.node(id).ty is Text
                    &&& self@.node(id).ty->Text_0 == t@
                },
                Option::None => !self@.existing(id) || !(self@.node(id).ty is Text),
            },
    {
        if id >= self.nodes.len() {
            return Option::None;
        }
        match &self.nodes[id] {
            Option::Some(nd) => match &nd.ty {
                NodeType::Text(t) => Option::Some(t),
                _ => Option::None,
            },
            Option::None => Option::None,
        }
    }

    /// Replace the text of a text node.  The passes that read text are
    /// marked dirty and the text category joins the accumulated mask.
    pub fn set_text(&mut self, id: NodeId, text: String)
        requires
            old(self)@.wf(),
            old(self)@.existing(id),
            old(self)@.node(id).ty is Text,
        ensures
            final(self)@.wf(),
            ({
                let m0 = old(self)@;
                let n1 = NodeV { ty: NodeTypeV::Text(text@), ..m0.node(id) };
                let m1 = m0.with_node(id, n1);
                final(self)@ == m1.with_node(id, dirty_marked(m1, id, text_mask_v()))
            }),
    {
        let ghost m0 = self@;
        let mut nd = self.nodes[id].take().unwrap();
        proof {
            assert(nd@ == m0.node(id));
            assert(m0.node_ok(id));
        }
        nd.ty = NodeType::Text(text);
        self.nodes[id] = Some(nd);
        let mask = NodeMask::for_text();
        proof {
            let n1 = NodeV { ty: NodeTypeV::Text(text@), ..m0.node(id) };
            assert(self@ =~= m0.with_node(id, n1));
            lemma_with_node_same_links(m0, id, n1);
            assert(mask@ =~= text_mask_v());
        }
        self.mark_dirty(id, &mask);
    }

    /// Replace the payload of a node.  Everything about the node may have
    /// changed, so it is marked dirty under the full mask, as on creation.
    pub fn set_type(&mut self, id: NodeId, new: NodeType)
        requires
            old(self)@.wf(),
            old(self)@.existing(id),
            payload_ok(new@),
        ensures
            final(self)@.wf(),
            ({
                let m0 = old(self)@;
                let n1 = NodeV { ty: new@, ..m0.node(id) };
                let m1 = m0.with_node(id, n1);
                final(self)@ == m1.with_node(id, dirty_marked(m1, id, crate::mask::mask_all()))
            }),
    {
        let ghost m0 = self@;
        let mut nd = self.nodes[id].take().unwrap();
        proof {
            assert(nd@ == m0.node(id));
            assert(m0.node_ok(id));
        }
        nd.ty = new;
        self.nodes[id] = Some(nd);
        let mask = NodeMask::all();
        proof {
            let n1 = NodeV { ty: nd@.ty, ..m0.node(id) };
            assert(self@ =~= m0.with_node(id, n1));
            lemma_with_node_same_links(m0, id, n1);
        }
        self.mark_dirty(id, &mask);
    }

    /// Store a derived value into a node's slot for one pass and mark
    /// that pass dirty on the node, as for any direct state change.
    pub fn insert(&mut self, id: NodeId, pass_index: usize, value: u64)
        requires
            old(self)@.wf(),
            old(self)@.existing(id),
            pass_index < old(self)@.passes.len(),
        ensures
            final(self)@.wf(),
            ({
                let m0 = old(self)@;
                let n0 = m0.node(id);
                let n1 = NodeV {
                    states: n0.states.update(pass_index as int, Option::Some(value)),
                    dirty: n0.dirty.update(pass_index as int, true),
                    ..n0
                };
                final(self)@ == m0.with_node(id, n1)
            }),
    {
        let ghost m0 = self@;
        let mut nd = self.nodes[id].take().unwrap();
        proof {
            assert(nd@ == m0.node(id));
            assert(m0.node_ok(id));
        }
        nd.states[pass_index] = Option::Some(value);
        nd.dirty[pass_index] = true;
        self.nodes[id] = Some(nd);
        proof {
            let n0 = m0.node(id);
            let n1 = NodeV {
                states: n0.states.update(pass_index as int, Option::Some(value)),
                dirty: n0.dirty.update(pass_index as int, true),
                ..n0
            };
            assert(nd@ =~= n1);
            assert(self@ =~= m0.with_node(id, n1));
            lemma_with_node_same_links(m0, id, n1);
        }
    }
}

} // verus!
