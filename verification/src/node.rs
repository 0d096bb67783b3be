use vstd::prelude::*;

verus! {

/// Ghost model of an attribute value.
pub enum AttrValueV {
    Text(Seq<char>),
    Int(i64),
    Bool(bool),
}

/// Ghost model of an element payload.
#[verifier::ext_equal]
pub struct ElementV {
    pub tag: Seq<char>,
    /// Attribute entries in insertion order; names are unique.
    pub attrs: Seq<(Seq<char>, AttrValueV)>,
    /// Event names this element listens to, in insertion order.
    pub listeners: Seq<Seq<char>>,
}

/// Ghost model of a node payload.
#[verifier::ext_equal]
pub enum NodeTypeV {
    Element(ElementV),
    Text(Seq<char>),
    Placeholder,
}

/// The value of an attribute: plain text, an integer, or a flag.
#[derive(PartialEq, Eq, Debug)]
pub enum AttributeValue {
    Text(String),
    Int(i64),
    Bool(bool),
}

/// The payload of an element node: its tag, attributes and listeners.
pub struct ElementNode {
    pub tag: String,
    pub attributes: Vec<(String, AttributeValue)>,
    pub listeners: Vec<String>,
}

/// The payload of a node: an element, a run of text, or a placeholder.
pub enum NodeType {
    Element(ElementNode),
    Text(String),
    Placeholder,
}

impl View for AttributeValue {
    type V = AttrValueV;

    open spec fn view(&self) -> AttrValueV {
        match self {
            AttributeValue::Text(s) => AttrValueV::Text(s@),
            AttributeValue::Int(i) => AttrValueV::Int(*i),
            AttributeValue::Bool(b) => AttrValueV::Bool(*b),
        }
    }
}

/// The ghost value of one attribute entry.
pub open spec fn attr_entry_view(p: (String, AttributeValue)) -> (Seq<char>, AttrValueV) {
    (p.0@, p.1@)
}

/// The ghost value of an attribute list.
pub open spec fn attrs_view(v: Seq<(String, AttributeValue)>) -> Seq<(Seq<char>, AttrValueV)> {
    v.map_values(|p: (String, AttributeValue)| attr_entry_view(p))
}

/// The ghost value of a list of names.
pub open spec fn strings_view(v: Seq<String>) -> Seq<Seq<char>> {
    v.map_values(|s: String| s@)
}

impl View for ElementNode {
    type V = ElementV;

    open spec fn view(&self) -> ElementV {
        ElementV {
            tag: self.tag@,
            attrs: attrs_view(self.attributes@),
            listeners: strings_view(self.listeners@),
        }
    }
}

impl View for NodeType {
    type V = NodeTypeV;

    open spec fn view(&self) -> NodeTypeV {
        match self {
            NodeType::Element(e) => NodeTypeV::Element(e@),
            NodeType::Text(s) => NodeTypeV::Text(s@),
            NodeType::Placeholder => NodeTypeV::Placeholder,
        }
    }
}

impl AttributeValue {
    pub fn clone_value(&self) -> (r: AttributeValue)
        ensures
            r@ == self@,
    {
        match self {
            AttributeValue::Text(s) => AttributeValue::Text(s.clone()),
            AttributeValue::Int(i) => AttributeValue::Int(*i),
            AttributeValue::Bool(b) => AttributeValue::Bool(*b),
        }
    }
}

fn clone_attributes(v: &Vec<(String, AttributeValue)>) -> (r: Vec<(String, AttributeValue)>)
    ensures
        attrs_view(r@) == attrs_view(v@),
{
    let mut r: Vec<(String, AttributeValue)> = Vec::new();
    let mut i: usize = 0;
    while i < v.len()
        invariant
            0 <= i <= v@.len(),
            r@.len() == i,
            forall|j: int| 0 <= j < i ==> attr_entry_view(r@[j]) == attr_entry_view(v@[j]),
        decreases v@.len() - i,
    {
        let name = v[i].0.clone();
        let value = v[i].1.clone_value();
        r.push((name, value));
        i += 1;
    }
    assert(attrs_view(r@) =~= attrs_view(v@));
    r
}

fn clone_strings(v: &Vec<String>) -> (r: Vec<String>)
    ensures
        strings_view(r@) == strings_view(v@),
{
    let mut r: Vec<String> = Vec::new();
    let mut i: usize = 0;
    while i < v.len()
        invariant
            0 <= i <= v@.len(),
            r@.len() == i,
            forall|j: int| 0 <= j < i ==> r@[j]@ == v@[j]@,
        decreases v@.len() - i,
    {
        r.push(v[i].clone());
        i += 1;
    }
    assert(strings_view(r@) =~= strings_view(v@));
    r
}

impl ElementNode {
    pub fn clone_element(&self) -> (r: ElementNode)
        ensures
            r@ == self@,
    {
        let r = ElementNode {
            tag: self.tag.clone(),
            attributes: clone_attributes(&self.attributes),
            listeners: clone_strings(&self.listeners),
        };
        assert(r@ =~= self@);
        r
    }
}

impl NodeType {
    pub fn clone_node_type(&self) -> (r: NodeType)
        ensures
            r@ == self@,
    {
        match self {
            NodeType::Element(e) => NodeType::Element(e.clone_element()),
            NodeType::Text(s) => NodeType::Text(s.clone()),
            NodeType::Placeholder => NodeType::Placeholder,
        }
    }
}

} // verus!
