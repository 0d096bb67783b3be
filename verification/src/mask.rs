use vstd::prelude::*;

verus! {

/// Ghost model of a node mask: which attribute names, and whether text and
/// listener changes, a mutation touched or a pass reads.
#[verifier::ext_equal]
pub struct MaskV {
    /// True when the mask covers every attribute name.
    pub all_attrs: bool,
    /// The named attributes covered (empty when `all_attrs` holds).
    pub attrs: Set<Seq<char>>,
    pub text: bool,
    pub listeners: bool,
}

/// Whether a set of names holds at least one name.
pub open spec fn set_nonempty(s: Set<Seq<char>>) -> bool {
    exists|n: Seq<char>| s.contains(n)
}

/// Whether two sets of names share a name.
pub open spec fn sets_intersect(a: Set<Seq<char>>, b: Set<Seq<char>>) -> bool {
    exists|n: Seq<char>| a.contains(n) && b.contains(n)
}

impl MaskV {
    pub open spec fn covers_attr(self, name: Seq<char>) -> bool {
        self.all_attrs || self.attrs.contains(name)
    }

    pub open spec fn attrs_overlap(self, other: MaskV) -> bool {
        if self.all_attrs && other.all_attrs {
            true
        } else if self.all_attrs {
            set_nonempty(other.attrs)
        } else if other.all_attrs {
            set_nonempty(self.attrs)
        } else {
            sets_intersect(self.attrs, other.attrs)
        }
    }

    /// Whether two masks share a touched category: a common attribute,
    /// text on both sides, or listeners on both sides.
    pub open spec fn overlaps(self, other: MaskV) -> bool {
        ||| self.attrs_overlap(other)
        ||| (self.text && other.text)
        ||| (self.listeners && other.listeners)
    }
}

/// The mask value that covers everything.
pub open spec fn mask_all() -> MaskV {
    MaskV { all_attrs: true, attrs: Set::empty(), text: true, listeners: true }
}

/// The union of two mask values.
pub open spec fn mask_union(a: MaskV, b: MaskV) -> MaskV {
    MaskV {
        all_attrs: a.all_attrs || b.all_attrs,
        attrs: if a.all_attrs || b.all_attrs {
            Set::empty()
        } else {
            a.attrs.union(b.attrs)
        },
        text: a.text || b.text,
        listeners: a.listeners || b.listeners,
    }
}

/// The attribute part of a mask: every attribute name, or a listed few.
pub enum AttributeMask {
    All,
    Named(Vec<String>),
}

/// Records which attribute names, and whether text and listener state,
/// a mutation touched; also declares what a pass reads.
pub struct NodeMask {
    pub attrs: AttributeMask,
    pub text: bool,
    pub listeners: bool,
}

pub open spec fn names_of(v: Seq<String>) -> Set<Seq<char>> {
    Set::new(|n: Seq<char>| exists|i: int| 0 <= i < v.len() && v[i]@ == n)
}

impl View for AttributeMask {
    type V = MaskV;

    open spec fn view(&self) -> MaskV {
        match self {
            AttributeMask::All => MaskV {
                all_attrs: true,
                attrs: Set::empty(),
                text: false,
                listeners: false,
            },
            AttributeMask::Named(v) => MaskV {
                all_attrs: false,
                attrs: names_of(v@),
                text: false,
                listeners: false,
            },
        }
    }
}

impl View for NodeMask {
    type V = MaskV;

    open spec fn view(&self) -> MaskV {
        MaskV { all_attrs: self.attrs@.all_attrs, attrs: self.attrs@.attrs, text: self.text, listeners: self.listeners }
    }
}

/// Whether `v` holds a string whose characters equal `name`'s.
fn contains_name(v: &Vec<String>, name: &String) -> (b: bool)
    ensures
        b == names_of(v@).contains(name@),
{
    let mut i: usize = 0;
    while i < v.len()
        invariant
            0 <= i <= v@.len(),
            forall|j: int| 0 <= j < i ==> v@[j]@ != name@,
        decreases v@.len() - i,
    {
        if v[i].eq(name) {
            assert(names_of(v@).contains(name@));
            return true;
        }
        i += 1;
    }
    assert(!names_of(v@).contains(name@));
    false
}

/// Whether two name lists share an element.
fn names_intersect(a: &Vec<String>, b: &Vec<String>) -> (r: bool)
    ensures
        r == sets_intersect(names_of(a@), names_of(b@)),
{
    let mut i: usize = 0;
    while i < a.len()
        invariant
            0 <= i <= a@.len(),
            forall|j: int| 0 <= j < i ==> !names_of(b@).contains(v_name(a@, j)),
        decreases a@.len() - i,
    {
        if contains_name(b, &a[i]) {
            assert(names_of(a@).contains(a@[i as int]@));
            assert(sets_intersect(names_of(a@), names_of(b@)));
            return true;
        }
        assert(v_name(a@, i as int) == a@[i as int]@);
        i += 1;
    }
    assert(!sets_intersect(names_of(a@), names_of(b@))) by {
        assert forall|n: Seq<char>| names_of(a@).contains(n) implies !names_of(b@).contains(n) by {
            let j = choose|j: int| 0 <= j < a@.len() && a@[j]@ == n;
            assert(!names_of(b@).contains(v_name(a@, j)));
        }
    }
    false
}

/// The characters of the `i`-th name in a list.
pub open spec fn v_name(v: Seq<String>, i: int) -> Seq<char> {
    v[i]@
}

fn clone_names(v: &Vec<String>) -> (r: Vec<String>)
    ensures
        r@.len() == v@.len(),
        forall|i: int| 0 <= i < v@.len() ==> r@[i]@ == v@[i]@,
        names_of(r@) == names_of(v@),
{
    let mut r: Vec<String> = Vec::new();
    let mut i: usize = 0;
    while i < v.len()
        invariant
            0 <= i <= v@.len(),
            r@.len() == i,
            forall|j: int| 0 <= j < i ==> r@[j]@ == v@[j]@,
        decreases v@.len() - i,
    {
        r.push(v[i].clone());
        i += 1;
    }
    assert(names_of(r@) =~= names_of(v@));
    r
}

impl AttributeMask {
    /// A mask naming no attribute.
    pub fn empty() -> (r: AttributeMask)
        ensures
            !r@.all_attrs,
            r@.attrs == Set::<Seq<char>>::empty(),
    {
        let r = AttributeMask::Named(Vec::new());
        assert(r@.attrs =~= Set::<Seq<char>>::empty());
        r
    }

    pub fn clone_mask(&self) -> (r: AttributeMask)
        ensures
            r@ == self@,
    {
        match self {
            AttributeMask::All => AttributeMask::All,
            AttributeMask::Named(v) => AttributeMask::Named(clone_names(v)),
        }
    }

    /// Whether the two masks share an attribute name; a mask that covers
    /// every name overlaps any mask that names at least one.
    pub fn overlaps(&self, other: &AttributeMask) -> (r: bool)
        ensures
            r == self@.attrs_overlap(other@),
    {
        match (self, other) {
            (AttributeMask::All, AttributeMask::All) => true,
            (AttributeMask::All, AttributeMask::Named(v)) => {
                let r = v.len() > 0;
                assert(r == set_nonempty(names_of(v@))) by {
                    if v@.len() > 0 {
                        assert(names_of(v@).contains(v@[0]@));
                    } else {
                        assert forall|n: Seq<char>| !names_of(v@).contains(n) by {}
                    }
                }
                r
            },
            (AttributeMask::Named(v), AttributeMask::All) => {
                let r = v.len() > 0;
                assert(r == set_nonempty(names_of(v@))) by {
                    if v@.len() > 0 {
                        assert(names_of(v@).contains(v@[0]@));
                    } else {
                        assert forall|n: Seq<char>| !names_of(v@).contains(n) by {}
                    }
                }
                r
            },
            (AttributeMask::Named(a), AttributeMask::Named(b)) => names_intersect(a, b),
        }
    }

    /// A mask covering what either mask covers; it covers every name
    /// exactly when one side does.
    pub fn union(&self, other: &AttributeMask) -> (r: AttributeMask)
        ensures
            r@.all_attrs == (self@.all_attrs || other@.all_attrs),
            r@.all_attrs ==> r@.attrs == Set::<Seq<char>>::empty(),
            !r@.all_attrs ==> r@.attrs == self@.attrs.union(other@.attrs),
    {
        match (self, other) {
            (AttributeMask::All, _) => AttributeMask::All,
            (_, AttributeMask::All) => AttributeMask::All,
            (AttributeMask::Named(a), AttributeMask::Named(b)) => {
                let mut v = clone_names(a);
                let b2 = clone_names(b);
                let ghost a_len = v@.len();
                let mut i: usize = 0;
                while i < b2.len()
                    invariant
                        0 <= i <= b2@.len(),
                        v@.len() == a_len + i,
                        forall|j: int| 0 <= j < a_len ==> v@[j]@ == a@[j]@,
                        forall|j: int| 0 <= j < i ==> v@[a_len + j]@ == b@[j]@,
                        b2@.len() == b@.len(),
                        forall|j: int| 0 <= j < b2@.len() ==> b2@[j]@ == b@[j]@,
                    decreases b2@.len() - i,
                {
                    assert(b2@[i as int]@ == b@[i as int]@);
                    v.push(b2[i].clone());
                    i += 1;
                }
                let r = AttributeMask::Named(v);
                assert(r@.attrs =~= names_of(a@).union(names_of(b@))) by {
                    assert forall|n: Seq<char>| r@.attrs.contains(n) implies names_of(a@).union(
                        names_of(b@),
                    ).contains(n) by {
                        let j = choose|j: int| 0 <= j < v@.len() && v@[j]@ == n;
                        if j < a_len {
                            assert(a@[j]@ == n);
                        } else {
                            assert(b@[j - a_len]@ == n);
                        }
                    }
                    assert forall|n: Seq<char>|
                        names_of(a@).union(names_of(b@)).contains(n) implies r@.attrs.contains(
                        n,
                    ) by {
                        if names_of(a@).contains(n) {
                            let j = choose|j: int| 0 <= j < a@.len() && a@[j]@ == n;
                            assert(v@[j]@ == n);
                        } else {
                            let j = choose|j: int| 0 <= j < b@.len() && b@[j]@ == n;
                            assert(v@[a_len + j]@ == n);
                        }
                    }
                }
                r
            },
        }
    }
}

impl NodeMask {
    /// The mask that covers everything: every attribute, text and listeners.
    pub fn all() -> (r: NodeMask)
        ensures
            r@ == mask_all(),
    {
        let r = NodeMask { attrs: AttributeMask::All, text: true, listeners: true };
        assert(r@ =~= mask_all());
        r
    }

    /// The mask that covers nothing.
    pub fn empty() -> (r: NodeMask)
        ensures
            !r@.all_attrs,
            r@.attrs == Set::<Seq<char>>::empty(),
            !r@.text,
            !r@.listeners,
    {
        NodeMask { attrs: AttributeMask::empty(), text: false, listeners: false }
    }

    /// A mask covering exactly the given attribute names.
    pub fn for_attributes(names: Vec<String>) -> (r: NodeMask)
        ensures
            !r@.all_attrs,
            r@.attrs == names_of(names@),
            !r@.text,
            !r@.listeners,
    {
        NodeMask { attrs: AttributeMask::Named(names), text: false, listeners: false }
    }

    /// A mask covering exactly the text category.
    pub fn for_text() -> (r: NodeMask)
        ensures
            !r@.all_attrs,
            r@.attrs == Set::<Seq<char>>::empty(),
            r@.text,
            !r@.listeners,
    {
        NodeMask { attrs: AttributeMask::empty(), text: true, listeners: false }
    }

    /// A mask covering exactly the listener category.
    pub fn for_listeners() -> (r: NodeMask)
        ensures
            !r@.all_attrs,
            r@.attrs == Set::<Seq<char>>::empty(),
            !r@.text,
            r@.listeners,
    {
        NodeMask { attrs: AttributeMask::empty(), text: false, listeners: true }
    }

    pub fn clone_mask(&self) -> (r: NodeMask)
        ensures
            r@ == self@,
    {
        NodeMask { attrs: self.attrs.clone_mask(), text: self.text, listeners: self.listeners }
    }

    /// Whether the two masks share a touched category.
    pub fn overlaps(&self, other: &NodeMask) -> (r: bool)
        ensures
            r == self@.overlaps(other@),
    {
        let r0 = self.attrs.overlaps(&other.attrs);
        if r0 {
            true
        } else if self.text && other.text {
            true
        } else {
            self.listeners && other.listeners
        }
    }

    /// A mask covering what either mask covers.
    pub fn union(&self, other: &NodeMask) -> (r: NodeMask)
        ensures
            r@ == mask_union(self@, other@),
    {
        let r = NodeMask {
            attrs: self.attrs.union(&other.attrs),
            text: self.text || other.text,
            listeners: self.listeners || other.listeners,
        };
        assert(r@ =~= mask_union(self@, other@));
        r
    }
}

} // verus!
