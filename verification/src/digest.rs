use vstd::prelude::*;
use crate::node::{AttrValueV, AttributeValue, NodeType, NodeTypeV, attrs_view, strings_view, attr_entry_view};

verus! {

/// Offset basis of the digest, as in FNV-1.
pub const DIGEST_SEED: u64 = 0xcbf29ce484222325;

/// Multiplier of the digest, as in FNV-1.
pub const DIGEST_PRIME: u64 = 0x100000001b3;

/// One digest step: absorb `x` into the running value `h`.
pub open spec fn mix(h: u64, x: u64) -> u64 {
    h.wrapping_mul(DIGEST_PRIME).wrapping_add(x)
}

fn mix_exec(h: u64, x: u64) -> (r: u64)
    ensures
        r == mix(h, x),
{
    h.wrapping_mul(DIGEST_PRIME).wrapping_add(x)
}

/// Absorb an optional derived value: absent and present values
/// are kept apart by a tag.
pub open spec fn mix_opt(h: u64, o: Option<u64>) -> u64 {
    match o {
        Option::None => mix(h, 0),
        Option::Some(v) => mix(mix(h, 1), v),
    }
}

pub(crate) fn mix_opt_exec(h: u64, o: Option<u64>) -> (r: u64)
    ensures
        r == mix_opt(h, o),
{
    match o {
        Option::None => mix_exec(h, 0),
        Option::Some(v) => mix_exec(mix_exec(h, 1), v),
    }
}

/// Absorb the characters of a string, left to right.
pub open spec fn digest_chars(h: u64, s: Seq<char>) -> u64
    decreases s.len(),
{
    if s.len() == 0 {
        h
    } else {
        mix(digest_chars(h, s.drop_last()), s.last() as u64)
    }
}

fn digest_str(h: u64, s: &String) -> (r: u64)
    ensures
        r == digest_chars(h, s@),
{
    let n = s.as_str().unicode_len();
    let mut r = h;
    let mut i: usize = 0;
    while i < n
        invariant
            0 <= i <= s@.len(),
            n == s@.len(),
            r == digest_chars(h, s@.take(i as int)),
        decreases n - i,
    {
        let c = s.as_str().get_char(i);
        r = mix_exec(r, c as u64);
        proof {
            assert(s@.take(i + 1).drop_last() =~= s@.take(i as int));
            assert(s@.take(i + 1).last() == s@[i as int]);
        }
        i += 1;
    }
    proof {
        assert(s@.take(n as int) =~= s@);
    }
    r
}

/// Absorb one attribute value, tagged by its variant.
pub open spec fn digest_attr_value(h: u64, v: AttrValueV) -> u64 {
    match v {
        AttrValueV::Text(s) => digest_chars(mix(h, 3), s),
        AttrValueV::Int(i) => mix(mix(h, 4), i as u64),
        AttrValueV::Bool(b) => mix(mix(h, 5), if b { 1u64 } else { 0u64 }),
    }
}

fn digest_attr_value_exec(h: u64, v: &AttributeValue) -> (r: u64)
    ensures
        r == digest_attr_value(h, v@),
{
    match v {
        AttributeValue::Text(s) => digest_str(mix_exec(h, 3), s),
        AttributeValue::Int(i) => mix_exec(mix_exec(h, 4), *i as u64),
        AttributeValue::Bool(b) => mix_exec(mix_exec(h, 5), if *b { 1u64 } else { 0u64 }),
    }
}

/// Absorb an attribute list: each name, then its value, in order.
pub open spec fn digest_attrs(h: u64, attrs: Seq<(Seq<char>, AttrValueV)>) -> u64
    decreases attrs.len(),
{
    if attrs.len() == 0 {
        h
    } else {
        digest_attr_value(digest_chars(digest_attrs(h, attrs.drop_last()), attrs.last().0), attrs.last().1)
    }
}

fn digest_attrs_exec(h: u64, attrs: &Vec<(String, AttributeValue)>) -> (r: u64)
    ensures
        r == digest_attrs(h, attrs_view(attrs@)),
{
    let mut r = h;
    let mut i: usize = 0;
    while i < attrs.len()
        invariant
            0 <= i <= attrs@.len(),
            r == digest_attrs(h, attrs_view(attrs@).take(i as int)),
        decreases attrs@.len() - i,
    {
        r = digest_str(r, &attrs[i].0);
        r = digest_attr_value_exec(r, &attrs[i].1);
        proof {
            assert(attrs_view(attrs@).take(i + 1).drop_last() =~= attrs_view(attrs@).take(i as int));
            assert(attrs_view(attrs@).take(i + 1).last() == attr_entry_view(attrs@[i as int]));
        }
        i += 1;
    }
    proof {
        assert(attrs_view(attrs@).take(attrs@.len() as int) =~= attrs_view(attrs@));
    }
    r
}

/// Absorb a list of names, in order.
pub open spec fn digest_names(h: u64, ls: Seq<Seq<char>>) -> u64
    decreases ls.len(),
{
    if ls.len() == 0 {
        h
    } else {
        digest_chars(digest_names(h, ls.drop_last()), ls.last())
    }
}

fn digest_names_exec(h: u64, ls: &Vec<String>) -> (r: u64)
    ensures
        r == digest_names(h, strings_view(ls@)),
{
    let mut r = h;
    let mut i: usize = 0;
    while i < ls.len()
        invariant
            0 <= i <= ls@.len(),
            r == digest_names(h, strings_view(ls@).take(i as int)),
        decreases ls@.len() - i,
    {
        r = digest_str(r, &ls[i]);
        proof {
            assert(strings_view(ls@).take(i + 1).drop_last() =~= strings_view(ls@).take(i as int));
            assert(strings_view(ls@).take(i + 1).last() == ls@[i as int]@);
        }
        i += 1;
    }
    proof {
        assert(strings_view(ls@).take(ls@.len() as int) =~= strings_view(ls@));
    }
    r
}

/// The digest of a node payload: every part of the payload is absorbed,
/// so payloads with equal ghost values have equal digests.
pub open spec fn payload_digest(ty: NodeTypeV) -> u64 {
    match ty {
        NodeTypeV::Element(e) => digest_names(
            digest_attrs(digest_chars(mix(DIGEST_SEED, 2), e.tag), e.attrs),
            e.listeners,
        ),
        NodeTypeV::Text(s) => digest_chars(mix(DIGEST_SEED, 6), s),
        NodeTypeV::Placeholder => mix(DIGEST_SEED, 7),
    }
}

pub fn payload_digest_exec(ty: &NodeType) -> (r: u64)
    ensures
        r == payload_digest(ty@),
{
    match ty {
        NodeType::Element(e) => {
            let h = digest_str(mix_exec(DIGEST_SEED, 2), &e.tag);
            let h = digest_attrs_exec(h, &e.attributes);
            digest_names_exec(h, &e.listeners)
        },
        NodeType::Text(s) => digest_str(mix_exec(DIGEST_SEED, 6), s),
        NodeType::Placeholder => mix_exec(DIGEST_SEED, 7),
    }
}

} // verus!
