//! Element trees and their wire encoding: a name index, the attributes that
//! are not metadata, and the children.

use vstd::prelude::*;

use crate::error::CodecError;
use crate::primitive::{le16, lemma_u16_round_trip, read_u16_le, read_u16_spec, read_u8, read_u8_spec, write_u16_le, wrote, wrote_partial, append_bytes};
use crate::value::{
    at_pos_value, decode_value, decode_value_spec, encode_value_into, encode_value_spec, find_from, find_index,
    find_string, lemma_find_from, lemma_value_round_trip, table_view, Value, ValueModel,
};

verus! {

use vstd::std_specs::vec::axiom_vec_index_decreases;

broadcast use vstd::std_specs::vec::axiom_vec_index_decreases, vstd::std_specs::vec::axiom_vec_decreases_to_view;

/// Attribute keys that start with this prefix are in-memory metadata and are
/// never written.
pub const METADATA_PREFIX: &'static str = "__";

/// A node of the map tree.
#[derive(Debug, PartialEq)]
pub struct DecodedElement {
    pub name: String,
    /// Attributes in order; keys are unique.
    pub attributes: Vec<(String, Value)>,
    /// `None` when no child block holds any child.
    pub children: Option<Vec<DecodedElement>>,
}

/// One attribute, seen through views.
pub type AttrModel = (Seq<char>, ValueModel);

/// The mathematical content of a `DecodedElement`.
pub struct ElementModel {
    pub name: Seq<char>,
    pub attributes: Seq<AttrModel>,
    pub children: Option<Seq<ElementModel>>,
}

/// The attributes seen through views.
pub open spec fn attrs_model(a: Seq<(String, Value)>) -> Seq<AttrModel> {
    a.map_values(|p: (String, Value)| (p.0@, p.1@))
}

impl DecodedElement {
    /// The tree seen through views.
    pub open spec fn model(&self) -> ElementModel
        decreases self, 1nat,
    {
        ElementModel {
            name: self.name@,
            attributes: attrs_model(self.attributes@),
            children: match &self.children {
                Some(c) => Some(models_of(c@)),
                None => None,
            },
        }
    }
}

/// The models of a sequence of elements.
pub open spec fn models_of(s: Seq<DecodedElement>) -> Seq<ElementModel>
    decreases s, 0nat,
{
    if s.len() == 0 {
        seq![]
    } else {
        models_of(s.drop_last()).push(s.last().model())
    }
}

/// A key that starts with the metadata prefix.
pub open spec fn is_metadata_key_spec(k: Seq<char>) -> bool {
    k.len() >= 2 && k[0] == '_' && k[1] == '_'
}

/// Whether `key` is a metadata key, which the wire never carries.
pub fn is_metadata_key(key: &str) -> (r: bool)
    ensures
        r == is_metadata_key_spec(key@),
{
    proof {
        reveal_strlit("__");
    }
    let n = key.unicode_len();
    n >= 2 && key.get_char(0) == METADATA_PREFIX.get_char(0) && key.get_char(1)
        == METADATA_PREFIX.get_char(1)
}

/// An attribute that the wire carries: not metadata and not null.
pub open spec fn on_wire(a: AttrModel) -> bool {
    !is_metadata_key_spec(a.0) && !(a.1 is Null)
}

/// The attributes that the wire carries, in order.
pub open spec fn wire_attrs(a: Seq<AttrModel>) -> Seq<AttrModel>
    decreases a.len(),
{
    if a.len() == 0 {
        seq![]
    } else if on_wire(a.last()) {
        wire_attrs(a.drop_last()).push(a.last())
    } else {
        wire_attrs(a.drop_last())
    }
}

/// A table index as two bytes: the first index of `s`, which must exist and
/// fit in 16 bits.
pub open spec fn index_bytes(s: Seq<char>, table: Seq<Seq<char>>) -> Result<Seq<u8>, CodecError> {
    match find_index(table, s) {
        Some(i) => if i < 0x1_0000 {
            Ok(le16(i))
        } else {
            Err(CodecError::TooManyStrings)
        },
        None => Err(CodecError::MissingTableEntry),
    }
}

/// The encoding of attributes in order: key index, then tag and payload.
/// The first failing attribute gives the error.
pub open spec fn encode_attrs_spec(a: Seq<AttrModel>, table: Seq<Seq<char>>) -> Result<Seq<u8>, CodecError>
    decreases a.len(),
{
    if a.len() == 0 {
        Ok(seq![])
    } else {
        match encode_attrs_spec(a.drop_last(), table) {
            Err(e) => Err(e),
            Ok(w) => match index_bytes(a.last().0, table) {
                Err(e) => Err(e),
                Ok(k) => match encode_value_spec(a.last().1, table) {
                    Err(e) => Err(e),
                    Ok(v) => Ok(w + k + v),
                },
            },
        }
    }
}

/// The children of an element, absent ones as none.
pub open spec fn children_of(e: ElementModel) -> Seq<ElementModel> {
    match e.children {
        Some(c) => c,
        None => seq![],
    }
}

/// The encoding of an element: name index, the count and encoding of the
/// attributes on the wire, the child count and each child in order.
pub open spec fn encode_element_spec(e: ElementModel, table: Seq<Seq<char>>) -> Result<Seq<u8>, CodecError>
    decreases e, 1nat,
{
    match index_bytes(e.name, table) {
        Err(err) => Err(err),
        Ok(nb) => {
            let attrs = wire_attrs(e.attributes);
            if attrs.len() > 255 {
                Err(CodecError::TooManyAttributes)
            } else {
                match encode_attrs_spec(attrs, table) {
                    Err(err) => Err(err),
                    Ok(aw) => {
                        let kids = children_of(e);
                        if kids.len() > 0xFFFF {
                            Err(CodecError::TooManyChildren)
                        } else {
                            let children_bytes = match e.children {
                                Some(c) => encode_children_spec(c, table),
                                None => Ok(seq![]),
                            };
                            match children_bytes {
                                Err(err) => Err(err),
                                Ok(cw) => Ok(nb + seq![attrs.len() as u8] + aw + le16(kids.len()) + cw),
                            }
                        }
                    },
                }
            }
        },
    }
}

/// The encodings of elements one after another; the first failing one gives
/// the error.
pub open spec fn encode_children_spec(c: Seq<ElementModel>, table: Seq<Seq<char>>) -> Result<Seq<u8>, CodecError>
    decreases c, 0nat,
{
    if c.len() == 0 {
        Ok(seq![])
    } else {
        match encode_children_spec(c.drop_last(), table) {
            Err(e) => Err(e),
            Ok(w) => match encode_element_spec(c.last(), table) {
                Err(e) => Err(e),
                Ok(x) => Ok(w + x),
            },
        }
    }
}

proof fn lemma_wire_attrs_push(a: Seq<AttrModel>, x: AttrModel)
    ensures
        wire_attrs(a.push(x)) == if on_wire(x) {
            wire_attrs(a).push(x)
        } else {
            wire_attrs(a)
        },
{
    assert(a.push(x).drop_last() =~= a);
}

proof fn lemma_attrs_model_prefix(a: Seq<(String, Value)>, i: int)
    requires
        0 <= i < a.len(),
    ensures
        attrs_model(a.subrange(0, i + 1)) == attrs_model(a.subrange(0, i)).push((a[i].0@, a[i].1@)),
{
    assert(attrs_model(a.subrange(0, i + 1)) =~= attrs_model(a.subrange(0, i)).push((a[i].0@, a[i].1@)));
}

proof fn lemma_encode_attrs_err(a: Seq<AttrModel>, b: Seq<AttrModel>, table: Seq<Seq<char>>)
    requires
        encode_attrs_spec(a, table) is Err,
    ensures
        encode_attrs_spec(a + b, table) == encode_attrs_spec(a, table),
    decreases b.len(),
{
    if b.len() == 0 {
        assert(a + b =~= a);
    } else {
        lemma_encode_attrs_err(a, b.drop_last(), table);
        assert((a + b).drop_last() =~= a + b.drop_last());
    }
}

proof fn lemma_encode_children_err(a: Seq<ElementModel>, b: Seq<ElementModel>, table: Seq<Seq<char>>)
    requires
        encode_children_spec(a, table) is Err,
    ensures
        encode_children_spec(a + b, table) == encode_children_spec(a, table),
    decreases b.len(),
{
    if b.len() == 0 {
        assert(a + b =~= a);
    } else {
        lemma_encode_children_err(a, b.drop_last(), table);
        assert((a + b).drop_last() =~= a + b.drop_last());
    }
}

/// The models of a prefix are the prefix of the models.
pub proof fn lemma_models_of(s: Seq<DecodedElement>)
    ensures
        models_of(s).len() == s.len(),
        forall|i: int| 0 <= i < s.len() ==> #[trigger] models_of(s)[i] == s[i].model(),
    decreases s.len(),
{
    if s.len() > 0 {
        lemma_models_of(s.drop_last());
    }
}

proof fn lemma_models_of_prefix(s: Seq<DecodedElement>, i: int)
    requires
        0 <= i <= s.len(),
    ensures
        models_of(s.subrange(0, i)) == models_of(s).subrange(0, i),
{
    lemma_models_of(s);
    lemma_models_of(s.subrange(0, i));
    assert(models_of(s.subrange(0, i)) =~= models_of(s).subrange(0, i));
}

/// Appends the two-byte table index of `s`.
fn write_index(out: &mut Vec<u8>, s: &String, lookup: &[String]) -> (r: Result<(), CodecError>)
    ensures
        wrote(r, old(out)@, final(out)@, index_bytes(s@, table_view(lookup@))),
{
    match find_string(lookup, s) {
        Some(i) => {
            if i > 0xFFFF {
                return Err(CodecError::TooManyStrings);
            }
            write_u16_le(out, i as u16);
            Ok(())
        },
        None => Err(CodecError::MissingTableEntry),
    }
}

/// How many attributes of `attrs` the wire carries.
fn count_wire_attrs(attrs: &Vec<(String, Value)>) -> (r: usize)
    ensures
        r == wire_attrs(attrs_model(attrs@)).len(),
        r <= attrs.len(),
{
    let mut count: usize = 0;
    let mut i: usize = 0;
    while i < attrs.len()
        invariant
            i <= attrs.len(),
            count <= i,
            count == wire_attrs(attrs_model(attrs@.subrange(0, i as int))).len(),
        decreases attrs.len() - i,
    {
        proof {
            lemma_attrs_model_prefix(attrs@, i as int);
            lemma_wire_attrs_push(attrs_model(attrs@.subrange(0, i as int)), (attrs@[i as int].0@, attrs@[i as int].1@));
        }
        if !is_metadata_key(attrs[i].0.as_str()) && !matches!(attrs[i].1, Value::Null) {
            count = count + 1;
        }
        i = i + 1;
    }
    proof {
        assert(attrs@.subrange(0, i as int) =~= attrs@);
    }
    count
}

/// Appends the encoding of the attributes that the wire carries, in order.
fn encode_attrs(out: &mut Vec<u8>, attrs: &Vec<(String, Value)>, lookup: &[String]) -> (r: Result<(), CodecError>)
    ensures
        wrote_partial(r, old(out)@, final(out)@, encode_attrs_spec(wire_attrs(attrs_model(attrs@)), table_view(lookup@))),
{
    let ghost t = table_view(lookup@);
    let ghost base = out@;
    let mut i: usize = 0;
    proof {
        assert(attrs_model(attrs@.subrange(0, 0)) =~= Seq::<AttrModel>::empty());
        assert(out@.subrange(base.len() as int, out@.len() as int) =~= Seq::<u8>::empty());
        assert(out@.subrange(0, base.len() as int) =~= base);
    }
    while i < attrs.len()
        invariant
            i <= attrs.len(),
            t == table_view(lookup@),
            base == old(out)@,
            encode_attrs_spec(wire_attrs(attrs_model(attrs@.subrange(0, i as int))), t) == Ok::<Seq<u8>, CodecError>(
                out@.subrange(base.len() as int, out@.len() as int),
            ),
            out@.subrange(0, base.len() as int) == base,
            base.len() <= out@.len(),
        decreases attrs.len() - i,
    {
        let ghost pre = attrs_model(attrs@.subrange(0, i as int));
        let ghost x = (attrs@[i as int].0@, attrs@[i as int].1@);
        let ghost before = out@;
        proof {
            lemma_attrs_model_prefix(attrs@, i as int);
            lemma_wire_attrs_push(pre, x);
            assert(attrs@.subrange(0, i as int) + attrs@.subrange(i as int, attrs@.len() as int) =~= attrs@);
        }
        let key = &attrs[i].0;
        let value = &attrs[i].1;
        if !is_metadata_key(key.as_str()) && !matches!(value, Value::Null) {
            let ghost wp = wire_attrs(pre);
            assert(wire_attrs(pre.push(x)).drop_last() =~= wp);
            match write_index(out, key, lookup) {
                Ok(()) => {},
                Err(e) => {
                    proof {
                        lemma_attr_err_tail(attrs@, i as int + 1, t);
                    }
                    return Err(e);
                },
            }
            match encode_value_into(out, key.as_str(), value, lookup) {
                Ok(()) => {},
                Err(e) => {
                    proof {
                        lemma_attr_err_tail(attrs@, i as int + 1, t);
                    }
                    return Err(e);
                },
            }
            proof {
                assert(out@.subrange(0, base.len() as int) =~= base);
                assert(out@.subrange(base.len() as int, out@.len() as int) =~= before.subrange(base.len() as int, before.len() as int) + index_bytes(x.0, t)->Ok_0 + encode_value_spec(x.1, t)->Ok_0);
            }
        }
        i = i + 1;
    }
    proof {
        assert(attrs@.subrange(0, i as int) =~= attrs@);
        assert(out@ =~= base + out@.subrange(base.len() as int, out@.len() as int));
    }
    Ok(())
}

proof fn lemma_attr_err_tail(a: Seq<(String, Value)>, i: int, t: Seq<Seq<char>>)
    requires
        0 <= i <= a.len(),
        encode_attrs_spec(wire_attrs(attrs_model(a.subrange(0, i))), t) is Err,
    ensures
        encode_attrs_spec(wire_attrs(attrs_model(a)), t) == encode_attrs_spec(wire_attrs(attrs_model(a.subrange(0, i))), t),
{
    lemma_wire_attrs_concat(attrs_model(a.subrange(0, i)), attrs_model(a.subrange(i, a.len() as int)));
    assert(attrs_model(a.subrange(0, i)) + attrs_model(a.subrange(i, a.len() as int)) =~= attrs_model(a));
    lemma_encode_attrs_err(wire_attrs(attrs_model(a.subrange(0, i))), wire_attrs(attrs_model(a.subrange(i, a.len() as int))), t);
}

proof fn lemma_wire_attrs_concat(a: Seq<AttrModel>, b: Seq<AttrModel>)
    ensures
        wire_attrs(a + b) == wire_attrs(a) + wire_attrs(b),
    decreases b.len(),
{
    if b.len() == 0 {
        assert(a + b =~= a);
        assert(wire_attrs(a) + wire_attrs(b) =~= wire_attrs(a));
    } else {
        lemma_wire_attrs_concat(a, b.drop_last());
        assert((a + b).drop_last() =~= a + b.drop_last());
        assert(wire_attrs(a + b) =~= wire_attrs(a) + wire_attrs(b));
    }
}

/// Appends the encoding of `element`: its name index, the count and encoding
/// of the attributes that are neither metadata nor null, the child count, and
/// each child in order. Leaves `out` as it was when the element cannot be
/// encoded.
pub fn encode_element(out: &mut Vec<u8>, element: &DecodedElement, lookup: &[String]) -> (r: Result<(), CodecError>)
    ensures
        wrote(r, old(out)@, final(out)@, encode_element_spec(element.model(), table_view(lookup@))),
{
    let mut buf: Vec<u8> = Vec::new();
    let r = encode_element_into(&mut buf, element, lookup);
    match r {
        Ok(()) => {
            append_bytes(out, buf.as_slice());
            proof {
                assert(buf@ =~= encode_element_spec(element.model(), table_view(lookup@))->Ok_0);
            }
            Ok(())
        },
        Err(e) => Err(e),
    }
}

/// Appends the encoding of `element`; on failure `out` may hold part of it.
fn encode_element_into(out: &mut Vec<u8>, element: &DecodedElement, lookup: &[String]) -> (r: Result<(), CodecError>)
    ensures
        wrote_partial(r, old(out)@, final(out)@, encode_element_spec(element.model(), table_view(lookup@))),
    decreases element,
{
    let ghost t = table_view(lookup@);
    let ghost m = element.model();
    match write_index(out, &element.name, lookup) {
        Ok(()) => {},
        Err(e) => return Err(e),
    }
    let ghost after_name = out@;
    let count = count_wire_attrs(&element.attributes);
    if count > 255 {
        return Err(CodecError::TooManyAttributes);
    }
    out.push(count as u8);
    let ghost after_count = out@;
    match encode_attrs(out, &element.attributes, lookup) {
        Ok(()) => {},
        Err(e) => return Err(e),
    }
    let ghost after_attrs = out@;
    match &element.children {
        None => {
            write_u16_le(out, 0);
            proof {
                reveal_with_fuel(encode_children_spec, 1);
                assert(out@ =~= old(out)@ + (index_bytes(m.name, t)->Ok_0 + seq![count as u8]
                    + encode_attrs_spec(wire_attrs(m.attributes), t)->Ok_0 + le16(0) + Seq::<u8>::empty()));
            }
            Ok(())
        },
        Some(children) => {
            proof {
                lemma_models_of(children@);
                assert(m.children == Some(models_of(children@)));
            }
            if children.len() > 0xFFFF {
                return Err(CodecError::TooManyChildren);
            }
            write_u16_le(out, children.len() as u16);
            let ghost base = out@;
            proof {
                lemma_models_of(children@);
                assert(children@.subrange(0, 0) =~= Seq::<DecodedElement>::empty());
                assert(out@.subrange(base.len() as int, out@.len() as int) =~= Seq::<u8>::empty());
                assert(out@.subrange(0, base.len() as int) =~= base);
            }
            let mut i: usize = 0;
            while i < children.len()
                invariant
                    i <= children.len(),
                    t == table_view(lookup@),
                    encode_children_spec(models_of(children@.subrange(0, i as int)), t) == Ok::<Seq<u8>, CodecError>(
                        out@.subrange(base.len() as int, out@.len() as int),
                    ),
                    out@.subrange(0, base.len() as int) == base,
                    base.len() <= out@.len(),
                    element.children == Some(*children),
                    m == element.model(),
                    index_bytes(m.name, t) is Ok,
                    wire_attrs(m.attributes).len() <= 255,
                    encode_attrs_spec(wire_attrs(m.attributes), t) is Ok,
                    children.len() <= 0xFFFF,
                    m.children == Some(models_of(children@)),
                decreases children.len() - i,
            {
                let ghost before = out@;
                let ghost pre = models_of(children@.subrange(0, i as int));
                proof {
                    assert(children@.subrange(0, i as int + 1).drop_last() =~= children@.subrange(0, i as int));
                    axiom_vec_index_decreases(*children, i as int);
                    assert(element.children == Some(*children));
                    assert(decreases_to!(element => *children));
                }
                match encode_element_into(out, &children[i], lookup) {
                    Ok(()) => {},
                    Err(e) => {
                        proof {
                            lemma_models_of(children@);
                            let x = children@[i as int].model();
                            assert(models_of(children@.subrange(0, i as int + 1)) == pre.push(x));
                            assert(pre.push(x).drop_last() =~= pre);
                            assert(encode_children_spec(pre.push(x), t) == Err::<Seq<u8>, CodecError>(e));
                            let all = models_of(children@);
                            lemma_models_of_prefix(children@, i as int + 1);
                            assert(all =~= all.subrange(0, i as int + 1) + all.subrange(i as int + 1, all.len() as int));
                            lemma_encode_children_err(all.subrange(0, i as int + 1), all.subrange(i as int + 1, all.len() as int), t);
                        }
                        return Err(e);
                    },
                }
                proof {
                    let x = children@[i as int].model();
                    assert(models_of(children@.subrange(0, i as int + 1)) == pre.push(x));
                    assert(pre.push(x).drop_last() =~= pre);
                    assert(out@.subrange(0, base.len() as int) =~= base);
                    assert(out@.subrange(base.len() as int, out@.len() as int) =~= before.subrange(base.len() as int, before.len() as int) + encode_element_spec(children@[i as int].model(), t)->Ok_0);
                }
                i = i + 1;
            }
            proof {
                assert(children@.subrange(0, i as int) =~= children@);
                assert(out@ =~= base + out@.subrange(base.len() as int, out@.len() as int));
                lemma_models_of(children@);
                assert(out@ =~= old(out)@ + (index_bytes(m.name, t)->Ok_0 + seq![count as u8]
                    + encode_attrs_spec(wire_attrs(m.attributes), t)->Ok_0 + le16(children.len() as nat)
                    + encode_children_spec(models_of(children@), t)->Ok_0));
            }
            Ok(())
        },
    }
}

/// The keys of attributes, in order.
pub open spec fn keys_of(a: Seq<AttrModel>) -> Seq<Seq<char>> {
    a.map_values(|p: AttrModel| p.0)
}

/// Sets key `k` to `v`: an existing key keeps its place and takes the new
/// value; a new key goes last.
pub open spec fn insert_attr(a: Seq<AttrModel>, k: Seq<char>, v: ValueModel) -> Seq<AttrModel> {
    match find_index(keys_of(a), k) {
        Some(i) => a.update(i as int, (k, v)),
        None => a.push((k, v)),
    }
}

/// Decodes `n` attributes at `p` into `acc`: key index, tag, payload each.
pub open spec fn decode_attrs_spec(t: Seq<Seq<char>>, b: Seq<u8>, p: int, n: nat, acc: Seq<AttrModel>) -> Result<(Seq<AttrModel>, int), CodecError>
    decreases n,
{
    if n == 0 {
        Ok((acc, p))
    } else {
        match read_u16_spec(b, p) {
            Err(e) => Err(e),
            Ok((ki, q1)) => if ki as int >= t.len() {
                Err(CodecError::InvalidIndex)
            } else {
                match read_u8_spec(b, q1) {
                    Err(e) => Err(e),
                    Ok((tag, q2)) => match decode_value_spec(tag, t, b, q2) {
                        Err(e) => Err(e),
                        Ok((v, q3)) => decode_attrs_spec(t, b, q3, (n - 1) as nat, insert_attr(acc, t[ki as int], v)),
                    },
                }
            },
        }
    }
}

/// Decoding only moves forward, and stays within the input.
pub proof fn lemma_decode_value_advances(tag: u8, t: Seq<Seq<char>>, b: Seq<u8>, p: int)
    ensures
        decode_value_spec(tag, t, b, p) matches Ok((_, q)) ==> p < q <= b.len(),
{
    reveal_with_fuel(crate::primitive::varuint_scan, 6);
    if tag == 6 {
        crate::primitive::lemma_read_string_advances(b, p);
    }
}

/// Decoding only moves forward, and stays within the input.
pub proof fn lemma_decode_attrs_advances(t: Seq<Seq<char>>, b: Seq<u8>, p: int, n: nat, acc: Seq<AttrModel>)
    requires
        0 <= p <= b.len(),
    ensures
        decode_attrs_spec(t, b, p, n, acc) matches Ok((_, q)) ==> p <= q <= b.len(),
    decreases n,
{
    if n > 0 {
        if let Ok((ki, q1)) = read_u16_spec(b, p) {
            if (ki as int) < t.len() {
                if let Ok((tag, q2)) = read_u8_spec(b, q1) {
                    lemma_decode_value_advances(tag, t, b, q2);
                    if let Ok((v, q3)) = decode_value_spec(tag, t, b, q2) {
                        lemma_decode_attrs_advances(t, b, q3, (n - 1) as nat, insert_attr(acc, t[ki as int], v));
                    }
                }
            }
        }
    }
}

/// Decodes an element at `p`: name index, attribute count and attributes,
/// child count and children. A zero child count gives absent children.
pub open spec fn decode_element_spec(t: Seq<Seq<char>>, b: Seq<u8>, p: int) -> Result<(ElementModel, int), CodecError>
    decreases b.len() - p, 0nat, 0nat,
{
    match read_u16_spec(b, p) {
        Err(e) => Err(e),
        Ok((ni, q1)) => if ni as int >= t.len() {
            Err(CodecError::InvalidIndex)
        } else {
            match read_u8_spec(b, q1) {
                Err(e) => Err(e),
                Ok((count, q2)) => match decode_attrs_spec(t, b, q2, count as nat, seq![]) {
                    Err(e) => Err(e),
                    Ok((attrs, q3)) => match read_u16_spec(b, q3) {
                        Err(e) => Err(e),
                        Ok((n, q4)) => if n == 0 {
                            Ok((ElementModel { name: t[ni as int], attributes: attrs, children: None }, q4))
                        } else {
                            proof {
                                lemma_decode_attrs_advances(t, b, q2, count as nat, seq![]);
                            }
                            match decode_children_spec(t, b, q4, n as nat, seq![]) {
                                Err(e) => Err(e),
                                Ok((kids, q5)) => Ok(
                                    (ElementModel { name: t[ni as int], attributes: attrs, children: Some(kids) }, q5),
                                ),
                            }
                        },
                    },
                },
            }
        },
    }
}

/// Decodes `n` elements one after another at `p`, after those in `acc`.
pub open spec fn decode_children_spec(t: Seq<Seq<char>>, b: Seq<u8>, p: int, n: nat, acc: Seq<ElementModel>) -> Result<(Seq<ElementModel>, int), CodecError>
    decreases b.len() - p, 1nat, n,
{
    if n == 0 {
        Ok((acc, p))
    } else {
        match decode_element_spec(t, b, p) {
            Err(e) => Err(e),
            Ok((e, q)) => if q <= p || q > b.len() {
                Err(CodecError::UnexpectedEnd)
            } else {
                decode_children_spec(t, b, q, (n - 1) as nat, acc.push(e))
            },
        }
    }
}

/// Sets `key` to `value` in `attrs`: an existing key keeps its place and
/// takes the new value; a new key goes last.
pub fn insert_attribute(attrs: &mut Vec<(String, Value)>, key: String, value: Value)
    ensures
        attrs_model(final(attrs)@) == insert_attr(attrs_model(old(attrs)@), key@, value@),
{
    let ghost a = attrs_model(attrs@);
    let mut j: usize = 0;
    while j < attrs.len()
        invariant
            j <= attrs.len(),
            a == attrs_model(attrs@),
            attrs@ == old(attrs)@,
            find_index(keys_of(a), key@) == find_from(keys_of(a), key@, j as int),
        decreases attrs.len() - j,
    {
        if attrs[j].0 == key {
            proof {
                assert(keys_of(a)[j as int] == key@);
            }
            attrs[j] = (key, value);
            proof {
                assert(attrs_model(attrs@) =~= insert_attr(a, key@, value@));
            }
            return;
        }
        proof {
            assert(keys_of(a)[j as int] != key@);
        }
        j = j + 1;
    }
    attrs.push((key, value));
    proof {
        assert(attrs_model(attrs@) =~= insert_attr(a, key@, value@));
    }
}

/// Decodes `count` attributes at `pos`: key index, tag and payload each.
fn decode_attributes(data: &[u8], pos: usize, count: u8, lookup: &[String]) -> (r: Result<(Vec<(String, Value)>, usize), CodecError>)
    requires
        pos <= data.len(),
    ensures
        match r {
            Ok((a, q)) => decode_attrs_spec(table_view(lookup@), data@, pos as int, count as nat, seq![])
                == Ok::<(Seq<AttrModel>, int), CodecError>((attrs_model(a@), q as int)) && pos <= q <= data.len(),
            Err(e) => decode_attrs_spec(table_view(lookup@), data@, pos as int, count as nat, seq![])
                == Err::<(Seq<AttrModel>, int), CodecError>(e),
        },
{
    let ghost t = table_view(lookup@);
    let q2 = pos;
    let mut attributes: Vec<(String, Value)> = Vec::new();
    let mut q: usize = q2;
    let mut k: u8 = 0;
    proof {
        assert(attrs_model(attributes@) =~= Seq::<AttrModel>::empty());
    }
    while k < count
        invariant
            k <= count,
            q2 <= q <= data.len(),
            q2 == pos,
            t == table_view(lookup@),
            decode_attrs_spec(t, data@, q2 as int, count as nat, seq![]) == decode_attrs_spec(
                t,
                data@,
                q as int,
                (count - k) as nat,
                attrs_model(attributes@),
            ),
        decreases count - k,
    {
        let (ki, r1) = match read_u16_le(data, q) {
            Ok(x) => x,
            Err(e) => {
                assert(read_u16_spec(data@, q as int) == Err::<(u16, int), CodecError>(e));
                return Err(e);
            },
        };
        if ki as usize >= lookup.len() {
            return Err(CodecError::InvalidIndex);
        }
        let (tag, r2) = match read_u8(data, r1) {
            Ok(x) => x,
            Err(e) => {
                assert(read_u8_spec(data@, r1 as int) == Err::<(u8, int), CodecError>(e));
                return Err(e);
            },
        };
        let (value, r3) = match decode_value(tag, lookup, data, r2) {
            Ok(x) => x,
            Err(e) => return Err(e),
        };
        proof {
            lemma_decode_value_advances(tag, t, data@, r2 as int);
        }
        let key = lookup[ki as usize].clone();
        insert_attribute(&mut attributes, key, value);
        q = r3;
        k = k + 1;
    }
    Ok((attributes, q))
}

/// A decoded element with its next position, seen through models.
pub open spec fn at_pos_element(r: Result<(DecodedElement, usize), CodecError>) -> Result<(ElementModel, int), CodecError> {
    match r {
        Ok((e, q)) => Ok((e.model(), q as int)),
        Err(e) => Err(e),
    }
}

/// Decodes an element at `pos` with the table `lookup`; returns it with the
/// position after it. A later duplicate key overwrites an earlier one; a zero
/// child count gives absent children.
pub fn decode_element(data: &[u8], pos: usize, lookup: &[String]) -> (r: Result<(DecodedElement, usize), CodecError>)
    ensures
        at_pos_element(r) == decode_element_spec(table_view(lookup@), data@, pos as int),
        r matches Ok((_, q)) ==> pos < q <= data.len(),
    decreases data.len() - pos,
{
    let ghost t = table_view(lookup@);
    let (ni, q1) = match read_u16_le(data, pos) {
        Ok(x) => x,
        Err(e) => return Err(e),
    };
    if ni as usize >= lookup.len() {
        return Err(CodecError::InvalidIndex);
    }
    let name = lookup[ni as usize].clone();
    let (count, q2) = match read_u8(data, q1) {
        Ok(x) => x,
        Err(e) => return Err(e),
    };
    let (attributes, q) = match decode_attributes(data, q2, count, lookup) {
        Ok(x) => x,
        Err(e) => return Err(e),
    };
    let (n, q4) = match read_u16_le(data, q) {
        Ok(x) => x,
        Err(e) => return Err(e),
    };
    if n == 0 {
        return Ok((DecodedElement { name, attributes, children: None }, q4));
    }
    let mut children: Vec<DecodedElement> = Vec::new();
    let mut c: u16 = 0;
    let mut p: usize = q4;
    proof {
        assert(models_of(children@) =~= Seq::<ElementModel>::empty());
    }
    while c < n
        invariant
            c <= n,
            pos < q4 <= p <= data.len(),
            t == table_view(lookup@),
            read_u16_spec(data@, pos as int) == Ok::<(u16, int), CodecError>((ni, q1 as int)),
            (ni as int) < t.len(),
            name@ == t[ni as int],
            read_u8_spec(data@, q1 as int) == Ok::<(u8, int), CodecError>((count, q2 as int)),
            decode_attrs_spec(t, data@, q2 as int, count as nat, seq![]) == Ok::<(Seq<AttrModel>, int), CodecError>(
                (attrs_model(attributes@), q as int),
            ),
            read_u16_spec(data@, q as int) == Ok::<(u16, int), CodecError>((n, q4 as int)),
            n != 0,
            decode_children_spec(t, data@, q4 as int, n as nat, seq![]) == decode_children_spec(
                t,
                data@,
                p as int,
                (n - c) as nat,
                models_of(children@),
            ),
        decreases n - c,
    {
        let (child, p2) = match decode_element(data, p, lookup) {
            Ok(x) => x,
            Err(e) => return Err(e),
        };
        let ghost before = children@;
        children.push(child);
        proof {
            assert(children@.drop_last() =~= before);
        }
        p = p2;
        c = c + 1;
    }
    Ok((DecodedElement { name, attributes, children: Some(children) }, p))
}

/// `seen` with `s` added last unless it is there already.
pub open spec fn add_unique(seen: Seq<Seq<char>>, s: Seq<char>) -> Seq<Seq<char>> {
    if seen.contains(s) {
        seen
    } else {
        seen.push(s)
    }
}

/// The strings of one attribute that the lookup table holds: its key unless
/// it is metadata, then its value if that is a string.
pub open spec fn collect_attr(seen: Seq<Seq<char>>, a: AttrModel) -> Seq<Seq<char>> {
    let s1 = if is_metadata_key_spec(a.0) {
        seen
    } else {
        add_unique(seen, a.0)
    };
    match a.1 {
        ValueModel::Str(v) => add_unique(s1, v),
        _ => s1,
    }
}

/// The table strings of attributes in order.
pub open spec fn collect_attrs(seen: Seq<Seq<char>>, a: Seq<AttrModel>) -> Seq<Seq<char>>
    decreases a.len(),
{
    if a.len() == 0 {
        seen
    } else {
        collect_attr(collect_attrs(seen, a.drop_last()), a.last())
    }
}

/// The table strings of a tree, depth first in order of discovery: the name,
/// the attributes, then each child.
pub open spec fn collect_element(seen: Seq<Seq<char>>, e: ElementModel) -> Seq<Seq<char>>
    decreases e, 1nat,
{
    let s2 = collect_attrs(add_unique(seen, e.name), e.attributes);
    match e.children {
        Some(c) => collect_children(s2, c),
        None => s2,
    }
}

/// The table strings of elements one after another.
pub open spec fn collect_children(seen: Seq<Seq<char>>, c: Seq<ElementModel>) -> Seq<Seq<char>>
    decreases c, 0nat,
{
    if c.len() == 0 {
        seen
    } else {
        collect_element(collect_children(seen, c.drop_last()), c.last())
    }
}

/// Adds `s` to `seen` unless it is there already.
pub(crate) fn add_unique_exec(seen: &mut Vec<String>, s: &String)
    ensures
        table_view(final(seen)@) == add_unique(table_view(old(seen)@), s@),
{
    proof {
        crate::value::lemma_find_from(table_view(seen@), s@, 0);
    }
    match find_string(seen.as_slice(), s) {
        Some(_) => {},
        None => {
            let ghost before = table_view(seen@);
            seen.push(s.clone());
            proof {
                assert(!before.contains(s@));
                assert(table_view(seen@) =~= before.push(s@));
            }
        },
    }
}

impl DecodedElement {
    /// An element with `name`, no attributes and no children.
    pub fn new(name: &str) -> (r: DecodedElement)
        ensures
            r.model() == (ElementModel { name: name@, attributes: seq![], children: None }),
    {
        let r = DecodedElement { name: name.to_owned(), attributes: Vec::new(), children: None };
        proof {
            assert(attrs_model(r.attributes@) =~= Seq::<AttrModel>::empty());
        }
        r
    }

    /// Adds to `seen`, in order of discovery and each once, the strings that
    /// the lookup table holds for this tree: each element's name, each
    /// attribute key that is not metadata, and each string value.
    pub fn collect_keys(&self, seen: &mut Vec<String>)
        ensures
            table_view(final(seen)@) == collect_element(table_view(old(seen)@), self.model()),
    {
        collect_into(self, seen);
    }
}

/// Adds the table strings of `e` to `seen`.
fn collect_into(e: &DecodedElement, seen: &mut Vec<String>)
    ensures
        table_view(final(seen)@) == collect_element(table_view(old(seen)@), e.model()),
    decreases e,
{
    add_unique_exec(seen, &e.name);
    let ghost s1 = table_view(seen@);
    let mut i: usize = 0;
    proof {
        assert(attrs_model(e.attributes@.subrange(0, 0)) =~= Seq::<AttrModel>::empty());
    }
    while i < e.attributes.len()
        invariant
            i <= e.attributes.len(),
            table_view(seen@) == collect_attrs(s1, attrs_model(e.attributes@.subrange(0, i as int))),
        decreases e.attributes.len() - i,
    {
        proof {
            lemma_attrs_model_prefix(e.attributes@, i as int);
            let pre = attrs_model(e.attributes@.subrange(0, i as int));
            assert(pre.push((e.attributes@[i as int].0@, e.attributes@[i as int].1@)).drop_last() =~= pre);
        }
        let key = &e.attributes[i].0;
        if !is_metadata_key(key.as_str()) {
            add_unique_exec(seen, key);
        }
        match &e.attributes[i].1 {
            Value::Str(v) => add_unique_exec(seen, v),
            _ => {},
        }
        i = i + 1;
    }
    proof {
        assert(e.attributes@.subrange(0, i as int) =~= e.attributes@);
    }
    match &e.children {
        None => {},
        Some(children) => {
            let ghost s2 = table_view(seen@);
            let mut j: usize = 0;
            proof {
                assert(children@.subrange(0, 0) =~= Seq::<DecodedElement>::empty());
            }
            while j < children.len()
                invariant
                    j <= children.len(),
                    e.children == Some(*children),
                    e.model().children == Some(models_of(children@)),
                    table_view(seen@) == collect_children(s2, models_of(children@.subrange(0, j as int))),
                decreases children.len() - j,
            {
                proof {
                    axiom_vec_index_decreases(*children, j as int);
                    assert(e.children == Some(*children));
                    assert(decreases_to!(e => *children));
                    let pre = models_of(children@.subrange(0, j as int));
                    assert(children@.subrange(0, j as int + 1).drop_last() =~= children@.subrange(0, j as int));
                    assert(models_of(children@.subrange(0, j as int + 1)).drop_last() =~= pre);
                }
                collect_into(&children[j], seen);
                j = j + 1;
            }
            proof {
                assert(children@.subrange(0, j as int) =~= children@);
            }
        },
    }
}

/// Attribute keys are unique on every element of the tree.
pub open spec fn well_formed(e: ElementModel) -> bool
    decreases e, 1nat,
{
    keys_of(e.attributes).no_duplicates() && match e.children {
        Some(c) => all_well_formed(c),
        None => true,
    }
}

/// Every element of `c` is well formed.
pub open spec fn all_well_formed(c: Seq<ElementModel>) -> bool
    decreases c, 0nat,
{
    c.len() == 0 || (all_well_formed(c.drop_last()) && well_formed(c.last()))
}

/// What a decode gives back for a tree that was encoded: only the attributes
/// on the wire, and absent children where there were none.
pub open spec fn normalized(e: ElementModel) -> ElementModel
    decreases e, 1nat,
{
    ElementModel {
        name: e.name,
        attributes: wire_attrs(e.attributes),
        children: match e.children {
            Some(c) => if c.len() == 0 {
                None
            } else {
                Some(normalized_all(c))
            },
            None => None,
        },
    }
}

/// `normalized` on each element.
pub open spec fn normalized_all(c: Seq<ElementModel>) -> Seq<ElementModel>
    decreases c, 0nat,
{
    if c.len() == 0 {
        seq![]
    } else {
        normalized_all(c.drop_last()).push(normalized(c.last()))
    }
}

/// The attributes on the wire keep distinct keys, and each of their keys is a key of `a`.
pub proof fn lemma_wire_keys(a: Seq<AttrModel>)
    requires
        keys_of(a).no_duplicates(),
    ensures
        keys_of(wire_attrs(a)).no_duplicates(),
        forall|k: Seq<char>| keys_of(wire_attrs(a)).contains(k) ==> keys_of(a).contains(k),
    decreases a.len(),
{
    if a.len() > 0 {
        let a1 = a.drop_last();
        assert(keys_of(a1) =~= keys_of(a).drop_last());
        lemma_wire_keys(a1);
        if on_wire(a.last()) {
            let w1 = wire_attrs(a1);
            assert(keys_of(w1.push(a.last())) =~= keys_of(w1).push(a.last().0));
            assert forall|k: Seq<char>| keys_of(a1).contains(k) implies keys_of(a).contains(k) by {
                let j = choose|j: int| 0 <= j < keys_of(a1).len() && keys_of(a1)[j] == k;
                assert(a1[j] == a[j]);
                assert(keys_of(a)[j] == k);
            }
            assert(!keys_of(w1).contains(a.last().0)) by {
                if keys_of(w1).contains(a.last().0) {
                    assert(keys_of(a1).contains(a.last().0));
                    let j = choose|j: int| 0 <= j < keys_of(a1).len() && keys_of(a1)[j] == a.last().0;
                    assert(keys_of(a)[j] == keys_of(a1)[j]);
                    assert(keys_of(a)[a.len() - 1] == a.last().0);
                }
            }
            assert forall|k: Seq<char>| keys_of(wire_attrs(a)).contains(k) implies keys_of(a).contains(k) by {
                if k != a.last().0 {
                    assert(keys_of(w1).contains(k));
                    assert(keys_of(a1).contains(k));
                    let j = choose|j: int| 0 <= j < keys_of(a1).len() && keys_of(a1)[j] == k;
                    assert(a1[j] == a[j]);
                    assert(keys_of(a)[j] == k);
                } else {
                    assert(keys_of(a)[a.len() - 1] == k);
                }
            }
        } else {
            assert forall|k: Seq<char>| keys_of(wire_attrs(a)).contains(k) implies keys_of(a).contains(k) by {
                assert(keys_of(a1).contains(k));
                let j = choose|j: int| 0 <= j < keys_of(a1).len() && keys_of(a1)[j] == k;
                assert(a1[j] == a[j]);
                assert(keys_of(a)[j] == k);
            }
        }
    }
}

proof fn lemma_decode_attrs_split(t: Seq<Seq<char>>, b: Seq<u8>, p: int, n1: nat, n2: nat, acc: Seq<AttrModel>)
    ensures
        decode_attrs_spec(t, b, p, n1 + n2, acc) == match decode_attrs_spec(t, b, p, n1, acc) {
            Ok((acc2, q)) => decode_attrs_spec(t, b, q, n2, acc2),
            Err(e) => Err(e),
        },
    decreases n1,
{
    if n1 > 0 {
        if let Ok((ki, q1)) = read_u16_spec(b, p) {
            if (ki as int) < t.len() {
                if let Ok((tag, q2)) = read_u8_spec(b, q1) {
                    if let Ok((v, q3)) = decode_value_spec(tag, t, b, q2) {
                        lemma_decode_attrs_split(t, b, q3, (n1 - 1) as nat, n2, insert_attr(acc, t[ki as int], v));
                        assert((n1 + n2 - 1) as nat == ((n1 - 1) as nat + n2) as nat);
                    }
                }
            }
        }
    }
}

proof fn lemma_attr_step(x: AttrModel, t: Seq<Seq<char>>, pre: Seq<u8>, rest: Seq<u8>, acc: Seq<AttrModel>)
    requires
        index_bytes(x.0, t) is Ok,
        encode_value_spec(x.1, t) is Ok,
        !keys_of(acc).contains(x.0),
    ensures
        decode_attrs_spec(
            t,
            pre + (index_bytes(x.0, t)->Ok_0 + encode_value_spec(x.1, t)->Ok_0) + rest,
            pre.len() as int,
            1,
            acc,
        ) == Ok::<(Seq<AttrModel>, int), CodecError>(
            (acc.push(x), pre.len() + 2 + encode_value_spec(x.1, t)->Ok_0.len() as int),
        ),
{
    let kb = index_bytes(x.0, t)->Ok_0;
    let vb = encode_value_spec(x.1, t)->Ok_0;
    let b = pre + (kb + vb) + rest;
    let p = pre.len() as int;
    lemma_find_from(t, x.0, 0);
    let i = find_index(t, x.0)->Some_0;
    assert(b =~= pre + le16(i as u16 as nat) + (vb + rest));
    lemma_u16_round_trip(pre, i as u16, vb + rest);
    lemma_value_round_trip(x.1, t, pre + kb, rest);
    assert(b =~= (pre + kb) + vb + rest);
    assert(b[p + 2] == vb[0]);
    lemma_find_from(keys_of(acc), x.0, 0);
    assert(insert_attr(acc, x.0, x.1) == acc.push(x));
    reveal_with_fuel(decode_attrs_spec, 2);
}

#[verifier::rlimit(100)]
#[verifier::spinoff_prover]
proof fn lemma_attrs_round_trip(a: Seq<AttrModel>, t: Seq<Seq<char>>, pre: Seq<u8>, rest: Seq<u8>, acc: Seq<AttrModel>)
    requires
        encode_attrs_spec(a, t) is Ok,
        keys_of(acc + a).no_duplicates(),
    ensures
        decode_attrs_spec(t, pre + encode_attrs_spec(a, t)->Ok_0 + rest, pre.len() as int, a.len(), acc)
            == Ok::<(Seq<AttrModel>, int), CodecError>((acc + a, pre.len() + encode_attrs_spec(a, t)->Ok_0.len() as int)),
    decreases a.len(),
{
    let w = encode_attrs_spec(a, t)->Ok_0;
    let b = pre + w + rest;
    let p = pre.len() as int;
    if a.len() == 0 {
        assert(acc + a =~= acc);
    } else {
        let a1 = a.drop_last();
        let x = a.last();
        let w1 = encode_attrs_spec(a1, t)->Ok_0;
        let kb = index_bytes(x.0, t)->Ok_0;
        let vb = encode_value_spec(x.1, t)->Ok_0;
        assert(w == w1 + kb + vb);
        assert(keys_of(acc + a1) =~= keys_of(acc + a).drop_last());
        lemma_attrs_round_trip(a1, t, pre, (kb + vb) + rest, acc);
        assert(b =~= pre + w1 + ((kb + vb) + rest));
        lemma_decode_attrs_split(t, b, p, a1.len(), 1, acc);
        assert(a1.len() + 1 == a.len());
        let acc2 = acc + a1;
        assert(!keys_of(acc2).contains(x.0)) by {
            if keys_of(acc2).contains(x.0) {
                let j = choose|j: int| 0 <= j < keys_of(acc2).len() && keys_of(acc2)[j] == x.0;
                assert(keys_of(acc + a)[j] == keys_of(acc2)[j]);
                assert(keys_of(acc + a)[acc.len() + a.len() - 1] == x.0);
            }
        }
        assert(b =~= (pre + w1) + (kb + vb) + rest);
        lemma_attr_step(x, t, pre + w1, rest, acc2);
        assert(acc2.push(x) =~= acc + a);
    }
}

proof fn lemma_decode_children_split(t: Seq<Seq<char>>, b: Seq<u8>, p: int, n1: nat, n2: nat, acc: Seq<ElementModel>)
    ensures
        decode_children_spec(t, b, p, n1 + n2, acc) == match decode_children_spec(t, b, p, n1, acc) {
            Ok((acc2, q)) => decode_children_spec(t, b, q, n2, acc2),
            Err(e) => Err(e),
        },
    decreases n1,
{
    if n1 > 0 {
        if let Ok((e, q)) = decode_element_spec(t, b, p) {
            if !(q <= p || q > b.len()) {
                lemma_decode_children_split(t, b, q, (n1 - 1) as nat, n2, acc.push(e));
                assert((n1 + n2 - 1) as nat == ((n1 - 1) as nat + n2) as nat);
            }
        }
    }
}

#[verifier::rlimit(100)]
#[verifier::spinoff_prover]
proof fn lemma_element_head(
    t: Seq<Seq<char>>,
    name: Seq<char>,
    attrs: Seq<AttrModel>,
    nkids: nat,
    cw: Seq<u8>,
    pre: Seq<u8>,
    rest: Seq<u8>,
)
    requires
        index_bytes(name, t) is Ok,
        attrs.len() <= 255,
        encode_attrs_spec(attrs, t) is Ok,
        keys_of(attrs).no_duplicates(),
        nkids <= 0xFFFF,
    ensures
        ({
            let nb = index_bytes(name, t)->Ok_0;
            let aw = encode_attrs_spec(attrs, t)->Ok_0;
            let b = pre + (nb + seq![attrs.len() as u8] + aw + le16(nkids) + cw) + rest;
            let p = pre.len() as int;
            let i = find_index(t, name)->Some_0;
            &&& read_u16_spec(b, p) == Ok::<(u16, int), CodecError>((i as u16, p + 2))
            &&& (i as u16 as int) < t.len() && t[i as u16 as int] == name
            &&& read_u8_spec(b, p + 2) == Ok::<(u8, int), CodecError>((attrs.len() as u8, p + 3))
            &&& decode_attrs_spec(t, b, p + 3, attrs.len() as u8 as nat, seq![]) == Ok::<(Seq<AttrModel>, int), CodecError>(
                (attrs, p + 3 + aw.len()),
            )
            &&& read_u16_spec(b, p + 3 + aw.len()) == Ok::<(u16, int), CodecError>((nkids as u16, p + 5 + aw.len()))
        }),
{
    let nb = index_bytes(name, t)->Ok_0;
    let aw = encode_attrs_spec(attrs, t)->Ok_0;
    let cnt = seq![attrs.len() as u8];
    let tail = le16(nkids) + cw;
    let b = pre + (nb + cnt + aw + le16(nkids) + cw) + rest;
    assert(b =~= pre + nb + (cnt + aw + tail + rest));
    lemma_head_name(t, name, pre, cnt + aw + tail + rest);
    assert(b =~= (pre + nb) + cnt + (aw + tail + rest));
    lemma_head_count(attrs.len() as u8, pre + nb, aw + tail + rest);
    assert(b =~= (pre + nb + cnt) + aw + (tail + rest));
    lemma_head_attrs(t, attrs, pre + nb + cnt, tail + rest);
    assert(b =~= (pre + nb + cnt + aw) + le16(nkids as u16 as nat) + (cw + rest));
    lemma_u16_round_trip(pre + nb + cnt + aw, nkids as u16, cw + rest);
}

proof fn lemma_head_count(x: u8, pre: Seq<u8>, rest: Seq<u8>)
    ensures
        read_u8_spec(pre + seq![x] + rest, pre.len() as int) == Ok::<(u8, int), CodecError>((x, pre.len() + 1int)),
{
    assert((pre + seq![x] + rest)[pre.len() as int] == x);
}

proof fn lemma_head_attrs(t: Seq<Seq<char>>, attrs: Seq<AttrModel>, pre: Seq<u8>, rest: Seq<u8>)
    requires
        attrs.len() <= 255,
        encode_attrs_spec(attrs, t) is Ok,
        keys_of(attrs).no_duplicates(),
    ensures
        decode_attrs_spec(t, pre + encode_attrs_spec(attrs, t)->Ok_0 + rest, pre.len() as int, attrs.len() as u8 as nat, seq![])
            == Ok::<(Seq<AttrModel>, int), CodecError>((attrs, pre.len() + encode_attrs_spec(attrs, t)->Ok_0.len() as int)),
{
    assert(Seq::<AttrModel>::empty() + attrs =~= attrs);
    assert(attrs.len() as u8 as nat == attrs.len());
    lemma_attrs_round_trip(attrs, t, pre, rest, seq![]);
}

proof fn lemma_head_name(t: Seq<Seq<char>>, name: Seq<char>, pre: Seq<u8>, rest: Seq<u8>)
    requires
        index_bytes(name, t) is Ok,
    ensures
        ({
            let b = pre + index_bytes(name, t)->Ok_0 + rest;
            let i = find_index(t, name)->Some_0;
            &&& read_u16_spec(b, pre.len() as int) == Ok::<(u16, int), CodecError>((i as u16, pre.len() + 2int))
            &&& (i as u16 as int) < t.len() && t[i as u16 as int] == name
        }),
{
    lemma_find_from(t, name, 0);
    let i = find_index(t, name)->Some_0;
    lemma_u16_round_trip(pre, i as u16, rest);
}

proof fn lemma_decode_element_shape(
    t: Seq<Seq<char>>,
    b: Seq<u8>,
    p: int,
    i: u16,
    name: Seq<char>,
    count: u8,
    attrs: Seq<AttrModel>,
    q3: int,
    n: u16,
    q4: int,
)
    requires
        read_u16_spec(b, p) == Ok::<(u16, int), CodecError>((i, p + 2)),
        (i as int) < t.len() && t[i as int] == name,
        read_u8_spec(b, p + 2) == Ok::<(u8, int), CodecError>((count, p + 3)),
        decode_attrs_spec(t, b, p + 3, count as nat, seq![]) == Ok::<(Seq<AttrModel>, int), CodecError>((attrs, q3)),
        read_u16_spec(b, q3) == Ok::<(u16, int), CodecError>((n, q4)),
    ensures
        decode_element_spec(t, b, p) == if n == 0 {
            Ok::<(ElementModel, int), CodecError>((ElementModel { name, attributes: attrs, children: None }, q4))
        } else {
            match decode_children_spec(t, b, q4, n as nat, seq![]) {
                Err(e) => Err(e),
                Ok((kids, q5)) => Ok((ElementModel { name, attributes: attrs, children: Some(kids) }, q5)),
            }
        },
{
}

/// Decoding the bytes of an encoded element gives back its normalized form,
/// and the position just past those bytes.
#[verifier::rlimit(100)]
#[verifier::spinoff_prover]
pub proof fn lemma_element_round_trip(e: ElementModel, t: Seq<Seq<char>>, pre: Seq<u8>, rest: Seq<u8>)
    requires
        well_formed(e),
        encode_element_spec(e, t) is Ok,
    ensures
        encode_element_spec(e, t)->Ok_0.len() >= 5,
        decode_element_spec(t, pre + encode_element_spec(e, t)->Ok_0 + rest, pre.len() as int)
            == Ok::<(ElementModel, int), CodecError>(
            (normalized(e), pre.len() + encode_element_spec(e, t)->Ok_0.len() as int),
        ),
    decreases e, 1nat,
{
    let w = encode_element_spec(e, t)->Ok_0;
    let b = pre + w + rest;
    let p = pre.len() as int;
    let nb = index_bytes(e.name, t)->Ok_0;
    let attrs = wire_attrs(e.attributes);
    let aw = encode_attrs_spec(attrs, t)->Ok_0;
    let kids = children_of(e);
    let cw = match e.children {
        Some(c) => encode_children_spec(c, t)->Ok_0,
        None => Seq::<u8>::empty(),
    };
    assert(w == nb + seq![attrs.len() as u8] + aw + le16(kids.len()) + cw);
    lemma_wire_keys(e.attributes);
    lemma_element_head(t, e.name, attrs, kids.len(), cw, pre, rest);
    let q4 = p + 5 + aw.len();
    let i = find_index(t, e.name)->Some_0 as u16;
    lemma_decode_element_shape(t, b, p, i, e.name, attrs.len() as u8, attrs, p + 3 + aw.len(), kids.len() as u16, q4);
    match e.children {
        None => {},
        Some(c) => {
            if c.len() > 0 {
                let pre3 = pre + nb + seq![attrs.len() as u8] + aw + le16(kids.len());
                assert(b =~= pre3 + cw + rest);
                lemma_children_round_trip(c, t, pre3, rest, seq![]);
                assert(Seq::<ElementModel>::empty() + normalized_all(c) =~= normalized_all(c));
            } else {
                assert(cw =~= Seq::<u8>::empty());
            }
        },
    }
}

proof fn lemma_child_step(t: Seq<Seq<char>>, b: Seq<u8>, q: int, acc: Seq<ElementModel>, e: ElementModel, q2: int)
    requires
        decode_element_spec(t, b, q) == Ok::<(ElementModel, int), CodecError>((e, q2)),
        q < q2 <= b.len(),
    ensures
        decode_children_spec(t, b, q, 1, acc) == Ok::<(Seq<ElementModel>, int), CodecError>((acc.push(e), q2)),
{
    assert(decode_children_spec(t, b, q2, 0, acc.push(e)) == Ok::<(Seq<ElementModel>, int), CodecError>((acc.push(e), q2)));
}

#[verifier::rlimit(100)]
#[verifier::spinoff_prover]
proof fn lemma_children_round_trip(c: Seq<ElementModel>, t: Seq<Seq<char>>, pre: Seq<u8>, rest: Seq<u8>, acc: Seq<ElementModel>)
    requires
        all_well_formed(c),
        encode_children_spec(c, t) is Ok,
    ensures
        decode_children_spec(t, pre + encode_children_spec(c, t)->Ok_0 + rest, pre.len() as int, c.len(), acc)
            == Ok::<(Seq<ElementModel>, int), CodecError>(
            (acc + normalized_all(c), pre.len() + encode_children_spec(c, t)->Ok_0.len() as int),
        ),
    decreases c, 0nat,
{
    let w = encode_children_spec(c, t)->Ok_0;
    let b = pre + w + rest;
    let p = pre.len() as int;
    if c.len() == 0 {
        assert(acc + normalized_all(c) =~= acc);
    } else {
        let c1 = c.drop_last();
        let x = c.last();
        let w1 = encode_children_spec(c1, t)->Ok_0;
        let xw = encode_element_spec(x, t)->Ok_0;
        assert(w == w1 + xw);
        lemma_children_round_trip(c1, t, pre, xw + rest, acc);
        assert(b =~= pre + w1 + (xw + rest));
        lemma_decode_children_split(t, b, p, c1.len(), 1, acc);
        assert(c1.len() + 1 == c.len());
        lemma_element_round_trip(x, t, pre + w1, rest);
        assert(b =~= (pre + w1) + xw + rest);
        let acc2 = acc + normalized_all(c1);
        let q = p + w1.len();
        lemma_child_step(t, b, q, acc2, normalized(x), q + xw.len());
        assert(acc2.push(normalized(x)) =~= acc + normalized_all(c));
    }
}

/// No element of the tree has a metadata attribute key.
pub open spec fn no_metadata(e: ElementModel) -> bool
    decreases e, 1nat,
{
    (forall|j: int| 0 <= j < e.attributes.len() ==> !is_metadata_key_spec(#[trigger] e.attributes[j].0))
        && match e.children {
        Some(c) => all_no_metadata(c),
        None => true,
    }
}

/// No element of `c` has a metadata attribute key anywhere below it.
pub open spec fn all_no_metadata(c: Seq<ElementModel>) -> bool
    decreases c, 0nat,
{
    c.len() == 0 || (all_no_metadata(c.drop_last()) && no_metadata(c.last()))
}

proof fn lemma_wire_attrs_on_wire(a: Seq<AttrModel>)
    ensures
        forall|j: int| 0 <= j < wire_attrs(a).len() ==> on_wire(#[trigger] wire_attrs(a)[j]),
    decreases a.len(),
{
    if a.len() > 0 {
        let w1 = wire_attrs(a.drop_last());
        lemma_wire_attrs_on_wire(a.drop_last());
        if on_wire(a.last()) {
            assert forall|j: int| 0 <= j < wire_attrs(a).len() implies on_wire(#[trigger] wire_attrs(a)[j]) by {
                if j < w1.len() {
                    assert(wire_attrs(a)[j] == w1[j]);
                }
            }
        }
    }
}

/// Setting a key that is not metadata keeps every key of `a` free of metadata.
pub proof fn lemma_insert_keeps_no_metadata(a: Seq<AttrModel>, k: Seq<char>, v: ValueModel)
    requires
        forall|j: int| 0 <= j < a.len() ==> !is_metadata_key_spec(#[trigger] a[j].0),
        !is_metadata_key_spec(k),
    ensures
        forall|j: int| 0 <= j < insert_attr(a, k, v).len() ==> !is_metadata_key_spec(#[trigger] insert_attr(a, k, v)[j].0),
{
    let r = insert_attr(a, k, v);
    lemma_find_from(keys_of(a), k, 0);
    match find_index(keys_of(a), k) {
        Some(x) => {
            assert forall|j: int| 0 <= j < r.len() implies !is_metadata_key_spec(#[trigger] r[j].0) by {
                if j != x {
                    assert(r[j] == a[j]);
                }
            }
        },
        None => {
            assert forall|j: int| 0 <= j < r.len() implies !is_metadata_key_spec(#[trigger] r[j].0) by {
                if j < a.len() {
                    assert(r[j] == a[j]);
                }
            }
        },
    }
}

/// A normalized tree has no metadata attribute keys.
pub proof fn lemma_normalized_no_metadata(e: ElementModel)
    ensures
        no_metadata(normalized(e)),
    decreases e, 1nat,
{
    lemma_wire_attrs_on_wire(e.attributes);
    match e.children {
        Some(c) => {
            if c.len() > 0 {
                lemma_all_normalized_no_metadata(c);
            }
        },
        None => {},
    }
}

proof fn lemma_all_normalized_no_metadata(c: Seq<ElementModel>)
    ensures
        all_no_metadata(normalized_all(c)),
    decreases c, 0nat,
{
    if c.len() > 0 {
        lemma_all_normalized_no_metadata(c.drop_last());
        lemma_normalized_no_metadata(c.last());
        let n = normalized_all(c);
        assert(n.drop_last() =~= normalized_all(c.drop_last()));
    }
}

} // verus!
