//! Reading never looks past what it consumes: a read that succeeds on some
//! bytes gives the same result on any longer input that starts with them.
//! Hence no strict prefix of an encoded document reads as a document.

use vstd::prelude::*;

use crate::document::{
    decode_document_spec, decode_map_spec, encode_document_spec, encode_map_spec, encode_with_table_spec,
    lemma_round_trip_with_table,
    parse_document, read_table_spec,
};
use crate::element::{decode_attrs_spec, decode_children_spec, decode_element_spec, well_formed, AttrModel, ElementModel};
use crate::error::CodecError;
use crate::primitive::{
    read_rle_spec, read_string_spec, read_u16_spec, read_u32_spec, read_u8_spec, read_varuint_spec,
    varuint_scan,
};
use crate::value::decode_value_spec;

verus! {

/// `b1` is the start of `b2`.
pub open spec fn prefix_of(b1: Seq<u8>, b2: Seq<u8>) -> bool {
    b1.len() <= b2.len() && forall|i: int| 0 <= i < b1.len() ==> b1[i] == b2[i]
}

proof fn lemma_scan_prefix(b1: Seq<u8>, b2: Seq<u8>, p: int, i: nat, acc: nat)
    requires
        prefix_of(b1, b2),
        varuint_scan(b1, p, i, acc) is Ok,
    ensures
        varuint_scan(b2, p, i, acc) == varuint_scan(b1, p, i, acc),
    decreases 5 - i,
{
    if i < 5 && p >= 0 && p + i < b1.len() && b1[p + i] >= 128 {
        lemma_scan_prefix(b1, b2, p, i + 1, (acc + (b1[p + i] - 128) * crate::primitive::pow128(i)) as nat);
    }
}

proof fn lemma_string_prefix(b1: Seq<u8>, b2: Seq<u8>, p: int)
    requires
        prefix_of(b1, b2),
        read_string_spec(b1, p) is Ok,
    ensures
        read_string_spec(b2, p) == read_string_spec(b1, p),
{
    lemma_scan_prefix(b1, b2, p, 0, 0);
    crate::primitive::lemma_scan_advances(b1, p, 0, 0);
    let (len, q) = read_varuint_spec(b1, p)->Ok_0;
    assert(b1.subrange(q, q + len) =~= b2.subrange(q, q + len));
}

proof fn lemma_rle_prefix(b1: Seq<u8>, b2: Seq<u8>, p: int)
    requires
        prefix_of(b1, b2),
        read_rle_spec(b1, p) is Ok,
    ensures
        read_rle_spec(b2, p) == read_rle_spec(b1, p),
{
    let (n, q) = read_u16_spec(b1, p)->Ok_0;
    assert(b1.subrange(q, q + n) =~= b2.subrange(q, q + n));
}

proof fn lemma_value_prefix(tag: u8, t: Seq<Seq<char>>, b1: Seq<u8>, b2: Seq<u8>, p: int)
    requires
        prefix_of(b1, b2),
        decode_value_spec(tag, t, b1, p) is Ok,
    ensures
        decode_value_spec(tag, t, b2, p) == decode_value_spec(tag, t, b1, p),
{
    if tag == 6 {
        lemma_string_prefix(b1, b2, p);
    } else if tag == 7 {
        lemma_rle_prefix(b1, b2, p);
    }
}

proof fn lemma_attrs_prefix(t: Seq<Seq<char>>, b1: Seq<u8>, b2: Seq<u8>, p: int, n: nat, acc: Seq<AttrModel>)
    requires
        prefix_of(b1, b2),
        decode_attrs_spec(t, b1, p, n, acc) is Ok,
    ensures
        decode_attrs_spec(t, b2, p, n, acc) == decode_attrs_spec(t, b1, p, n, acc),
    decreases n,
{
    if n > 0 {
        let (ki, q1) = read_u16_spec(b1, p)->Ok_0;
        let (tag, q2) = read_u8_spec(b1, q1)->Ok_0;
        lemma_value_prefix(tag, t, b1, b2, q2);
        let (v, q3) = decode_value_spec(tag, t, b1, q2)->Ok_0;
        lemma_attrs_prefix(t, b1, b2, q3, (n - 1) as nat, crate::element::insert_attr(acc, t[ki as int], v));
    }
}

proof fn lemma_element_prefix(t: Seq<Seq<char>>, b1: Seq<u8>, b2: Seq<u8>, p: int)
    requires
        prefix_of(b1, b2),
        decode_element_spec(t, b1, p) is Ok,
    ensures
        decode_element_spec(t, b2, p) == decode_element_spec(t, b1, p),
        decode_element_spec(t, b1, p)->Ok_0.1 <= b1.len(),
    decreases b1.len() - p, 0nat, 0nat,
{
    let (ni, q1) = read_u16_spec(b1, p)->Ok_0;
    let (count, q2) = read_u8_spec(b1, q1)->Ok_0;
    lemma_attrs_prefix(t, b1, b2, q2, count as nat, seq![]);
    crate::element::lemma_decode_attrs_advances(t, b1, q2, count as nat, seq![]);
    let (attrs, q3) = decode_attrs_spec(t, b1, q2, count as nat, seq![])->Ok_0;
    let (n, q4) = read_u16_spec(b1, q3)->Ok_0;
    if n != 0 {
        lemma_children_prefix(t, b1, b2, q4, n as nat, seq![]);
    }
}

proof fn lemma_children_prefix(t: Seq<Seq<char>>, b1: Seq<u8>, b2: Seq<u8>, p: int, n: nat, acc: Seq<ElementModel>)
    requires
        prefix_of(b1, b2),
        decode_children_spec(t, b1, p, n, acc) is Ok,
        p <= b1.len(),
    ensures
        decode_children_spec(t, b2, p, n, acc) == decode_children_spec(t, b1, p, n, acc),
        decode_children_spec(t, b1, p, n, acc)->Ok_0.1 <= b1.len(),
    decreases b1.len() - p, 1nat, n,
{
    if n > 0 {
        lemma_element_prefix(t, b1, b2, p);
        let (e, q) = decode_element_spec(t, b1, p)->Ok_0;
        lemma_children_prefix(t, b1, b2, q, (n - 1) as nat, acc.push(e));
    }
}

proof fn lemma_table_prefix(b1: Seq<u8>, b2: Seq<u8>, p: int, n: nat, acc: Seq<Seq<char>>)
    requires
        prefix_of(b1, b2),
        read_table_spec(b1, p, n, acc) is Ok,
    ensures
        read_table_spec(b2, p, n, acc) == read_table_spec(b1, p, n, acc),
    decreases n,
{
    if n > 0 {
        lemma_string_prefix(b1, b2, p);
        let (s, q) = read_string_spec(b1, p)->Ok_0;
        lemma_table_prefix(b1, b2, q, (n - 1) as nat, acc.push(s));
    }
}

/// A document read from the start of some bytes reads the same from any
/// longer input, and ends within those bytes.
pub proof fn lemma_document_prefix(b1: Seq<u8>, b2: Seq<u8>)
    requires
        prefix_of(b1, b2),
        parse_document(b1) is Ok,
    ensures
        parse_document(b2) == parse_document(b1),
        parse_document(b1)->Ok_0.2 <= b1.len(),
{
    lemma_string_prefix(b1, b2, 0);
    let (h, q0) = read_string_spec(b1, 0)->Ok_0;
    lemma_string_prefix(b1, b2, q0);
    let (pkg, q1) = read_string_spec(b1, q0)->Ok_0;
    let (n, q2) = read_u16_spec(b1, q1)->Ok_0;
    lemma_table_prefix(b1, b2, q2, n as nat, seq![]);
    let (table, q3) = read_table_spec(b1, q2, n as nat, seq![])->Ok_0;
    lemma_element_prefix(table, b1, b2, q3);
}

/// Cutting bytes encoded against any lookup table anywhere before their last
/// byte leaves bytes that fail to decode, as a document and as a map.
pub proof fn lemma_truncated_fails(pkg: Seq<char>, root: ElementModel, table: Seq<Seq<char>>, k: int)
    requires
        well_formed(root),
        encode_with_table_spec(pkg, root, table) is Ok,
        0 <= k < encode_with_table_spec(pkg, root, table)->Ok_0.len(),
    ensures
        decode_document_spec(encode_with_table_spec(pkg, root, table)->Ok_0.subrange(0, k)) is Err,
        decode_map_spec(encode_with_table_spec(pkg, root, table)->Ok_0.subrange(0, k)) is Err,
{
    let w = encode_with_table_spec(pkg, root, table)->Ok_0;
    let cut = w.subrange(0, k);
    lemma_round_trip_with_table(pkg, root, table);
    if parse_document(cut) is Ok {
        lemma_document_prefix(cut, w);
    }
}

/// Cutting an encoded document anywhere before its last byte leaves bytes
/// that fail to decode, as a document and as a map.
pub proof fn lemma_truncated_document_fails(pkg: Seq<char>, root: ElementModel, k: int)
    requires
        well_formed(root),
        encode_document_spec(pkg, root) is Ok,
        0 <= k < encode_document_spec(pkg, root)->Ok_0.len(),
    ensures
        decode_document_spec(encode_document_spec(pkg, root)->Ok_0.subrange(0, k)) is Err,
        decode_map_spec(encode_document_spec(pkg, root)->Ok_0.subrange(0, k)) is Err,
{
    lemma_truncated_fails(pkg, root, crate::element::collect_element(seq![], root), k);
}

/// Cutting an encoded map anywhere before its last byte leaves bytes that
/// fail to decode as a map.
pub proof fn lemma_truncated_map_fails(m: ElementModel, k: int)
    requires
        well_formed(m),
        encode_map_spec(m) is Ok,
        0 <= k < encode_map_spec(m)->Ok_0.len(),
    ensures
        decode_map_spec(encode_map_spec(m)->Ok_0.subrange(0, k)) is Err,
{
    let i = crate::value::find_index(crate::element::keys_of(m.attributes), crate::document::PACKAGE_KEY@)->Some_0 as int;
    crate::value::lemma_find_from(crate::element::keys_of(m.attributes), crate::document::PACKAGE_KEY@, 0);
    let stripped = crate::document::without_attr(m, i);
    crate::document::lemma_remove_keeps_distinct(m.attributes, i);
    assert(well_formed(stripped));
    let table = crate::document::map_table(stripped, m.attributes[i].1->Str_0);
    assert(encode_map_spec(m) == encode_with_table_spec(m.attributes[i].1->Str_0, stripped, table));
    lemma_truncated_fails(m.attributes[i].1->Str_0, stripped, table, k);
}

} // verus!
