//! Whole map documents: magic header, package name, lookup table, root element.

use vstd::prelude::*;

use crate::element::{
    is_metadata_key_spec, lemma_insert_keeps_no_metadata, lemma_normalized_no_metadata, no_metadata,
    add_unique, add_unique_exec, lemma_wire_keys, wire_attrs,
    lemma_element_round_trip, normalized, well_formed,
    at_pos_element, collect_element, decode_element, decode_element_spec, encode_element,
    encode_element_spec, insert_attr, insert_attribute, keys_of,
    AttrModel, DecodedElement, ElementModel, attrs_model,
};
use crate::error::CodecError;
use crate::primitive::{
    lemma_read_string_advances, lemma_string_round_trip, lemma_u16_round_trip,
    le16, read_string, read_string_spec, read_u16_le, read_u16_spec, string_bytes, write_string,
    write_u16_le, wrote_partial,
};
use crate::value::{find_from, find_index, table_view, Value, ValueModel};

verus! {

/// The header that every map document starts with.
pub const MAGIC: &'static str = "CELESTE MAP";

/// The root attribute that carries the package name in memory.
pub const PACKAGE_KEY: &'static str = "package";

/// Reads `n` length-prefixed strings at `p`, after those in `acc`.
pub open spec fn read_table_spec(b: Seq<u8>, p: int, n: nat, acc: Seq<Seq<char>>) -> Result<(Seq<Seq<char>>, int), CodecError>
    decreases n,
{
    if n == 0 {
        Ok((acc, p))
    } else {
        match read_string_spec(b, p) {
            Err(e) => Err(e),
            Ok((s, q)) => read_table_spec(b, q, (n - 1) as nat, acc.push(s)),
        }
    }
}

/// The table strings, each length-prefixed, one after another.
pub open spec fn encode_table_spec(t: Seq<Seq<char>>) -> Result<Seq<u8>, CodecError>
    decreases t.len(),
{
    if t.len() == 0 {
        Ok(seq![])
    } else {
        match encode_table_spec(t.drop_last()) {
            Err(e) => Err(e),
            Ok(w) => match string_bytes(t.last()) {
                Err(e) => Err(e),
                Ok(x) => Ok(w + x),
            },
        }
    }
}

/// A document read from `b`: its package name, its root element and the
/// position just past the root.
pub open spec fn parse_document(b: Seq<u8>) -> Result<(Seq<char>, ElementModel, int), CodecError> {
    match read_string_spec(b, 0) {
        Err(e) => Err(e),
        Ok((h, q0)) => if h != MAGIC@ {
            Err(CodecError::BadMagic)
        } else {
            match read_string_spec(b, q0) {
                Err(e) => Err(e),
                Ok((pkg, q1)) => match read_u16_spec(b, q1) {
                    Err(e) => Err(e),
                    Ok((n, q2)) => match read_table_spec(b, q2, n as nat, seq![]) {
                        Err(e) => Err(e),
                        Ok((table, q3)) => match decode_element_spec(table, b, q3) {
                            Err(e) => Err(e),
                            Ok((root, q4)) => Ok((pkg, root, q4)),
                        },
                    },
                },
            }
        },
    }
}

/// A document read from `b`: its package name and its root element.
pub open spec fn decode_document_spec(b: Seq<u8>) -> Result<(Seq<char>, ElementModel), CodecError> {
    match parse_document(b) {
        Ok((pkg, root, _end)) => Ok((pkg, root)),
        Err(e) => Err(e),
    }
}

/// `root` with the package name set as its `package` attribute.
pub open spec fn with_package(root: ElementModel, pkg: Seq<char>) -> ElementModel {
    ElementModel {
        attributes: insert_attr(root.attributes, PACKAGE_KEY@, ValueModel::Str(pkg)),
        ..root
    }
}

/// A document read from `b`, its package name set on the root.
pub open spec fn decode_map_spec(b: Seq<u8>) -> Result<ElementModel, CodecError> {
    match decode_document_spec(b) {
        Err(e) => Err(e),
        Ok((pkg, root)) => Ok(with_package(root, pkg)),
    }
}

/// The bytes of a document: magic, package name, the table `table`, then
/// `root` encoded against it. The table holds at most 65535 strings.
pub open spec fn encode_with_table_spec(pkg: Seq<char>, root: ElementModel, table: Seq<Seq<char>>) -> Result<Seq<u8>, CodecError> {
    if table.len() > 0xFFFF {
        Err(CodecError::TooManyStrings)
    } else {
        match string_bytes(MAGIC@) {
            Err(e) => Err(e),
            Ok(mb) => match string_bytes(pkg) {
                Err(e) => Err(e),
                Ok(pb) => match encode_table_spec(table) {
                    Err(e) => Err(e),
                    Ok(tb) => match encode_element_spec(root, table) {
                        Err(e) => Err(e),
                        Ok(rb) => Ok(mb + pb + le16(table.len()) + tb + rb),
                    },
                },
            },
        }
    }
}

/// The bytes of a document whose table is built from `root`.
pub open spec fn encode_document_spec(pkg: Seq<char>, root: ElementModel) -> Result<Seq<u8>, CodecError> {
    encode_with_table_spec(pkg, root, collect_element(seq![], root))
}

/// The root without the attribute at index `i`.
pub open spec fn without_attr(m: ElementModel, i: int) -> ElementModel {
    ElementModel { attributes: m.attributes.remove(i), ..m }
}

/// The lookup table of a map: the root's name, the `package` key and the
/// package name, then the table strings of the rest of the tree in order of
/// discovery. It holds every string of the whole tree, and its order does
/// not depend on where `package` stands among the root's attributes.
pub open spec fn map_table(root: ElementModel, pkg: Seq<char>) -> Seq<Seq<char>> {
    collect_element(add_unique(add_unique(seq![root.name], PACKAGE_KEY@), pkg), root)
}

/// The bytes of a map whose root carries its package name as the string
/// attribute `package`. The table is built from the whole tree, `package`
/// included; the attribute itself is written in the header only, not among
/// the root's attributes.
pub open spec fn encode_map_spec(m: ElementModel) -> Result<Seq<u8>, CodecError> {
    match find_index(keys_of(m.attributes), PACKAGE_KEY@) {
        None => Err(CodecError::MissingPackage),
        Some(i) => match m.attributes[i as int].1 {
            ValueModel::Str(pkg) => encode_with_table_spec(
                pkg,
                without_attr(m, i as int),
                map_table(without_attr(m, i as int), pkg),
            ),
            _ => Err(CodecError::MissingPackage),
        },
    }
}

/// Reads a document: checks the magic header, then reads the package name,
/// the lookup table and the root element.
pub fn decode_document(data: &[u8]) -> (r: Result<(String, DecodedElement), CodecError>)
    ensures
        match r {
            Ok((pkg, root)) => decode_document_spec(data@) == Ok::<(Seq<char>, ElementModel), CodecError>((pkg@, root.model())),
            Err(e) => decode_document_spec(data@) == Err::<(Seq<char>, ElementModel), CodecError>(e),
        },
{
    let (header, q0) = match read_string(data, 0) {
        Ok(x) => x,
        Err(e) => return Err(e),
    };
    let magic = MAGIC.to_owned();
    if !(header == magic) {
        return Err(CodecError::BadMagic);
    }
    assert(header@ == MAGIC@);
    let (package, q1) = match read_string(data, q0) {
        Ok(x) => x,
        Err(e) => return Err(e),
    };
    let (n, q2) = match read_u16_le(data, q1) {
        Ok(x) => x,
        Err(e) => return Err(e),
    };
    let mut table: Vec<String> = Vec::new();
    let mut q: usize = q2;
    let mut k: u16 = 0;
    proof {
        assert(table_view(table@) =~= Seq::<Seq<char>>::empty());
    }
    while k < n
        invariant
            k <= n,
            q <= data.len(),
            read_string_spec(data@, 0) == Ok::<(Seq<char>, int), CodecError>((header@, q0 as int)),
            header@ == MAGIC@,
            read_string_spec(data@, q0 as int) == Ok::<(Seq<char>, int), CodecError>((package@, q1 as int)),
            read_u16_spec(data@, q1 as int) == Ok::<(u16, int), CodecError>((n, q2 as int)),
            read_table_spec(data@, q2 as int, n as nat, seq![]) == read_table_spec(
                data@,
                q as int,
                (n - k) as nat,
                table_view(table@),
            ),
        decreases n - k,
    {
        let (s, q_next) = match read_string(data, q) {
            Ok(x) => x,
            Err(e) => return Err(e),
        };
        proof {
            lemma_read_string_advances(data@, q as int);
        }
        let ghost before = table_view(table@);
        table.push(s);
        proof {
            assert(table_view(table@) =~= before.push(s@));
        }
        q = q_next;
        k = k + 1;
    }
    let (root, _q4) = match decode_element(data, q, table.as_slice()) {
        Ok(x) => x,
        Err(e) => return Err(e),
    };
    Ok((package, root))
}

/// Reads a map document and sets its package name as the root's `package`
/// attribute.
pub fn decode_map(data: &[u8]) -> (r: Result<DecodedElement, CodecError>)
    ensures
        match r {
            Ok(root) => decode_map_spec(data@) == Ok::<ElementModel, CodecError>(root.model()),
            Err(e) => decode_map_spec(data@) == Err::<ElementModel, CodecError>(e),
        },
{
    let (package, mut root) = match decode_document(data) {
        Ok(x) => x,
        Err(e) => return Err(e),
    };
    let ghost before = root.model();
    let ghost pkg = package@;
    insert_attribute(&mut root.attributes, PACKAGE_KEY.to_owned(), Value::Str(package));
    proof {
        assert(root.model() == with_package(before, pkg));
    }
    Ok(root)
}

/// Appends each table string, length-prefixed.
fn encode_table(out: &mut Vec<u8>, table: &Vec<String>) -> (r: Result<(), CodecError>)
    ensures
        wrote_partial(r, old(out)@, final(out)@, encode_table_spec(table_view(table@))),
{
    let ghost base = out@;
    let mut i: usize = 0;
    proof {
        assert(table_view(table@.subrange(0, 0)) =~= Seq::<Seq<char>>::empty());
        assert(out@.subrange(base.len() as int, out@.len() as int) =~= Seq::<u8>::empty());
        assert(out@.subrange(0, base.len() as int) =~= base);
    }
    while i < table.len()
        invariant
            i <= table.len(),
            base == old(out)@,
            base.len() <= out@.len(),
            out@.subrange(0, base.len() as int) == base,
            encode_table_spec(table_view(table@.subrange(0, i as int))) == Ok::<Seq<u8>, CodecError>(
                out@.subrange(base.len() as int, out@.len() as int),
            ),
        decreases table.len() - i,
    {
        let ghost before = out@;
        let ghost pre = table_view(table@.subrange(0, i as int));
        proof {
            assert(table_view(table@.subrange(0, i as int + 1)) =~= pre.push(table@[i as int]@));
            assert(pre.push(table@[i as int]@).drop_last() =~= pre);
        }
        match write_string(out, table[i].as_str()) {
            Ok(()) => {},
            Err(e) => {
                proof {
                    let x = table@[i as int]@;
                    assert(string_bytes(x) == Err::<Seq<u8>, CodecError>(e));
                    assert(table_view(table@).subrange(0, i as int + 1) =~= pre.push(x));
                    assert(encode_table_spec(pre.push(x)) == Err::<Seq<u8>, CodecError>(e));
                    lemma_table_err_tail(table_view(table@), i as int + 1);
                }
                return Err(e);
            },
        }
        proof {
            assert(out@.subrange(0, base.len() as int) =~= base);
            assert(out@.subrange(base.len() as int, out@.len() as int) =~= before.subrange(base.len() as int, before.len() as int) + string_bytes(table@[i as int]@)->Ok_0);
        }
        i = i + 1;
    }
    proof {
        assert(table@.subrange(0, i as int) =~= table@);
        assert(out@ =~= base + out@.subrange(base.len() as int, out@.len() as int));
    }
    Ok(())
}

proof fn lemma_table_err_tail(t: Seq<Seq<char>>, i: int)
    requires
        0 <= i <= t.len(),
        encode_table_spec(t.subrange(0, i)) is Err,
    ensures
        encode_table_spec(t) == encode_table_spec(t.subrange(0, i)),
    decreases t.len() - i,
{
    if i < t.len() {
        assert(t.subrange(0, i + 1).drop_last() =~= t.subrange(0, i));
        lemma_table_err_tail(t, i + 1);
    } else {
        assert(t.subrange(0, i) =~= t);
    }
}

/// Encodes a document with package name `package`, lookup table `table`
/// and root `root`.
fn encode_with_table(package: &str, root: &DecodedElement, table: &Vec<String>) -> (r: Result<Vec<u8>, CodecError>)
    ensures
        match encode_with_table_spec(package@, root.model(), table_view(table@)) {
            Ok(w) => r matches Ok(v) && v@ == w,
            Err(e) => r == Err::<Vec<u8>, CodecError>(e),
        },
{
    if table.len() > 0xFFFF {
        return Err(CodecError::TooManyStrings);
    }
    let mut out: Vec<u8> = Vec::new();
    match write_string(&mut out, MAGIC) {
        Ok(()) => {},
        Err(e) => return Err(e),
    }
    match write_string(&mut out, package) {
        Ok(()) => {},
        Err(e) => return Err(e),
    }
    write_u16_le(&mut out, table.len() as u16);
    match encode_table(&mut out, table) {
        Ok(()) => {},
        Err(e) => return Err(e),
    }
    match encode_element(&mut out, root, table.as_slice()) {
        Ok(()) => {},
        Err(e) => return Err(e),
    }
    Ok(out)
}

/// Encodes a document with package name `package` and root `root`; the lookup
/// table is built from `root` in order of discovery.
pub fn encode_document(package: &str, root: &DecodedElement) -> (r: Result<Vec<u8>, CodecError>)
    ensures
        match encode_document_spec(package@, root.model()) {
            Ok(w) => r matches Ok(v) && v@ == w,
            Err(e) => r == Err::<Vec<u8>, CodecError>(e),
        },
{
    let mut table: Vec<String> = Vec::new();
    proof {
        assert(table_view(table@) =~= Seq::<Seq<char>>::empty());
    }
    root.collect_keys(&mut table);
    encode_with_table(package, root, &table)
}

/// Encodes a map whose root carries its package name as the string attribute
/// `package`. The lookup table is built from the whole tree; the attribute
/// goes to the header and not among the root's attributes. Fails with
/// `MissingPackage` when there is no such string.
pub fn encode_map(map: DecodedElement) -> (r: Result<Vec<u8>, CodecError>)
    ensures
        match encode_map_spec(map.model()) {
            Ok(w) => r matches Ok(v) && v@ == w,
            Err(e) => r == Err::<Vec<u8>, CodecError>(e),
        },
{
    let ghost m = map.model();
    let mut map = map;
    let key = PACKAGE_KEY.to_owned();
    let ghost keys = keys_of(m.attributes);
    let mut i: usize = 0;
    while i < map.attributes.len()
        invariant
            i <= map.attributes.len(),
            m == map.model(),
            keys == keys_of(m.attributes),
            key@ == PACKAGE_KEY@,
            find_index(keys, key@) == find_from(keys, key@, i as int),
        ensures
            i <= map.attributes.len(),
            m == map.model(),
            find_index(keys, key@) == find_from(keys, key@, i as int),
            i < map.attributes.len() ==> keys[i as int] == key@,
        decreases map.attributes.len() - i,
    {
        if map.attributes[i].0 == key {
            break;
        }
        i = i + 1;
    }
    if i == map.attributes.len() {
        return Err(CodecError::MissingPackage);
    }
    proof {
        assert(find_index(keys, PACKAGE_KEY@) == Some(i as nat));
    }
    let (_k, value) = map.attributes.remove(i);
    proof {
        assert(value@ == m.attributes[i as int].1);
    }
    let package = match value {
        Value::Str(s) => s,
        _ => return Err(CodecError::MissingPackage),
    };
    proof {
        assert(attrs_model(map.attributes@) =~= m.attributes.remove(i as int));
        assert(map.model() == without_attr(m, i as int));
    }
    let mut table: Vec<String> = Vec::new();
    table.push(map.name.clone());
    proof {
        assert(table_view(table@) =~= seq![map.name@]);
    }
    add_unique_exec(&mut table, &key);
    add_unique_exec(&mut table, &package);
    map.collect_keys(&mut table);
    encode_with_table(package.as_str(), &map, &table)
}

proof fn lemma_read_table_split(b: Seq<u8>, p: int, n1: nat, n2: nat, acc: Seq<Seq<char>>)
    ensures
        read_table_spec(b, p, n1 + n2, acc) == match read_table_spec(b, p, n1, acc) {
            Ok((acc2, q)) => read_table_spec(b, q, n2, acc2),
            Err(e) => Err(e),
        },
    decreases n1,
{
    if n1 > 0 {
        if let Ok((s, q)) = read_string_spec(b, p) {
            lemma_read_table_split(b, q, (n1 - 1) as nat, n2, acc.push(s));
            assert((n1 + n2 - 1) as nat == ((n1 - 1) as nat + n2) as nat);
        }
    }
}

proof fn lemma_table_round_trip(t: Seq<Seq<char>>, pre: Seq<u8>, rest: Seq<u8>, acc: Seq<Seq<char>>)
    requires
        encode_table_spec(t) is Ok,
    ensures
        read_table_spec(pre + encode_table_spec(t)->Ok_0 + rest, pre.len() as int, t.len(), acc)
            == Ok::<(Seq<Seq<char>>, int), CodecError>((acc + t, pre.len() + encode_table_spec(t)->Ok_0.len() as int)),
    decreases t.len(),
{
    let w = encode_table_spec(t)->Ok_0;
    let b = pre + w + rest;
    let p = pre.len() as int;
    if t.len() == 0 {
        assert(acc + t =~= acc);
    } else {
        let t1 = t.drop_last();
        let x = t.last();
        let w1 = encode_table_spec(t1)->Ok_0;
        let sb = string_bytes(x)->Ok_0;
        assert(w == w1 + sb);
        lemma_table_round_trip(t1, pre, sb + rest, acc);
        assert(b =~= pre + w1 + (sb + rest));
        lemma_read_table_split(b, p, t1.len(), 1, acc);
        assert(t1.len() + 1 == t.len());
        assert(b =~= (pre + w1) + sb + rest);
        lemma_string_round_trip(pre + w1, x, rest);
        let q2 = p + w1.len() + sb.len();
        assert(read_table_spec(b, q2, 0, (acc + t1).push(x)) == Ok::<(Seq<Seq<char>>, int), CodecError>(((acc + t1).push(x), q2)));
        assert((acc + t1).push(x) =~= acc + t);
    }
}

/// Reading bytes encoded against any lookup table gives back the package
/// name and the root in normalized form (no metadata or null attributes, no
/// empty child lists), and reading ends exactly at the end of the bytes.
#[verifier::rlimit(100)]
#[verifier::spinoff_prover]
pub proof fn lemma_round_trip_with_table(pkg: Seq<char>, root: ElementModel, table: Seq<Seq<char>>)
    requires
        well_formed(root),
        encode_with_table_spec(pkg, root, table) is Ok,
    ensures
        parse_document(encode_with_table_spec(pkg, root, table)->Ok_0) == Ok::<(Seq<char>, ElementModel, int), CodecError>(
            (pkg, normalized(root), encode_with_table_spec(pkg, root, table)->Ok_0.len() as int),
        ),
{
    let mb = string_bytes(MAGIC@)->Ok_0;
    let pb = string_bytes(pkg)->Ok_0;
    let lb = le16(table.len());
    let tb = encode_table_spec(table)->Ok_0;
    let rb = encode_element_spec(root, table)->Ok_0;
    let w = encode_with_table_spec(pkg, root, table)->Ok_0;
    assert(w == mb + pb + lb + tb + rb);
    let e = Seq::<u8>::empty();
    assert(w =~= e + mb + (pb + lb + tb + rb));
    lemma_string_round_trip(e, MAGIC@, pb + lb + tb + rb);
    assert(w =~= mb + pb + (lb + tb + rb));
    lemma_string_round_trip(mb, pkg, lb + tb + rb);
    assert(w =~= (mb + pb) + le16(table.len() as u16 as nat) + (tb + rb));
    lemma_u16_round_trip(mb + pb, table.len() as u16, tb + rb);
    assert(w =~= (mb + pb + lb) + tb + rb);
    lemma_table_round_trip(table, mb + pb + lb, rb, seq![]);
    assert(Seq::<Seq<char>>::empty() + table =~= table);
    assert(w =~= (mb + pb + lb + tb) + rb + e);
    lemma_element_round_trip(root, table, mb + pb + lb + tb, e);
}

/// Reading an encoded document gives back its package name and the root in
/// normalized form.
pub proof fn lemma_document_round_trip(pkg: Seq<char>, root: ElementModel)
    requires
        well_formed(root),
        encode_document_spec(pkg, root) is Ok,
    ensures
        parse_document(encode_document_spec(pkg, root)->Ok_0) == Ok::<(Seq<char>, ElementModel, int), CodecError>(
            (pkg, normalized(root), encode_document_spec(pkg, root)->Ok_0.len() as int),
        ),
        decode_document_spec(encode_document_spec(pkg, root)->Ok_0) == Ok::<(Seq<char>, ElementModel), CodecError>(
            (pkg, normalized(root)),
        ),
{
    lemma_round_trip_with_table(pkg, root, collect_element(seq![], root));
}

/// Taking out one attribute keeps the keys distinct.
pub proof fn lemma_remove_keeps_distinct(a: Seq<AttrModel>, i: int)
    requires
        0 <= i < a.len(),
        keys_of(a).no_duplicates(),
    ensures
        keys_of(a.remove(i)).no_duplicates(),
{
    let r = a.remove(i);
    assert forall|j: int, k: int| 0 <= j < r.len() && 0 <= k < r.len() && j != k implies keys_of(r)[j] != keys_of(r)[k] by {
        let j2 = if j < i { j } else { j + 1 };
        let k2 = if k < i { k } else { k + 1 };
        assert(r[j] == a[j2]);
        assert(r[k] == a[k2]);
        assert(keys_of(a)[j2] != keys_of(a)[k2]);
    }
}

/// Reading an encoded map gives back its root without the `package`
/// attribute, in normalized form, with the package attribute then set last.
pub proof fn lemma_map_round_trip(m: ElementModel)
    requires
        well_formed(m),
        encode_map_spec(m) is Ok,
    ensures
        ({
            let i = find_index(keys_of(m.attributes), PACKAGE_KEY@)->Some_0 as int;
            let stripped = ElementModel { attributes: m.attributes.remove(i), ..m };
            decode_map_spec(encode_map_spec(m)->Ok_0) == Ok::<ElementModel, CodecError>(
                with_package(normalized(stripped), m.attributes[i].1->Str_0),
            )
        }),
{
    let i = find_index(keys_of(m.attributes), PACKAGE_KEY@)->Some_0 as int;
    crate::value::lemma_find_from(keys_of(m.attributes), PACKAGE_KEY@, 0);
    let stripped = ElementModel { attributes: m.attributes.remove(i), ..m };
    lemma_remove_keeps_distinct(m.attributes, i);
    assert(well_formed(stripped));
    assert(without_attr(m, i) == stripped);
    lemma_round_trip_with_table(m.attributes[i].1->Str_0, stripped, map_table(stripped, m.attributes[i].1->Str_0));
}

/// Metadata attributes are never written, so none comes back: reading an
/// encoded map gives a tree without metadata attribute keys.
pub proof fn lemma_map_drops_metadata(m: ElementModel)
    requires
        well_formed(m),
        encode_map_spec(m) is Ok,
    ensures
        decode_map_spec(encode_map_spec(m)->Ok_0) is Ok,
        no_metadata(decode_map_spec(encode_map_spec(m)->Ok_0)->Ok_0),
{
    lemma_map_round_trip(m);
    let i = find_index(keys_of(m.attributes), PACKAGE_KEY@)->Some_0 as int;
    let stripped = ElementModel { attributes: m.attributes.remove(i), ..m };
    let n = normalized(stripped);
    lemma_normalized_no_metadata(stripped);
    reveal_strlit("package");
    assert(!is_metadata_key_spec(PACKAGE_KEY@));
    lemma_insert_keeps_no_metadata(n.attributes, PACKAGE_KEY@, ValueModel::Str(m.attributes[i].1->Str_0));
    let t = with_package(n, m.attributes[i].1->Str_0);
    assert(t.children == n.children);
}

/// Reading an encoded map gives back, on the root, exactly the attributes of
/// the original root that the wire carries, in their order, with `package`
/// taken from its place and set last.
pub proof fn lemma_map_round_trip_attributes(m: ElementModel)
    requires
        well_formed(m),
        encode_map_spec(m) is Ok,
    ensures
        ({
            let i = find_index(keys_of(m.attributes), PACKAGE_KEY@)->Some_0 as int;
            &&& decode_map_spec(encode_map_spec(m)->Ok_0) is Ok
            &&& decode_map_spec(encode_map_spec(m)->Ok_0)->Ok_0.attributes == wire_attrs(m.attributes.remove(i)).push(
                m.attributes[i],
            )
        }),
{
    lemma_map_round_trip(m);
    let i = find_index(keys_of(m.attributes), PACKAGE_KEY@)->Some_0 as int;
    crate::value::lemma_find_from(keys_of(m.attributes), PACKAGE_KEY@, 0);
    let a = m.attributes;
    let r = a.remove(i);
    lemma_remove_keeps_distinct(a, i);
    lemma_wire_keys(r);
    let w = wire_attrs(r);
    assert(!keys_of(w).contains(PACKAGE_KEY@)) by {
        if keys_of(w).contains(PACKAGE_KEY@) {
            assert(keys_of(r).contains(PACKAGE_KEY@));
            let j = choose|j: int| 0 <= j < keys_of(r).len() && keys_of(r)[j] == PACKAGE_KEY@;
            let j2 = if j < i { j } else { j + 1 };
            assert(r[j] == a[j2]);
            assert(keys_of(a)[j2] == keys_of(a)[i]);
        }
    }
    crate::value::lemma_find_from(keys_of(w), PACKAGE_KEY@, 0);
    assert(keys_of(a)[i] == PACKAGE_KEY@);
    assert(a[i] == (PACKAGE_KEY@, ValueModel::Str(a[i].1->Str_0)));
}

} // verus!
