//! Tagged attribute values and their one-byte-tag wire encoding.

use vstd::prelude::*;
use vstd::utf8::*;

use crate::error::CodecError;
use crate::primitive::{
    lemma_rle_even, lemma_rle_round_trip, lemma_string_round_trip, lemma_u16_round_trip,
    lemma_u32_round_trip,
    append_bytes, le16, le32, read_rle_spec, read_string, read_string_spec, read_u16_le,
    read_u16_spec, read_u32_le, read_u32_spec, read_u8, read_u8_spec, read_run_length_encoded,
    encode_run_length, rle_encode, single_byte_chars, string_bytes, write_string, write_u16_le,
    write_u32_le, wrote, wrote_partial,
};

verus! {

/// An attribute value. `Float` holds the bits of a finite IEEE-754 single;
/// `Null` stands for a dropped value and `Unsupported` for any shape that the
/// wire cannot carry (an array, an object).
#[derive(Debug, PartialEq)]
pub enum Value {
    Bool(bool),
    /// An integral number. Only the `i32` range has an integer encoding:
    /// encoding a larger one fails with `NumberOutOfRange`, so a caller with
    /// such a number passes it as `Float` (the bits of its nearest `f32`).
    Int(i64),
    Float(u32),
    Str(String),
    Null,
    Unsupported,
}

/// The mathematical content of a `Value`.
pub enum ValueModel {
    Bool(bool),
    Int(int),
    Float(u32),
    Str(Seq<char>),
    Null,
    Unsupported,
}

impl View for Value {
    type V = ValueModel;

    open spec fn view(&self) -> ValueModel {
        match self {
            Value::Bool(b) => ValueModel::Bool(*b),
            Value::Int(n) => ValueModel::Int(*n as int),
            Value::Float(bits) => ValueModel::Float(*bits),
            Value::Str(s) => ValueModel::Str(s@),
            Value::Null => ValueModel::Null,
            Value::Unsupported => ValueModel::Unsupported,
        }
    }
}

/// The strings of a lookup table.
pub open spec fn table_view(t: Seq<String>) -> Seq<Seq<char>> {
    t.map_values(|s: String| s@)
}

/// The first index at or after `i` where `t` holds `s`.
pub open spec fn find_from(t: Seq<Seq<char>>, s: Seq<char>, i: int) -> Option<nat>
    decreases t.len() - i,
{
    if i < 0 || i >= t.len() {
        None
    } else if t[i] == s {
        Some(i as nat)
    } else {
        find_from(t, s, i + 1)
    }
}

/// The first index where `t` holds `s`.
pub open spec fn find_index(t: Seq<Seq<char>>, s: Seq<char>) -> Option<nat> {
    find_from(t, s, 0)
}

/// An IEEE-754 single with these bits is finite: its exponent is not all ones.
pub open spec fn finite_bits(bits: u32) -> bool {
    (bits / 0x80_0000) % 256 != 255
}

/// The two's-complement `i16` read from `x`.
pub open spec fn signed16(x: u16) -> int {
    if x >= 0x8000 {
        x - 0x1_0000
    } else {
        x as int
    }
}

/// The two's-complement `i32` read from `x`.
pub open spec fn signed32(x: u32) -> int {
    if x >= 0x8000_0000 {
        x - 0x1_0000_0000
    } else {
        x as int
    }
}

/// The two's-complement bit pattern of `n` in `m` values (`m` a power of two).
pub open spec fn unsigned_of(n: int, m: int) -> nat {
    (if n < 0 {
        n + m
    } else {
        n
    }) as nat
}

/// The value decoded after tag `tag`, read at `p`.
pub open spec fn decode_value_spec(tag: u8, table: Seq<Seq<char>>, b: Seq<u8>, p: int) -> Result<
    (ValueModel, int),
    CodecError,
> {
    if tag == 0 {
        match read_u8_spec(b, p) {
            Ok((x, q)) => Ok((ValueModel::Bool(x != 0), q)),
            Err(e) => Err(e),
        }
    } else if tag == 1 {
        match read_u8_spec(b, p) {
            Ok((x, q)) => Ok((ValueModel::Int(x as int), q)),
            Err(e) => Err(e),
        }
    } else if tag == 2 {
        match read_u16_spec(b, p) {
            Ok((x, q)) => Ok((ValueModel::Int(signed16(x)), q)),
            Err(e) => Err(e),
        }
    } else if tag == 3 {
        match read_u32_spec(b, p) {
            Ok((x, q)) => Ok((ValueModel::Int(signed32(x)), q)),
            Err(e) => Err(e),
        }
    } else if tag == 4 {
        match read_u32_spec(b, p) {
            Ok((x, q)) => if finite_bits(x) {
                Ok((ValueModel::Float(x), q))
            } else {
                Ok((ValueModel::Null, q))
            },
            Err(e) => Err(e),
        }
    } else if tag == 5 {
        match read_u16_spec(b, p) {
            Ok((x, q)) => if (x as int) < table.len() {
                Ok((ValueModel::Str(table[x as int]), q))
            } else {
                Err(CodecError::InvalidIndex)
            },
            Err(e) => Err(e),
        }
    } else if tag == 6 {
        match read_string_spec(b, p) {
            Ok((s, q)) => Ok((ValueModel::Str(s), q)),
            Err(e) => Err(e),
        }
    } else if tag == 7 {
        match read_rle_spec(b, p) {
            Ok((s, q)) => Ok((ValueModel::Str(s), q)),
            Err(e) => Err(e),
        }
    } else {
        Err(CodecError::UnknownTag)
    }
}

/// The tag and payload of a string value: its table index when the table holds
/// it; else the run-length form when that is strictly shorter than the UTF-8
/// bytes and its length fits in 16 bits; else the length-prefixed form.
pub open spec fn encode_str_spec(s: Seq<char>, table: Seq<Seq<char>>) -> Result<Seq<u8>, CodecError> {
    match find_index(table, s) {
        Some(i) => if i < 0x1_0000 {
            Ok(seq![5u8] + le16(i))
        } else {
            Err(CodecError::TooManyStrings)
        },
        None => if single_byte_chars(s) && rle_encode(s).len() < encode_utf8(s).len()
            && rle_encode(s).len() <= 0xFFFF {
            Ok(seq![7u8] + le16(rle_encode(s).len()) + rle_encode(s))
        } else {
            match string_bytes(s) {
                Ok(w) => Ok(seq![6u8] + w),
                Err(e) => Err(e),
            }
        },
    }
}

/// The tag and payload of a value.
pub open spec fn encode_value_spec(v: ValueModel, table: Seq<Seq<char>>) -> Result<Seq<u8>, CodecError> {
    match v {
        ValueModel::Bool(b) => Ok(seq![0u8, if b { 1u8 } else { 0u8 }]),
        ValueModel::Int(n) => if 0 <= n <= 255 {
            Ok(seq![1u8, n as u8])
        } else if -0x8000 <= n < 0x8000 {
            Ok(seq![2u8] + le16(unsigned_of(n, 0x1_0000)))
        } else if -0x8000_0000 <= n < 0x8000_0000 {
            Ok(seq![3u8] + le32(unsigned_of(n, 0x1_0000_0000)))
        } else {
            Err(CodecError::NumberOutOfRange)
        },
        ValueModel::Float(bits) => if finite_bits(bits) {
            Ok(seq![4u8] + le32(bits as nat))
        } else {
            Err(CodecError::NumberOutOfRange)
        },
        ValueModel::Str(s) => encode_str_spec(s, table),
        ValueModel::Null => Err(CodecError::UnsupportedValue),
        ValueModel::Unsupported => Err(CodecError::UnsupportedValue),
    }
}

/// A decoded value with its next position, seen through views.
pub open spec fn at_pos_value(r: Result<(Value, usize), CodecError>) -> Result<(ValueModel, int), CodecError> {
    match r {
        Ok((v, q)) => Ok((v@, q as int)),
        Err(e) => Err(e),
    }
}

/// Finds the first index of `s` in `lookup`.
pub fn find_string(lookup: &[String], s: &String) -> (r: Option<usize>)
    ensures
        r matches Some(i) ==> find_index(table_view(lookup@), s@) == Some(i as nat),
        r is None ==> find_index(table_view(lookup@), s@) is None,
{
    let ghost t = table_view(lookup@);
    let mut i: usize = 0;
    while i < lookup.len()
        invariant
            i <= lookup.len(),
            t == table_view(lookup@),
            find_index(t, s@) == find_from(t, s@, i as int),
        decreases lookup.len() - i,
    {
        if lookup[i] == *s {
            return Some(i);
        }
        i = i + 1;
    }
    None
}

/// Decodes the value that follows tag `type_byte`, read at `pos`.
pub fn decode_value(type_byte: u8, lookup: &[String], data: &[u8], pos: usize) -> (r: Result<(Value, usize), CodecError>)
    ensures
        at_pos_value(r) == decode_value_spec(type_byte, table_view(lookup@), data@, pos as int),
{
    if type_byte == 0 {
        let (x, q) = match read_u8(data, pos) { Ok(v) => v, Err(e) => return Err(e) };
        Ok((Value::Bool(x != 0), q))
    } else if type_byte == 1 {
        let (x, q) = match read_u8(data, pos) { Ok(v) => v, Err(e) => return Err(e) };
        Ok((Value::Int(x as i64), q))
    } else if type_byte == 2 {
        let (x, q) = match read_u16_le(data, pos) { Ok(v) => v, Err(e) => return Err(e) };
        let n: i64 = if x >= 0x8000 { x as i64 - 0x1_0000 } else { x as i64 };
        Ok((Value::Int(n), q))
    } else if type_byte == 3 {
        let (x, q) = match read_u32_le(data, pos) { Ok(v) => v, Err(e) => return Err(e) };
        let n: i64 = if x >= 0x8000_0000 { x as i64 - 0x1_0000_0000 } else { x as i64 };
        Ok((Value::Int(n), q))
    } else if type_byte == 4 {
        let (x, q) = match read_u32_le(data, pos) { Ok(v) => v, Err(e) => return Err(e) };
        if (x / 0x80_0000) % 256 != 255 {
            Ok((Value::Float(x), q))
        } else {
            Ok((Value::Null, q))
        }
    } else if type_byte == 5 {
        let (x, q) = match read_u16_le(data, pos) { Ok(v) => v, Err(e) => return Err(e) };
        if (x as usize) < lookup.len() {
            Ok((Value::Str(lookup[x as usize].clone()), q))
        } else {
            Err(CodecError::InvalidIndex)
        }
    } else if type_byte == 6 {
        let (s, q) = match read_string(data, pos) { Ok(v) => v, Err(e) => return Err(e) };
        Ok((Value::Str(s), q))
    } else if type_byte == 7 {
        let (s, q) = match read_run_length_encoded(data, pos) { Ok(v) => v, Err(e) => return Err(e) };
        Ok((Value::Str(s), q))
    } else {
        Err(CodecError::UnknownTag)
    }
}

/// Appends the tag and payload of the string `s`.
fn encode_str(out: &mut Vec<u8>, s: &String, lookup: &[String]) -> (r: Result<(), CodecError>)
    ensures
        wrote_partial(r, old(out)@, final(out)@, encode_str_spec(s@, table_view(lookup@))),
{
    match find_string(lookup, s) {
        Some(i) => {
            if i > 0xFFFF {
                return Err(CodecError::TooManyStrings);
            }
            out.push(5);
            write_u16_le(out, i as u16);
            proof {
                assert(out@ =~= old(out)@ + (seq![5u8] + le16(i as nat)));
            }
            Ok(())
        },
        None => {
            let ulen = s.as_str().as_bytes().len();
            proof {
                assert(ulen == encode_utf8(s@).len());
            }
            match encode_run_length(s.as_str()) {
                Some(encoded) => {
                    if encoded.len() < ulen && encoded.len() <= 0xFFFF {
                        out.push(7);
                        write_u16_le(out, encoded.len() as u16);
                        append_bytes(out, encoded.as_slice());
                        proof {
                            assert(out@ =~= old(out)@ + (seq![7u8] + le16(encoded@.len()) + encoded@));
                        }
                        return Ok(());
                    }
                },
                None => {},
            }
            out.push(6);
            let r = write_string(out, s.as_str());
            proof {
                if r is Ok {
                    assert(out@ =~= old(out)@ + (seq![6u8] + string_bytes(s@)->Ok_0));
                }
            }
            r
        },
    }
}

/// Appends the tag and payload of `value`: integers take the narrowest of the
/// `u8`, `i16` and `i32` forms, strings as `encode_str_spec` says. Leaves
/// `out` as it was when the value cannot be encoded.
pub fn encode_value(out: &mut Vec<u8>, key: &str, value: &Value, lookup: &[String]) -> (r: Result<(), CodecError>)
    ensures
        wrote(r, old(out)@, final(out)@, encode_value_spec(value@, table_view(lookup@))),
{
    let mut buf: Vec<u8> = Vec::new();
    let r = encode_value_into(&mut buf, key, value, lookup);
    match r {
        Ok(()) => {
            append_bytes(out, buf.as_slice());
            proof {
                assert(buf@ =~= encode_value_spec(value@, table_view(lookup@))->Ok_0);
            }
            Ok(())
        },
        Err(e) => Err(e),
    }
}

/// Appends the tag and payload of `value`; on failure `out` may hold part of
/// them.
pub(crate) fn encode_value_into(out: &mut Vec<u8>, _key: &str, value: &Value, lookup: &[String]) -> (r: Result<(), CodecError>)
    ensures
        wrote_partial(r, old(out)@, final(out)@, encode_value_spec(value@, table_view(lookup@))),
{
    match value {
        Value::Bool(b) => {
            out.push(0);
            out.push(if *b { 1 } else { 0 });
            proof {
                assert(out@ =~= old(out)@ + seq![0u8, if *b { 1u8 } else { 0u8 }]);
            }
            Ok(())
        },
        Value::Int(n) => {
            let n = *n;
            if 0 <= n && n <= 255 {
                out.push(1);
                out.push(n as u8);
                proof {
                    assert(out@ =~= old(out)@ + seq![1u8, n as u8]);
                }
                Ok(())
            } else if -0x8000 <= n && n < 0x8000 {
                let u: u16 = if n < 0 { (n + 0x1_0000) as u16 } else { n as u16 };
                out.push(2);
                write_u16_le(out, u);
                proof {
                    assert(out@ =~= old(out)@ + (seq![2u8] + le16(unsigned_of(n as int, 0x1_0000))));
                }
                Ok(())
            } else if -0x8000_0000 <= n && n < 0x8000_0000 {
                let u: u32 = if n < 0 { (n + 0x1_0000_0000) as u32 } else { n as u32 };
                out.push(3);
                write_u32_le(out, u);
                proof {
                    assert(out@ =~= old(out)@ + (seq![3u8] + le32(unsigned_of(n as int, 0x1_0000_0000))));
                }
                Ok(())
            } else {
                Err(CodecError::NumberOutOfRange)
            }
        },
        Value::Float(bits) => {
            let bits = *bits;
            if (bits / 0x80_0000) % 256 == 255 {
                return Err(CodecError::NumberOutOfRange);
            }
            out.push(4);
            write_u32_le(out, bits);
            proof {
                assert(out@ =~= old(out)@ + (seq![4u8] + le32(bits as nat)));
            }
            Ok(())
        },
        Value::Str(s) => encode_str(out, s, lookup),
        Value::Null => Err(CodecError::UnsupportedValue),
        Value::Unsupported => Err(CodecError::UnsupportedValue),
    }
}

/// A string that the lookup table holds is always written as its table index
/// (tag 5), whatever its other encodings would cost.
pub proof fn lemma_table_index_priority(s: Seq<char>, table: Seq<Seq<char>>)
    requires
        table.contains(s),
        table.len() <= 0x1_0000,
    ensures
        find_index(table, s) is Some,
        table[find_index(table, s)->Some_0 as int] == s,
        encode_value_spec(ValueModel::Str(s), table) == Ok::<Seq<u8>, CodecError>(
            seq![5u8] + le16(find_index(table, s)->Some_0),
        ),
{
    lemma_find_from(table, s, 0);
}

/// `find_from` finds `s` exactly when it stands at or after `i`, and then at an
/// index that holds it.
pub proof fn lemma_find_from(t: Seq<Seq<char>>, s: Seq<char>, i: int)
    requires
        0 <= i,
    ensures
        find_from(t, s, i) is Some <==> exists|j: int| i <= j < t.len() && t[j] == s,
        find_from(t, s, i) matches Some(j) ==> i <= j < t.len() && t[j as int] == s,
    decreases t.len() - i,
{
    if i < t.len() && t[i] != s {
        lemma_find_from(t, s, i + 1);
        if exists|j: int| i <= j < t.len() && t[j] == s {
            let j = choose|j: int| i <= j < t.len() && t[j] == s;
            assert(j != i);
        }
    }
}

proof fn lemma_int_round_trip(n: int, t: Seq<Seq<char>>, pre: Seq<u8>, rest: Seq<u8>)
    requires
        encode_value_spec(ValueModel::Int(n), t) is Ok,
    ensures
        ({
            let w = encode_value_spec(ValueModel::Int(n), t)->Ok_0;
            w.len() >= 1 && decode_value_spec(w[0], t, pre + w + rest, pre.len() + 1int) == Ok::<
                (ValueModel, int),
                CodecError,
            >((ValueModel::Int(n), pre.len() + w.len() as int))
        }),
{
    let w = encode_value_spec(ValueModel::Int(n), t)->Ok_0;
    let b = pre + w + rest;
    let p = pre.len() as int;
    if 0 <= n <= 255 {
        assert(b[p + 1] == w[1]);
    } else if -0x8000 <= n < 0x8000 {
        let u = unsigned_of(n, 0x1_0000);
        assert(b =~= (pre + seq![2u8]) + le16(u as u16 as nat) + rest);
        lemma_u16_round_trip(pre + seq![2u8], u as u16, rest);
    } else {
        let u = unsigned_of(n, 0x1_0000_0000);
        assert(b =~= (pre + seq![3u8]) + le32(u as u32 as nat) + rest);
        lemma_u32_round_trip(pre + seq![3u8], u as u32, rest);
    }
}

proof fn lemma_str_round_trip(s: Seq<char>, t: Seq<Seq<char>>, pre: Seq<u8>, rest: Seq<u8>)
    requires
        encode_value_spec(ValueModel::Str(s), t) is Ok,
    ensures
        ({
            let w = encode_value_spec(ValueModel::Str(s), t)->Ok_0;
            w.len() >= 1 && decode_value_spec(w[0], t, pre + w + rest, pre.len() + 1int) == Ok::<
                (ValueModel, int),
                CodecError,
            >((ValueModel::Str(s), pre.len() + w.len() as int))
        }),
{
    let w = encode_value_spec(ValueModel::Str(s), t)->Ok_0;
    let b = pre + w + rest;
    let p = pre.len() as int;
    lemma_find_from(t, s, 0);
    match find_index(t, s) {
        Some(i) => {
            assert(b =~= (pre + seq![5u8]) + le16(i as u16 as nat) + rest);
            lemma_u16_round_trip(pre + seq![5u8], i as u16, rest);
        },
        None => {
            let r = rle_encode(s);
            if single_byte_chars(s) && r.len() < encode_utf8(s).len() && r.len() <= 0xFFFF {
                assert(b =~= (pre + seq![7u8]) + le16(r.len() as u16 as nat) + (r + rest));
                lemma_u16_round_trip(pre + seq![7u8], r.len() as u16, r + rest);
                lemma_rle_even(s, 0);
                lemma_rle_round_trip(s);
                assert(b.subrange(p + 3, p + 3 + r.len()) =~= r);
            } else {
                let sb = string_bytes(s)->Ok_0;
                assert(b =~= (pre + seq![6u8]) + sb + rest);
                lemma_string_round_trip(pre + seq![6u8], s, rest);
            }
        },
    }
}

/// Decoding the bytes that encode a value, from just after its tag byte,
/// gives the value back and the position just past its payload.
pub proof fn lemma_value_round_trip(v: ValueModel, t: Seq<Seq<char>>, pre: Seq<u8>, rest: Seq<u8>)
    requires
        encode_value_spec(v, t) is Ok,
    ensures
        encode_value_spec(v, t)->Ok_0.len() >= 1,
        decode_value_spec(
            encode_value_spec(v, t)->Ok_0[0],
            t,
            pre + encode_value_spec(v, t)->Ok_0 + rest,
            pre.len() + 1int,
        ) == Ok::<(ValueModel, int), CodecError>((v, pre.len() + encode_value_spec(v, t)->Ok_0.len() as int)),
{
    let w = encode_value_spec(v, t)->Ok_0;
    let b = pre + w + rest;
    let p = pre.len() as int;
    match v {
        ValueModel::Bool(x) => {
            assert(b[p + 1] == w[1]);
        },
        ValueModel::Int(n) => {
            lemma_int_round_trip(n, t, pre, rest);
        },
        ValueModel::Float(bits) => {
            assert(b =~= (pre + seq![4u8]) + le32(bits as nat) + rest);
            lemma_u32_round_trip(pre + seq![4u8], bits, rest);
        },
        ValueModel::Str(s) => {
            lemma_str_round_trip(s, t, pre, rest);
        },
        _ => {},
    }
}

} // verus!
