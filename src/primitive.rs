//! Variable-length integers, little-endian fixed-width integers,
//! length-prefixed strings and run-length strings.

use vstd::prelude::*;

use vstd::utf8::*;

use crate::error::CodecError;

verus! {

/// `128^i`.
pub open spec fn pow128(i: nat) -> nat
    decreases i,
{
    if i == 0 {
        1
    } else {
        128 * pow128((i - 1) as nat)
    }
}

/// The varuint encoding of `n`: 7-bit groups, lowest first, the high bit set
/// on every byte but the last.
pub open spec fn varuint_bytes(n: nat) -> Seq<u8>
    decreases n,
{
    if n < 128 {
        seq![n as u8]
    } else {
        seq![(n % 128 + 128) as u8] + varuint_bytes(n / 128)
    }
}

/// Scans the varuint that starts at `p` in `b`, with `i` groups already read
/// and summing to `acc`. At most five groups are read.
pub open spec fn varuint_scan(b: Seq<u8>, p: int, i: nat, acc: nat) -> Result<(nat, int), CodecError>
    decreases 5 - i,
{
    if i >= 5 {
        Err(CodecError::VarintOverflow)
    } else if p < 0 || p + i >= b.len() {
        Err(CodecError::UnexpectedEnd)
    } else if b[p + i] < 128 {
        Ok(((acc + b[p + i] * pow128(i)) as nat, p + i + 1))
    } else {
        varuint_scan(b, p, i + 1, (acc + (b[p + i] - 128) * pow128(i)) as nat)
    }
}

/// The varuint read at `p` in `b`, with the position after it.
pub open spec fn read_varuint_spec(b: Seq<u8>, p: int) -> Result<(u32, int), CodecError> {
    match varuint_scan(b, p, 0, 0) {
        Ok((v, q)) => if v < 0x1_0000_0000 {
            Ok((v as u32, q))
        } else {
            Err(CodecError::VarintOverflow)
        },
        Err(e) => Err(e),
    }
}

/// The powers that a varuint's five groups use.
pub proof fn lemma_pow128_small(i: nat)
    requires
        i <= 5,
    ensures
        i <= 4 ==> pow128(i) <= 0x1000_0000,
        i == 5 ==> pow128(i) == 0x8_0000_0000,
        pow128(i) >= 1,
{
    reveal_with_fuel(pow128, 6);
}

/// An exec result `(value, next position)` seen with an `int` position.
pub open spec fn at_pos<T>(r: Result<(T, usize), CodecError>) -> Result<(T, int), CodecError> {
    match r {
        Ok((v, q)) => Ok((v, q as int)),
        Err(e) => Err(e),
    }
}

/// Reads a varuint at `pos`; returns it with the position after it.
/// Fails on a truncated input and on one that runs past five bytes or 32 bits.
pub fn read_var_length(data: &[u8], pos: usize) -> (r: Result<(u32, usize), CodecError>)
    ensures
        at_pos(r) == read_varuint_spec(data@, pos as int),
{
    let mut acc: u64 = 0;
    let mut mult: u64 = 1;
    let mut i: usize = 0;
    while i < 5
        invariant
            i <= 5,
            mult == pow128(i as nat),
            acc < mult,
            varuint_scan(data@, pos as int, 0, 0) == varuint_scan(data@, pos as int, i as nat, acc as nat),
        decreases 5 - i,
    {
        proof {
            lemma_pow128_small(i as nat);
        }
        if pos >= data.len() || data.len() - pos <= i {
            return Err(CodecError::UnexpectedEnd);
        }
        let byte = data[pos + i];
        if byte < 128 {
            proof {
                assert(byte * mult <= 127 * mult) by (nonlinear_arith)
                    requires byte <= 127;
            }
            let v: u64 = acc + (byte as u64) * mult;
            if v >= 0x1_0000_0000 {
                return Err(CodecError::VarintOverflow);
            }
            return Ok((v as u32, pos + i + 1));
        }
        proof {
            assert((byte - 128) * mult <= 127 * mult) by (nonlinear_arith)
                requires byte - 128 <= 127;
        }
        acc = acc + ((byte - 128) as u64) * mult;
        mult = mult * 128;
        i = i + 1;
    }
    Err(CodecError::VarintOverflow)
}

/// Appends the varuint encoding of `n` to `out`.
pub fn write_var_length(out: &mut Vec<u8>, n: u32)
    ensures
        final(out)@ == old(out)@ + varuint_bytes(n as nat),
{
    let mut m: u32 = n;
    while m > 0x7F
        invariant
            old(out)@ + varuint_bytes(n as nat) == out@ + varuint_bytes(m as nat),
        decreases m,
    {
        out.push((m % 128 + 128) as u8);
        proof {
            assert(out@ + varuint_bytes(m as nat / 128) =~= old(out)@ + varuint_bytes(n as nat));
        }
        m = m / 128;
    }
    out.push(m as u8);
    proof {
        assert(out@ =~= old(out)@ + varuint_bytes(n as nat));
    }
}

/// Varuint byte counts: at least one byte, and at most `k` below `128^k`.
proof fn lemma_varuint_len(m: nat, k: nat)
    requires
        k >= 1,
        m < pow128(k),
    ensures
        1 <= varuint_bytes(m).len() <= k,
    decreases m,
{
    if m >= 128 {
        reveal_with_fuel(pow128, 2);
        let k1 = (k - 1) as nat;
        assert(k >= 2);
        assert(pow128(k) == 128 * pow128(k1));
        assert(m / 128 < pow128(k1)) by (nonlinear_arith)
            requires m < 128 * pow128(k1);
        lemma_varuint_len(m / 128, k1);
    }
}

proof fn lemma_varuint_scan(b: Seq<u8>, p: int, i: nat, acc: nat, m: nat)
    requires
        0 <= p,
        i < 5,
        m < pow128((5 - i) as nat),
        p + i + varuint_bytes(m).len() <= b.len(),
        b.subrange(p + i, p + i + varuint_bytes(m).len()) == varuint_bytes(m),
    ensures
        varuint_scan(b, p, i, acc) == Ok::<(nat, int), CodecError>(
            ((acc + m * pow128(i)) as nat, p + i + varuint_bytes(m).len()),
        ),
    decreases m,
{
    let w = varuint_bytes(m);
    assert(b[p + i] == w[0]);
    if m >= 128 {
        let m2 = m / 128;
        let k = (5 - i) as nat;
        reveal_with_fuel(pow128, 2);
        assert(k >= 2);
        let k1 = (k - 1) as nat;
        assert(pow128(k) == 128 * pow128(k1));
        assert(m2 < pow128(k1)) by (nonlinear_arith)
            requires m < 128 * pow128(k1), m2 == m / 128;
        assert(k1 == 5 - (i + 1));
        assert(w =~= seq![(m % 128 + 128) as u8] + varuint_bytes(m2));
        assert(b.subrange(p + i + 1, p + i + 1 + varuint_bytes(m2).len()) =~= varuint_bytes(m2)) by {
            assert(b.subrange(p + i + 1, p + i + 1 + varuint_bytes(m2).len()) =~= w.subrange(1, w.len() as int));
        }
        let pi = pow128(i);
        let acc2 = (acc + (m % 128) * pi) as nat;
        lemma_varuint_scan(b, p, i + 1, acc2, m2);
        assert(pow128(i + 1) == 128 * pi);
        assert(acc2 + m2 * (128 * pi) == acc + m * pi) by (nonlinear_arith)
            requires acc2 == acc + (m % 128) * pi, m2 == m / 128;
    }
}

/// Reading back the varuint encoding of any 32-bit `n`, wherever it stands and
/// whatever follows it, gives `n` and the position just past the encoding;
/// the encoding is one to five bytes long.
pub proof fn lemma_varuint_round_trip(pre: Seq<u8>, n: u32, rest: Seq<u8>)
    ensures
        1 <= varuint_bytes(n as nat).len() <= 5,
        read_varuint_spec(pre + varuint_bytes(n as nat) + rest, pre.len() as int) == Ok::<
            (u32, int),
            CodecError,
        >((n, pre.len() + varuint_bytes(n as nat).len() as int)),
{
    let w = varuint_bytes(n as nat);
    let b = pre + w + rest;
    lemma_pow128_small(5);
    lemma_varuint_len(n as nat, 5);
    assert(b.subrange(pre.len() as int, pre.len() + w.len() as int) =~= w);
    assert(pow128(0) == 1);
    lemma_varuint_scan(b, pre.len() as int, 0, 0, n as nat);
    assert(n as nat * pow128(0) == n as nat);
}

/// Two little-endian bytes of `n`.
pub open spec fn le16(n: nat) -> Seq<u8> {
    seq![(n % 256) as u8, ((n / 256) % 256) as u8]
}

/// Four little-endian bytes of `n`.
pub open spec fn le32(n: nat) -> Seq<u8> {
    seq![
        (n % 256) as u8,
        ((n / 0x100) % 256) as u8,
        ((n / 0x1_0000) % 256) as u8,
        ((n / 0x100_0000) % 256) as u8,
    ]
}

/// One byte read at `p`.
pub open spec fn read_u8_spec(b: Seq<u8>, p: int) -> Result<(u8, int), CodecError> {
    if p < 0 || p + 1 > b.len() {
        Err(CodecError::UnexpectedEnd)
    } else {
        Ok((b[p], p + 1))
    }
}

/// A little-endian `u16` read at `p`.
pub open spec fn read_u16_spec(b: Seq<u8>, p: int) -> Result<(u16, int), CodecError> {
    if p < 0 || p + 2 > b.len() {
        Err(CodecError::UnexpectedEnd)
    } else {
        Ok(((b[p] + 0x100 * b[p + 1]) as u16, p + 2))
    }
}

/// A little-endian `u32` read at `p`.
pub open spec fn read_u32_spec(b: Seq<u8>, p: int) -> Result<(u32, int), CodecError> {
    if p < 0 || p + 4 > b.len() {
        Err(CodecError::UnexpectedEnd)
    } else {
        Ok(
            (
                (b[p] + 0x100 * b[p + 1] + 0x1_0000 * b[p + 2] + 0x100_0000 * b[p + 3]) as u32,
                p + 4,
            ),
        )
    }
}

/// Reads one byte at `pos`.
pub fn read_u8(data: &[u8], pos: usize) -> (r: Result<(u8, usize), CodecError>)
    ensures
        at_pos(r) == read_u8_spec(data@, pos as int),
{
    if pos >= data.len() {
        return Err(CodecError::UnexpectedEnd);
    }
    Ok((data[pos], pos + 1))
}

/// Reads a little-endian `u16` at `pos`.
pub fn read_u16_le(data: &[u8], pos: usize) -> (r: Result<(u16, usize), CodecError>)
    ensures
        at_pos(r) == read_u16_spec(data@, pos as int),
{
    if pos >= data.len() || data.len() - pos < 2 {
        return Err(CodecError::UnexpectedEnd);
    }
    let v: u16 = data[pos] as u16 + 0x100 * (data[pos + 1] as u16);
    Ok((v, pos + 2))
}

/// Reads a little-endian `u32` at `pos`.
pub fn read_u32_le(data: &[u8], pos: usize) -> (r: Result<(u32, usize), CodecError>)
    ensures
        at_pos(r) == read_u32_spec(data@, pos as int),
{
    if pos >= data.len() || data.len() - pos < 4 {
        return Err(CodecError::UnexpectedEnd);
    }
    let v: u32 = data[pos] as u32 + 0x100 * (data[pos + 1] as u32) + 0x1_0000 * (
    data[pos + 2] as u32) + 0x100_0000 * (data[pos + 3] as u32);
    Ok((v, pos + 4))
}

/// Appends the two little-endian bytes of `n`.
pub fn write_u16_le(out: &mut Vec<u8>, n: u16)
    ensures
        final(out)@ == old(out)@ + le16(n as nat),
{
    out.push((n % 256) as u8);
    out.push((n / 256) as u8);
    proof {
        assert(out@ =~= old(out)@ + le16(n as nat));
    }
}

/// Appends the four little-endian bytes of `n`.
pub fn write_u32_le(out: &mut Vec<u8>, n: u32)
    ensures
        final(out)@ == old(out)@ + le32(n as nat),
{
    out.push((n % 256) as u8);
    out.push(((n / 0x100) % 256) as u8);
    out.push(((n / 0x1_0000) % 256) as u8);
    out.push((n / 0x100_0000) as u8);
    proof {
        assert(out@ =~= old(out)@ + le32(n as nat));
    }
}

/// Reading two little-endian bytes back gives the `u16` they came from.
pub proof fn lemma_u16_round_trip(pre: Seq<u8>, n: u16, rest: Seq<u8>)
    ensures
        read_u16_spec(pre + le16(n as nat) + rest, pre.len() as int) == Ok::<(u16, int), CodecError>(
            (n, pre.len() + 2int),
        ),
{
    let b = pre + le16(n as nat) + rest;
    let p = pre.len() as int;
    assert(b[p] == (n % 256) as u8);
    assert(b[p + 1] == ((n / 256) % 256) as u8);
}

/// Reading four little-endian bytes back gives the `u32` they came from.
pub proof fn lemma_u32_round_trip(pre: Seq<u8>, n: u32, rest: Seq<u8>)
    ensures
        read_u32_spec(pre + le32(n as nat) + rest, pre.len() as int) == Ok::<(u32, int), CodecError>(
            (n, pre.len() + 4int),
        ),
{
    let b = pre + le32(n as nat) + rest;
    let p = pre.len() as int;
    let m = n as int;
    let r1 = m / 0x100;
    let r2 = r1 / 0x100;
    let r3 = r2 / 0x100;
    assert(m == m % 0x100 + 0x100 * r1);
    assert(r1 == r1 % 0x100 + 0x100 * r2);
    assert(r2 == r2 % 0x100 + 0x100 * r3);
    assert(m / 0x1_0000 == r2);
    assert(m / 0x100_0000 == r3);
    assert(r3 < 0x100);
    assert(b[p] == (n % 256) as u8);
    assert(b[p + 1] == ((n / 0x100) % 256) as u8);
    assert(b[p + 2] == ((n / 0x1_0000) % 256) as u8);
    assert(b[p + 3] == ((n / 0x100_0000) % 256) as u8);
}

/// The outcome of an encoder that appends to `out`: on success exactly the
/// bytes `w` were appended; on failure `out` is left as it was.
pub open spec fn wrote(r: Result<(), CodecError>, before: Seq<u8>, after: Seq<u8>, expected: Result<Seq<u8>, CodecError>) -> bool {
    match expected {
        Ok(w) => r == Ok::<(), CodecError>(()) && after == before + w,
        Err(e) => r == Err::<(), CodecError>(e) && after == before,
    }
}

/// Like `wrote`, but on failure `out` may hold part of the encoding.
pub open spec fn wrote_partial(r: Result<(), CodecError>, before: Seq<u8>, after: Seq<u8>, expected: Result<Seq<u8>, CodecError>) -> bool {
    match expected {
        Ok(w) => r == Ok::<(), CodecError>(()) && after == before + w,
        Err(e) => r == Err::<(), CodecError>(e),
    }
}

/// A length-prefixed string read at `p`: a varuint byte count, then that many
/// bytes of well-formed UTF-8.
pub open spec fn read_string_spec(b: Seq<u8>, p: int) -> Result<(Seq<char>, int), CodecError> {
    match read_varuint_spec(b, p) {
        Ok((len, q)) => if q + len > b.len() {
            Err(CodecError::UnexpectedEnd)
        } else if valid_utf8(b.subrange(q, q + len)) {
            Ok((decode_utf8(b.subrange(q, q + len)), q + len))
        } else {
            Err(CodecError::InvalidUtf8)
        },
        Err(e) => Err(e),
    }
}

/// The length-prefixed encoding of `s`.
pub open spec fn string_bytes(s: Seq<char>) -> Result<Seq<u8>, CodecError> {
    let u = encode_utf8(s);
    if u.len() >= 0x1_0000_0000 {
        Err(CodecError::StringTooLong)
    } else {
        Ok(varuint_bytes(u.len()) + u)
    }
}

/// A read string with its next position, seen through views.
pub open spec fn at_pos_str(r: Result<(String, usize), CodecError>) -> Result<(Seq<char>, int), CodecError> {
    match r {
        Ok((s, q)) => Ok((s@, q as int)),
        Err(e) => Err(e),
    }
}

/// Relies on `String::from_utf8`: it succeeds exactly on well-formed UTF-8 and
/// then holds the characters those bytes encode.
#[verifier::external_body]
fn string_from_utf8(bytes: Vec<u8>) -> (r: Option<String>)
    ensures
        r is Some <==> valid_utf8(bytes@),
        r matches Some(s) ==> s@ == decode_utf8(bytes@),
{
    String::from_utf8(bytes).ok()
}

/// Copies `data[from..to]`.
fn copy_range(data: &[u8], from: usize, to: usize) -> (r: Vec<u8>)
    requires
        from <= to <= data.len(),
    ensures
        r@ == data@.subrange(from as int, to as int),
{
    let mut r: Vec<u8> = Vec::new();
    let mut i: usize = from;
    while i < to
        invariant
            from <= i <= to,
            to <= data.len(),
            r@ == data@.subrange(from as int, i as int),
        decreases to - i,
    {
        r.push(data[i]);
        i = i + 1;
        proof {
            assert(r@ =~= data@.subrange(from as int, i as int));
        }
    }
    r
}

/// Appends `bytes` to `out`.
pub fn append_bytes(out: &mut Vec<u8>, bytes: &[u8])
    ensures
        final(out)@ == old(out)@ + bytes@,
{
    let mut i: usize = 0;
    while i < bytes.len()
        invariant
            i <= bytes.len(),
            out@ == old(out)@ + bytes@.subrange(0, i as int),
        decreases bytes.len() - i,
    {
        out.push(bytes[i]);
        i = i + 1;
        proof {
            assert(out@ =~= old(out)@ + bytes@.subrange(0, i as int));
        }
    }
    proof {
        assert(bytes@.subrange(0, i as int) =~= bytes@);
    }
}

/// Reads a length-prefixed UTF-8 string at `pos`.
pub fn read_string(data: &[u8], pos: usize) -> (r: Result<(String, usize), CodecError>)
    ensures
        at_pos_str(r) == read_string_spec(data@, pos as int),
{
    let (len, q) = match read_var_length(data, pos) {
        Ok(x) => x,
        Err(e) => return Err(e),
    };
    let len = len as usize;
    if q > data.len() || data.len() - q < len {
        return Err(CodecError::UnexpectedEnd);
    }
    let bytes = copy_range(data, q, q + len);
    match string_from_utf8(bytes) {
        Some(s) => Ok((s, q + len)),
        None => Err(CodecError::InvalidUtf8),
    }
}

/// Appends `s` as a varuint byte count followed by its UTF-8 bytes.
pub fn write_string(out: &mut Vec<u8>, s: &str) -> (r: Result<(), CodecError>)
    ensures
        wrote(r, old(out)@, final(out)@, string_bytes(s@)),
{
    let bytes = s.as_bytes();
    let n = bytes.len();
    if n as u64 >= 0x1_0000_0000 {
        return Err(CodecError::StringTooLong);
    }
    write_var_length(out, n as u32);
    append_bytes(out, bytes);
    proof {
        assert(out@ =~= old(out)@ + (varuint_bytes(n as nat) + encode_utf8(s@)));
    }
    Ok(())
}

/// Reading back the length-prefixed encoding of a string gives the string and
/// the position just past the encoding.
pub proof fn lemma_string_round_trip(pre: Seq<u8>, s: Seq<char>, rest: Seq<u8>)
    requires
        string_bytes(s) is Ok,
    ensures
        read_string_spec(pre + string_bytes(s)->Ok_0 + rest, pre.len() as int) == Ok::<
            (Seq<char>, int),
            CodecError,
        >((s, pre.len() + string_bytes(s)->Ok_0.len() as int)),
{
    let u = encode_utf8(s);
    let n = u.len() as u32;
    let v = varuint_bytes(n as nat);
    let b = pre + string_bytes(s)->Ok_0 + rest;
    assert(b =~= pre + v + (u + rest));
    lemma_varuint_round_trip(pre, n, u + rest);
    let q = pre.len() + v.len() as int;
    assert(b.subrange(q, q + u.len() as int) =~= u);
    encode_utf8_valid_utf8(s);
    encode_utf8_decode_utf8(s);
}

/// The character whose code point is the byte `b`.
pub open spec fn byte_char(b: u8) -> char {
    (b as u32) as char
}

/// Every character of `s` has a code point that fits in one byte.
pub open spec fn single_byte_chars(s: Seq<char>) -> bool {
    forall|i: int| 0 <= i < s.len() ==> (#[trigger] s[i] as u32) <= 0xFF
}

/// The characters of a run-length payload: each (count, byte) pair gives
/// `count` copies of the byte's character, in order.
pub open spec fn rle_decode(p: Seq<u8>) -> Seq<char>
    decreases p.len(),
{
    if p.len() < 2 {
        seq![]
    } else {
        Seq::new(p[0] as nat, |_j: int| byte_char(p[1])) + rle_decode(p.subrange(2, p.len() as int))
    }
}

/// How many characters equal to `c` start at `i` in `s`, counting at most `cap`.
pub open spec fn run_from(s: Seq<char>, i: int, c: char, cap: nat) -> nat
    decreases cap,
{
    if cap == 0 || i < 0 || i >= s.len() || s[i] != c {
        0
    } else {
        1 + run_from(s, i + 1, c, (cap - 1) as nat)
    }
}

/// The greedy run-length encoding of `s` from index `i`: each run of one
/// character, at most 255 long, becomes a (count, code point) pair.
pub open spec fn rle_from(s: Seq<char>, i: int) -> Seq<u8>
    decreases s.len() - i,
{
    if i < 0 || i >= s.len() {
        seq![]
    } else {
        let k = 1 + run_from(s, i + 1, s[i], 254);
        if k < 1 || i + k > s.len() {
            seq![]
        } else {
            seq![k as u8, (s[i] as u32) as u8] + rle_from(s, i + k)
        }
    }
}

/// The greedy run-length encoding of `s`.
pub open spec fn rle_encode(s: Seq<char>) -> Seq<u8> {
    rle_from(s, 0)
}

/// A run-length string read at `p`: a little-endian `u16` byte count, then
/// that many bytes of (count, byte) pairs.
pub open spec fn read_rle_spec(b: Seq<u8>, p: int) -> Result<(Seq<char>, int), CodecError> {
    match read_u16_spec(b, p) {
        Ok((n, q)) => if q + n > b.len() {
            Err(CodecError::UnexpectedEnd)
        } else if n % 2 == 1 {
            Err(CodecError::OddRunLength)
        } else {
            Ok((rle_decode(b.subrange(q, q + n)), q + n))
        },
        Err(e) => Err(e),
    }
}

proof fn lemma_run_from(s: Seq<char>, i: int, c: char, cap: nat)
    requires
        0 <= i,
    ensures
        run_from(s, i, c, cap) <= cap,
        i + run_from(s, i, c, cap) <= s.len() || run_from(s, i, c, cap) == 0,
        forall|t: int| i <= t < i + run_from(s, i, c, cap) ==> s[t] == c,
    decreases cap,
{
    if !(cap == 0 || i >= s.len() || s[i] != c) {
        lemma_run_from(s, i + 1, c, (cap - 1) as nat);
    }
}

proof fn lemma_rle_decode_pair(k: u8, b: u8, rest: Seq<u8>)
    ensures
        rle_decode(seq![k, b] + rest) == Seq::new(k as nat, |_j: int| byte_char(b)) + rle_decode(rest),
{
    let p = seq![k, b] + rest;
    assert(p.subrange(2, p.len() as int) =~= rest);
}

/// Expanding the greedy run-length encoding of a string of single-byte
/// characters gives the string back.
pub proof fn lemma_rle_round_trip(s: Seq<char>)
    requires
        single_byte_chars(s),
    ensures
        rle_decode(rle_encode(s)) == s,
{
    lemma_rle_from_round_trip(s, 0);
    assert(s.subrange(0, s.len() as int) =~= s);
}

proof fn lemma_rle_from_round_trip(s: Seq<char>, i: int)
    requires
        single_byte_chars(s),
        0 <= i <= s.len(),
    ensures
        rle_decode(rle_from(s, i)) == s.subrange(i, s.len() as int),
    decreases s.len() - i,
{
    if i < s.len() {
        let c = s[i];
        lemma_run_from(s, i + 1, c, 254);
        let k = 1 + run_from(s, i + 1, c, 254);
        let b = (c as u32) as u8;
        assert(c as u32 <= 0xFF);
        assert(byte_char(b) == c) by {
            char_u32_cast(c, c as u32);
        }
        lemma_rle_from_round_trip(s, i + k);
        lemma_rle_decode_pair(k as u8, b, rle_from(s, i + k));
        assert(Seq::new(k as nat, |_j: int| byte_char(b)) =~= s.subrange(i, i + k));
        assert(s.subrange(i, s.len() as int) =~= s.subrange(i, i + k) + s.subrange(i + k, s.len() as int));
    } else {
        assert(s.subrange(i, s.len() as int) =~= Seq::<char>::empty());
    }
}

/// Run-length encodes `s`: `None` when some character's code point does not
/// fit in one byte, else the greedy (count, code point) pairs with counts of
/// at most 255.
pub fn encode_run_length(s: &str) -> (r: Option<Vec<u8>>)
    ensures
        r is Some <==> single_byte_chars(s@),
        r matches Some(v) ==> v@ == rle_encode(s@),
{
    let n = s.unicode_len();
    let mut i: usize = 0;
    while i < n
        invariant
            n == s@.len(),
            i <= n,
            forall|t: int| 0 <= t < i ==> (#[trigger] s@[t] as u32) <= 0xFF,
        decreases n - i,
    {
        let c = s.get_char(i);
        if c as u32 > 0xFF {
            return None;
        }
        i = i + 1;
    }
    let mut out: Vec<u8> = Vec::new();
    let mut i: usize = 0;
    while i < n
        invariant
            n == s@.len(),
            i <= n,
            single_byte_chars(s@),
            rle_from(s@, 0) == out@ + rle_from(s@, i as int),
        decreases n - i,
    {
        let c = s.get_char(i);
        let mut j: usize = i + 1;
        while j < n && j - i < 255 && s.get_char(j) == c
            invariant
                i < j <= n,
                j - i <= 255,
                n == s@.len(),
                c == s@[i as int],
                run_from(s@, i + 1, c, 254) == (j - i - 1) + run_from(
                    s@,
                    j as int,
                    c,
                    (255 - (j - i)) as nat,
                ),
            decreases n - j,
        {
            j = j + 1;
        }
        let k = j - i;
        proof {
            assert(run_from(s@, j as int, c, (255 - (j - i)) as nat) == 0);
            assert(k == 1 + run_from(s@, i + 1, c, 254));
            assert(rle_from(s@, i as int) == seq![k as u8, (c as u32) as u8] + rle_from(s@, j as int));
        }
        out.push(k as u8);
        out.push(c as u32 as u8);
        i = j;
        proof {
            assert(rle_from(s@, 0) =~= out@ + rle_from(s@, i as int));
        }
    }
    proof {
        assert(out@ =~= rle_from(s@, 0));
    }
    Some(out)
}

proof fn lemma_rle_decode_snoc(p: Seq<u8>, k: u8, b: u8)
    requires
        p.len() % 2 == 0,
    ensures
        rle_decode(p + seq![k, b]) == rle_decode(p) + Seq::new(k as nat, |_j: int| byte_char(b)),
    decreases p.len(),
{
    let q = p + seq![k, b];
    if p.len() == 0 {
        reveal_with_fuel(rle_decode, 2);
        assert(q.subrange(2, q.len() as int) =~= Seq::<u8>::empty());
        assert(rle_decode(q) =~= rle_decode(p) + Seq::new(k as nat, |_j: int| byte_char(b)));
    } else {
        let p2 = p.subrange(2, p.len() as int);
        lemma_rle_decode_snoc(p2, k, b);
        assert(q.subrange(2, q.len() as int) =~= p2 + seq![k, b]);
        assert(rle_decode(q) =~= rle_decode(p) + Seq::new(k as nat, |_j: int| byte_char(b)));
    }
}

proof fn lemma_encode_utf8_push(a: Seq<char>, c: char)
    ensures
        encode_utf8(a.push(c)) == encode_utf8(a) + encode_scalar(c as u32),
    decreases a.len(),
{
    if a.len() == 0 {
        reveal_with_fuel(encode_utf8, 2);
        assert(a.push(c).drop_first() =~= Seq::<char>::empty());
        assert(encode_utf8(a.push(c)) =~= encode_utf8(a) + encode_scalar(c as u32));
    } else {
        lemma_encode_utf8_push(a.drop_first(), c);
        assert(a.push(c).drop_first() =~= a.drop_first().push(c));
        assert(encode_utf8(a.push(c)) =~= encode_utf8(a) + encode_scalar(c as u32));
    }
}

/// The UTF-8 bytes of a character whose code point fits in one byte.
proof fn lemma_byte_char_utf8(b: u8)
    ensures
        byte_char(b) as u32 == b as u32,
        b < 128 ==> encode_scalar(b as u32) == seq![b],
        b >= 128 ==> encode_scalar(b as u32) == seq![(0xC0 + b / 64) as u8, (0x80 + b % 64) as u8],
{
    let v = b as u32;
    if b < 128 {
        assert((v & 0x7F) as u8 == b) by (bit_vector)
            requires v == b as u32, b < 128;
    } else {
        assert(0xC0 | ((v >> 6) & 0x1F) as u8 == (0xC0 + b / 64) as u8) by (bit_vector)
            requires v == b as u32, b >= 128;
        assert(0x80 | (v & 0x3F) as u8 == (0x80 + b % 64) as u8) by (bit_vector)
            requires v == b as u32, b >= 128;
    }
}

/// Appends the UTF-8 bytes of the character whose code point is `b`.
fn push_byte_char(out: &mut Vec<u8>, b: u8)
    ensures
        final(out)@ == old(out)@ + encode_scalar(byte_char(b) as u32),
{
    proof {
        lemma_byte_char_utf8(b);
    }
    if b < 128 {
        out.push(b);
    } else {
        out.push(0xC0 + b / 64);
        out.push(0x80 + b % 64);
    }
    proof {
        assert(out@ =~= old(out)@ + encode_scalar(byte_char(b) as u32));
    }
}

/// Reads a run-length string at `pos`: a little-endian `u16` byte count, then
/// (count, byte) pairs, each standing for `count` copies of the byte's character.
pub fn read_run_length_encoded(data: &[u8], pos: usize) -> (r: Result<(String, usize), CodecError>)
    ensures
        at_pos_str(r) == read_rle_spec(data@, pos as int),
{
    let (n, q) = match read_u16_le(data, pos) {
        Ok(x) => x,
        Err(e) => return Err(e),
    };
    let n = n as usize;
    if q > data.len() || data.len() - q < n {
        return Err(CodecError::UnexpectedEnd);
    }
    if n % 2 == 1 {
        return Err(CodecError::OddRunLength);
    }
    let mut bytes: Vec<u8> = Vec::new();
    let mut t: usize = 0;
    while t < n
        invariant
            t <= n,
            t % 2 == 0,
            n % 2 == 0,
            q + n <= data.len(),
            bytes@ == encode_utf8(rle_decode(data@.subrange(q as int, q + t))),
        decreases n - t,
    {
        let count = data[q + t];
        let b = data[q + t + 1];
        let ghost before = rle_decode(data@.subrange(q as int, q + t));
        let mut m: u8 = 0;
        while m < count
            invariant
                m <= count,
                bytes@ == encode_utf8(before + Seq::new(m as nat, |_j: int| byte_char(b))),
            decreases count - m,
        {
            push_byte_char(&mut bytes, b);
            proof {
                let prev = before + Seq::new(m as nat, |_j: int| byte_char(b));
                lemma_encode_utf8_push(prev, byte_char(b));
                assert(prev.push(byte_char(b)) =~= before + Seq::new((m + 1) as nat, |_j: int| byte_char(b)));
            }
            m = m + 1;
        }
        proof {
            let sub = data@.subrange(q as int, q + t);
            lemma_rle_decode_snoc(sub, count, b);
            assert(data@.subrange(q as int, q + t + 2) =~= sub + seq![count, b]);
        }
        t = t + 2;
    }
    proof {
        encode_utf8_valid_utf8(rle_decode(data@.subrange(q as int, q + n)));
        encode_utf8_decode_utf8(rle_decode(data@.subrange(q as int, q + n)));
    }
    match string_from_utf8(bytes) {
        Some(s) => Ok((s, q + n)),
        None => Err(CodecError::InvalidUtf8),
    }
}

/// A run-length encoding is made of whole (count, byte) pairs.
pub proof fn lemma_rle_even(s: Seq<char>, i: int)
    ensures
        rle_from(s, i).len() % 2 == 0,
    decreases s.len() - i,
{
    if 0 <= i < s.len() {
        let k = 1 + run_from(s, i + 1, s[i], 254);
        if !(k < 1 || i + k > s.len()) {
            lemma_rle_even(s, i + k);
        }
    }
}

/// Decoding only moves forward, and stays within the input.
pub proof fn lemma_read_string_advances(b: Seq<u8>, p: int)
    ensures
        read_string_spec(b, p) matches Ok((_, q)) ==> p < q <= b.len(),
{
    lemma_scan_advances(b, p, 0, 0);
}

/// Decoding only moves forward, and stays within the input.
pub proof fn lemma_scan_advances(b: Seq<u8>, p: int, i: nat, acc: nat)
    ensures
        varuint_scan(b, p, i, acc) matches Ok((_, q)) ==> p + i < q <= b.len(),
    decreases 5 - i,
{
    if i < 5 && p >= 0 && p + i < b.len() && b[p + i] >= 128 {
        lemma_scan_advances(b, p, i + 1, (acc + (b[p + i] - 128) * pow128(i)) as nat);
    }
}

} // verus!
