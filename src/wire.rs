//! The wire format, as spec functions over byte sequences.
use vstd::prelude::*;
use vstd::utf8::*;

verus! {

/// What a failed read reports.
#[derive(Debug, Clone, Copy, PartialEq, Eq, Structural)]
pub enum DecodeError {
    /// Fewer bytes remain than the value being read needs.
    TruncatedInput,
    /// The bytes of a text value are not well-formed UTF-8.
    InvalidTextEncoding,
    /// A boolean byte other than `0` or `1`.
    InvalidBooleanEncoding,
}

/// `256` raised to the power `n`.
pub open spec fn pow256(n: nat) -> nat
    decreases n,
{
    if n == 0 {
        1
    } else {
        256 * pow256((n - 1) as nat)
    }
}

/// The `n` low-order bytes of `v`, least significant first.
pub open spec fn le_bytes(v: nat, n: nat) -> Seq<u8>
    decreases n,
{
    if n == 0 {
        Seq::empty()
    } else {
        seq![(v % 256) as u8] + le_bytes(v / 256, (n - 1) as nat)
    }
}

/// The number that the bytes `b` stand for, least significant first.
pub open spec fn le_value(b: Seq<u8>) -> nat
    decreases b.len(),
{
    if b.len() == 0 {
        0
    } else {
        b[0] as nat + 256 * le_value(b.drop_first())
    }
}

pub proof fn lemma_pow256_widths()
    ensures
        pow256(1) == 0x100,
        pow256(2) == 0x1_0000,
        pow256(4) == 0x1_0000_0000,
        pow256(7) == 0x100_0000_0000_0000,
        pow256(8) == 0x1_0000_0000_0000_0000,
{
    reveal_with_fuel(pow256, 9);
}

pub proof fn lemma_pow256_mono(a: nat, b: nat)
    requires
        a <= b,
    ensures
        pow256(a) <= pow256(b),
    decreases b,
{
    if a < b {
        lemma_pow256_mono(a, (b - 1) as nat);
    }
}

pub proof fn lemma_le_bytes_len(v: nat, n: nat)
    ensures
        le_bytes(v, n).len() == n,
    decreases n,
{
    if n > 0 {
        lemma_le_bytes_len(v / 256, (n - 1) as nat);
    }
}

pub proof fn lemma_le_value_bound(b: Seq<u8>)
    ensures
        le_value(b) < pow256(b.len()),
    decreases b.len(),
{
    if b.len() > 0 {
        lemma_le_value_bound(b.drop_first());
        let r = le_value(b.drop_first());
        let p = pow256((b.len() - 1) as nat);
        assert(r + 1 <= p);
        assert(256 * (r + 1) <= 256 * p) by (nonlinear_arith)
            requires
                r + 1 <= p,
        ;
    }
}

/// Reading back `n` little-endian bytes of `v` gives `v`, when `v` fits in them.
pub proof fn lemma_le_round_trip(v: nat, n: nat)
    requires
        v < pow256(n),
    ensures
        le_bytes(v, n).len() == n,
        le_value(le_bytes(v, n)) == v,
    decreases n,
{
    lemma_le_bytes_len(v, n);
    if n > 0 {
        let p = pow256((n - 1) as nat);
        assert(v / 256 < p) by (nonlinear_arith)
            requires
                v < 256 * p,
        ;
        lemma_le_round_trip(v / 256, (n - 1) as nat);
        let b = le_bytes(v, n);
        assert(b.drop_first() =~= le_bytes(v / 256, (n - 1) as nat));
    }
}

/// Encodings, one per kind.
pub open spec fn enc_u8(v: u8) -> Seq<u8> {
    seq![v]
}

pub open spec fn enc_u16(v: u16) -> Seq<u8> {
    le_bytes(v as nat, 2)
}

pub open spec fn enc_u32(v: u32) -> Seq<u8> {
    le_bytes(v as nat, 4)
}

pub open spec fn enc_u64(v: u64) -> Seq<u8> {
    le_bytes(v as nat, 8)
}

/// A signed 8-bit value is its two's-complement byte.
pub open spec fn enc_i8(v: i8) -> Seq<u8> {
    seq![v as u8]
}

pub open spec fn enc_i16(v: i16) -> Seq<u8> {
    enc_u16(v as u16)
}

pub open spec fn enc_i32(v: i32) -> Seq<u8> {
    enc_u32(v as u32)
}

pub open spec fn enc_i64(v: i64) -> Seq<u8> {
    enc_u64(v as u64)
}

pub open spec fn enc_bool(v: bool) -> Seq<u8> {
    seq![if v { 1u8 } else { 0u8 }]
}

/// A length or count prefix: the length truncated to 32 bits, as the writer takes it.
pub open spec fn enc_len(n: nat) -> Seq<u8> {
    enc_u32(n as u32)
}

/// Text: the byte count of its UTF-8 form, then those bytes.
pub open spec fn enc_str(s: Seq<char>) -> Seq<u8> {
    enc_len(encode_utf8(s).len()) + encode_utf8(s)
}

/// The encodings of the items of `s`, one after another.
pub open spec fn concat_map<T>(s: Seq<T>, f: spec_fn(T) -> Seq<u8>) -> Seq<u8>
    decreases s.len(),
{
    if s.len() == 0 {
        Seq::empty()
    } else {
        concat_map(s.drop_last(), f) + f(s.last())
    }
}

/// A sequence: its element count, then each element's encoding in order.
pub open spec fn enc_seq<T>(s: Seq<T>, f: spec_fn(T) -> Seq<u8>) -> Seq<u8> {
    enc_len(s.len()) + concat_map(s, f)
}

pub open spec fn enc_vec_u8(s: Seq<u8>) -> Seq<u8> {
    enc_seq(s, |x: u8| enc_u8(x))
}

pub open spec fn enc_vec_u16(s: Seq<u16>) -> Seq<u8> {
    enc_seq(s, |x: u16| enc_u16(x))
}

pub open spec fn enc_vec_u32(s: Seq<u32>) -> Seq<u8> {
    enc_seq(s, |x: u32| enc_u32(x))
}

pub open spec fn enc_vec_u64(s: Seq<u64>) -> Seq<u8> {
    enc_seq(s, |x: u64| enc_u64(x))
}

pub open spec fn enc_vec_i8(s: Seq<i8>) -> Seq<u8> {
    enc_seq(s, |x: i8| enc_i8(x))
}

pub open spec fn enc_vec_i16(s: Seq<i16>) -> Seq<u8> {
    enc_seq(s, |x: i16| enc_i16(x))
}

pub open spec fn enc_vec_i32(s: Seq<i32>) -> Seq<u8> {
    enc_seq(s, |x: i32| enc_i32(x))
}

pub open spec fn enc_vec_i64(s: Seq<i64>) -> Seq<u8> {
    enc_seq(s, |x: i64| enc_i64(x))
}

/// The texts held by a sequence of strings.
pub open spec fn texts(v: Seq<String>) -> Seq<Seq<char>> {
    v.map_values(|s: String| s@)
}

pub open spec fn enc_vec_str(s: Seq<Seq<char>>) -> Seq<u8> {
    enc_seq(s, |x: Seq<char>| enc_str(x))
}

/// What reading a value of some kind from the front of the bytes `b` gives:
/// the value and the number of bytes it took, or the error.
pub type Parsed<T> = Result<(T, nat), DecodeError>;

/// `n` bytes as an unsigned little-endian number.
pub open spec fn parse_fixed(b: Seq<u8>, n: nat) -> Parsed<nat> {
    if b.len() >= n {
        Ok((le_value(b.take(n as int)), n))
    } else {
        Err(DecodeError::TruncatedInput)
    }
}

pub open spec fn parse_u8(b: Seq<u8>) -> Parsed<u8> {
    if b.len() >= 1 {
        Ok((b[0], 1))
    } else {
        Err(DecodeError::TruncatedInput)
    }
}

pub open spec fn parse_u16(b: Seq<u8>) -> Parsed<u16> {
    match parse_fixed(b, 2) {
        Ok((v, n)) => Ok((v as u16, n)),
        Err(e) => Err(e),
    }
}

pub open spec fn parse_u32(b: Seq<u8>) -> Parsed<u32> {
    match parse_fixed(b, 4) {
        Ok((v, n)) => Ok((v as u32, n)),
        Err(e) => Err(e),
    }
}

pub open spec fn parse_u64(b: Seq<u8>) -> Parsed<u64> {
    match parse_fixed(b, 8) {
        Ok((v, n)) => Ok((v as u64, n)),
        Err(e) => Err(e),
    }
}

/// Signed values are read as their unsigned counterpart, then reinterpreted.
pub open spec fn parse_i8(b: Seq<u8>) -> Parsed<i8> {
    match parse_u8(b) {
        Ok((v, n)) => Ok((v as i8, n)),
        Err(e) => Err(e),
    }
}

pub open spec fn parse_i16(b: Seq<u8>) -> Parsed<i16> {
    match parse_u16(b) {
        Ok((v, n)) => Ok((v as i16, n)),
        Err(e) => Err(e),
    }
}

pub open spec fn parse_i32(b: Seq<u8>) -> Parsed<i32> {
    match parse_u32(b) {
        Ok((v, n)) => Ok((v as i32, n)),
        Err(e) => Err(e),
    }
}

pub open spec fn parse_i64(b: Seq<u8>) -> Parsed<i64> {
    match parse_u64(b) {
        Ok((v, n)) => Ok((v as i64, n)),
        Err(e) => Err(e),
    }
}

pub open spec fn parse_bool(b: Seq<u8>) -> Parsed<bool> {
    match parse_u8(b) {
        Ok((v, n)) => if v == 0 {
            Ok((false, n))
        } else if v == 1 {
            Ok((true, n))
        } else {
            Err(DecodeError::InvalidBooleanEncoding)
        },
        Err(e) => Err(e),
    }
}

/// Text: a byte count, then that many bytes, which must be well-formed UTF-8.
pub open spec fn parse_str(b: Seq<u8>) -> Parsed<Seq<char>> {
    match parse_u32(b) {
        Ok((len, _)) => if b.len() >= 4 + len {
            let payload = b.subrange(4, 4 + len);
            if valid_utf8(payload) {
                Ok((decode_utf8(payload), (4 + len) as nat))
            } else {
                Err(DecodeError::InvalidTextEncoding)
            }
        } else {
            Err(DecodeError::TruncatedInput)
        },
        Err(e) => Err(e),
    }
}

/// `k` elements read one after another from the front of `b`, stopping at the first error.
pub open spec fn parse_elems<T>(b: Seq<u8>, k: nat, p: spec_fn(Seq<u8>) -> Parsed<T>) -> Parsed<
    Seq<T>,
>
    decreases k,
{
    if k == 0 {
        Ok((Seq::empty(), 0))
    } else {
        match parse_elems(b, (k - 1) as nat, p) {
            Ok((xs, n)) => match p(b.skip(n as int)) {
                Ok((x, m)) => Ok((xs.push(x), n + m)),
                Err(e) => Err(e),
            },
            Err(e) => Err(e),
        }
    }
}

/// A sequence: the element count, then the elements.
pub open spec fn parse_seq<T>(b: Seq<u8>, p: spec_fn(Seq<u8>) -> Parsed<T>) -> Parsed<Seq<T>> {
    match parse_u32(b) {
        Ok((k, _)) => match parse_elems(b.skip(4), k as nat, p) {
            Ok((xs, n)) => Ok((xs, 4 + n)),
            Err(e) => Err(e),
        },
        Err(e) => Err(e),
    }
}

pub open spec fn parse_vec_u8(b: Seq<u8>) -> Parsed<Seq<u8>> {
    parse_seq(b, |x: Seq<u8>| parse_u8(x))
}

pub open spec fn parse_vec_u16(b: Seq<u8>) -> Parsed<Seq<u16>> {
    parse_seq(b, |x: Seq<u8>| parse_u16(x))
}

pub open spec fn parse_vec_u32(b: Seq<u8>) -> Parsed<Seq<u32>> {
    parse_seq(b, |x: Seq<u8>| parse_u32(x))
}

pub open spec fn parse_vec_u64(b: Seq<u8>) -> Parsed<Seq<u64>> {
    parse_seq(b, |x: Seq<u8>| parse_u64(x))
}

pub open spec fn parse_vec_i8(b: Seq<u8>) -> Parsed<Seq<i8>> {
    parse_seq(b, |x: Seq<u8>| parse_i8(x))
}

pub open spec fn parse_vec_i16(b: Seq<u8>) -> Parsed<Seq<i16>> {
    parse_seq(b, |x: Seq<u8>| parse_i16(x))
}

pub open spec fn parse_vec_i32(b: Seq<u8>) -> Parsed<Seq<i32>> {
    parse_seq(b, |x: Seq<u8>| parse_i32(x))
}

pub open spec fn parse_vec_i64(b: Seq<u8>) -> Parsed<Seq<i64>> {
    parse_seq(b, |x: Seq<u8>| parse_i64(x))
}

pub open spec fn parse_vec_str(b: Seq<u8>) -> Parsed<Seq<Seq<char>>> {
    parse_seq(b, |x: Seq<u8>| parse_str(x))
}

/// Once reading the elements fails, reading more of them fails the same way.
pub proof fn lemma_elems_err<T>(b: Seq<u8>, i: nat, k: nat, p: spec_fn(Seq<u8>) -> Parsed<T>)
    requires
        i <= k,
        parse_elems(b, i, p) is Err,
    ensures
        parse_elems(b, k, p) == parse_elems(b, i, p),
    decreases k,
{
    if i < k {
        lemma_elems_err(b, i, (k - 1) as nat, p);
    }
}

} // verus!
