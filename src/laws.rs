//! Laws of the wire format: what holds of every value, over the spec
//! functions that the writer's and the reader's contracts are stated in.
use vstd::prelude::*;
use vstd::utf8::{encode_utf8, encode_utf8_decode_utf8, encode_utf8_valid_utf8};
use crate::wire::{
    concat_map, enc_bool, enc_i16, enc_i32, enc_i64, enc_i8, enc_seq, enc_str, enc_u16, enc_u32,
    enc_u64, enc_u8, enc_vec_i16, enc_vec_i32, enc_vec_i64, enc_vec_i8, enc_vec_str,
    enc_vec_u16, enc_vec_u32, enc_vec_u64, enc_vec_u8, le_bytes, lemma_le_bytes_len,
    lemma_le_round_trip, lemma_pow256_widths, parse_bool, parse_elems, parse_fixed, parse_i16,
    parse_i32, parse_i64, parse_i8, parse_seq, parse_str, parse_u16, parse_u32, parse_u64,
    parse_u8, parse_vec_i16, parse_vec_i32, parse_vec_i64, parse_vec_i8, parse_vec_str,
    parse_vec_u16, parse_vec_u32, parse_vec_u64, parse_vec_u8, pow256, DecodeError, Parsed,
};

verus! {

/// A value of any kind that the format carries, floating point aside.
pub enum WireValue {
    U8(u8),
    U16(u16),
    U32(u32),
    U64(u64),
    I8(i8),
    I16(i16),
    I32(i32),
    I64(i64),
    Bool(bool),
    Text(Seq<char>),
    VecU8(Seq<u8>),
    VecU16(Seq<u16>),
    VecU32(Seq<u32>),
    VecU64(Seq<u64>),
    VecI8(Seq<i8>),
    VecI16(Seq<i16>),
    VecI32(Seq<i32>),
    VecI64(Seq<i64>),
    VecText(Seq<Seq<char>>),
}

/// The encoding of a value, as the writer's method for its kind appends it.
pub open spec fn encode_value(v: WireValue) -> Seq<u8> {
    match v {
        WireValue::U8(x) => enc_u8(x),
        WireValue::U16(x) => enc_u16(x),
        WireValue::U32(x) => enc_u32(x),
        WireValue::U64(x) => enc_u64(x),
        WireValue::I8(x) => enc_i8(x),
        WireValue::I16(x) => enc_i16(x),
        WireValue::I32(x) => enc_i32(x),
        WireValue::I64(x) => enc_i64(x),
        WireValue::Bool(x) => enc_bool(x),
        WireValue::Text(x) => enc_str(x),
        WireValue::VecU8(x) => enc_vec_u8(x),
        WireValue::VecU16(x) => enc_vec_u16(x),
        WireValue::VecU32(x) => enc_vec_u32(x),
        WireValue::VecU64(x) => enc_vec_u64(x),
        WireValue::VecI8(x) => enc_vec_i8(x),
        WireValue::VecI16(x) => enc_vec_i16(x),
        WireValue::VecI32(x) => enc_vec_i32(x),
        WireValue::VecI64(x) => enc_vec_i64(x),
        WireValue::VecText(x) => enc_vec_str(x),
    }
}

/// The encodings of the values, one after another.
pub open spec fn encode_all(vs: Seq<WireValue>) -> Seq<u8> {
    concat_map(vs, |v: WireValue| encode_value(v))
}

/// What the reader's method for the kind of `v` gives on the bytes `b`.
pub open spec fn parse_like(v: WireValue, b: Seq<u8>) -> Parsed<WireValue> {
    match v {
        WireValue::U8(_) => match parse_u8(b) {
            Ok((x, n)) => Ok((WireValue::U8(x), n)),
            Err(e) => Err(e),
        },
        WireValue::U16(_) => match parse_u16(b) {
            Ok((x, n)) => Ok((WireValue::U16(x), n)),
            Err(e) => Err(e),
        },
        WireValue::U32(_) => match parse_u32(b) {
            Ok((x, n)) => Ok((WireValue::U32(x), n)),
            Err(e) => Err(e),
        },
        WireValue::U64(_) => match parse_u64(b) {
            Ok((x, n)) => Ok((WireValue::U64(x), n)),
            Err(e) => Err(e),
        },
        WireValue::I8(_) => match parse_i8(b) {
            Ok((x, n)) => Ok((WireValue::I8(x), n)),
            Err(e) => Err(e),
        },
        WireValue::I16(_) => match parse_i16(b) {
            Ok((x, n)) => Ok((WireValue::I16(x), n)),
            Err(e) => Err(e),
        },
        WireValue::I32(_) => match parse_i32(b) {
            Ok((x, n)) => Ok((WireValue::I32(x), n)),
            Err(e) => Err(e),
        },
        WireValue::I64(_) => match parse_i64(b) {
            Ok((x, n)) => Ok((WireValue::I64(x), n)),
            Err(e) => Err(e),
        },
        WireValue::Bool(_) => match parse_bool(b) {
            Ok((x, n)) => Ok((WireValue::Bool(x), n)),
            Err(e) => Err(e),
        },
        WireValue::Text(_) => match parse_str(b) {
            Ok((x, n)) => Ok((WireValue::Text(x), n)),
            Err(e) => Err(e),
        },
        WireValue::VecU8(_) => match parse_vec_u8(b) {
            Ok((x, n)) => Ok((WireValue::VecU8(x), n)),
            Err(e) => Err(e),
        },
        WireValue::VecU16(_) => match parse_vec_u16(b) {
            Ok((x, n)) => Ok((WireValue::VecU16(x), n)),
            Err(e) => Err(e),
        },
        WireValue::VecU32(_) => match parse_vec_u32(b) {
            Ok((x, n)) => Ok((WireValue::VecU32(x), n)),
            Err(e) => Err(e),
        },
        WireValue::VecU64(_) => match parse_vec_u64(b) {
            Ok((x, n)) => Ok((WireValue::VecU64(x), n)),
            Err(e) => Err(e),
        },
        WireValue::VecI8(_) => match parse_vec_i8(b) {
            Ok((x, n)) => Ok((WireValue::VecI8(x), n)),
            Err(e) => Err(e),
        },
        WireValue::VecI16(_) => match parse_vec_i16(b) {
            Ok((x, n)) => Ok((WireValue::VecI16(x), n)),
            Err(e) => Err(e),
        },
        WireValue::VecI32(_) => match parse_vec_i32(b) {
            Ok((x, n)) => Ok((WireValue::VecI32(x), n)),
            Err(e) => Err(e),
        },
        WireValue::VecI64(_) => match parse_vec_i64(b) {
            Ok((x, n)) => Ok((WireValue::VecI64(x), n)),
            Err(e) => Err(e),
        },
        WireValue::VecText(_) => match parse_vec_str(b) {
            Ok((x, n)) => Ok((WireValue::VecText(x), n)),
            Err(e) => Err(e),
        },
    }
}

/// Whether `v` is of a fixed-width kind.
pub open spec fn is_primitive(v: WireValue) -> bool {
    match v {
        WireValue::U8(_) | WireValue::U16(_) | WireValue::U32(_) | WireValue::U64(_) => true,
        WireValue::I8(_) | WireValue::I16(_) | WireValue::I32(_) | WireValue::I64(_) => true,
        WireValue::Bool(_) => true,
        _ => false,
    }
}

/// Whether every length and count in `v` fits the 32-bit prefix that carries it.
pub open spec fn encodable(v: WireValue) -> bool {
    match v {
        WireValue::Text(s) => encode_utf8(s).len() <= u32::MAX,
        WireValue::VecU8(s) => s.len() <= u32::MAX,
        WireValue::VecU16(s) => s.len() <= u32::MAX,
        WireValue::VecU32(s) => s.len() <= u32::MAX,
        WireValue::VecU64(s) => s.len() <= u32::MAX,
        WireValue::VecI8(s) => s.len() <= u32::MAX,
        WireValue::VecI16(s) => s.len() <= u32::MAX,
        WireValue::VecI32(s) => s.len() <= u32::MAX,
        WireValue::VecI64(s) => s.len() <= u32::MAX,
        WireValue::VecText(s) => s.len() <= u32::MAX && forall|i: int|
            0 <= i < s.len() ==> encode_utf8(#[trigger] s[i]).len() <= u32::MAX,
        _ => true,
    }
}

proof fn lemma_fixed_round_trip(v: nat, n: nat, rest: Seq<u8>)
    requires
        v < pow256(n),
    ensures
        parse_fixed(le_bytes(v, n) + rest, n) == Ok::<(nat, nat), DecodeError>((v, n)),
{
    lemma_le_round_trip(v, n);
    assert((le_bytes(v, n) + rest).take(n as int) =~= le_bytes(v, n));
}

proof fn lemma_u8_round_trip(x: u8, rest: Seq<u8>)
    ensures
        parse_u8(enc_u8(x) + rest) == Ok::<(u8, nat), DecodeError>((x, enc_u8(x).len())),
{
}

proof fn lemma_u16_round_trip(x: u16, rest: Seq<u8>)
    ensures
        enc_u16(x).len() == 2,
        parse_u16(enc_u16(x) + rest) == Ok::<(u16, nat), DecodeError>((x, enc_u16(x).len())),
{
    lemma_pow256_widths();
    lemma_fixed_round_trip(x as nat, 2, rest);
    lemma_le_bytes_len(x as nat, 2);
}

proof fn lemma_u32_round_trip(x: u32, rest: Seq<u8>)
    ensures
        enc_u32(x).len() == 4,
        parse_u32(enc_u32(x) + rest) == Ok::<(u32, nat), DecodeError>((x, enc_u32(x).len())),
{
    lemma_pow256_widths();
    lemma_fixed_round_trip(x as nat, 4, rest);
    lemma_le_bytes_len(x as nat, 4);
}

proof fn lemma_u64_round_trip(x: u64, rest: Seq<u8>)
    ensures
        enc_u64(x).len() == 8,
        parse_u64(enc_u64(x) + rest) == Ok::<(u64, nat), DecodeError>((x, enc_u64(x).len())),
{
    lemma_pow256_widths();
    lemma_fixed_round_trip(x as nat, 8, rest);
    lemma_le_bytes_len(x as nat, 8);
}

proof fn lemma_i8_round_trip(x: i8, rest: Seq<u8>)
    ensures
        parse_i8(enc_i8(x) + rest) == Ok::<(i8, nat), DecodeError>((x, enc_i8(x).len())),
{
    assert((x as u8) as i8 == x) by (bit_vector);
}

proof fn lemma_i16_round_trip(x: i16, rest: Seq<u8>)
    ensures
        enc_i16(x).len() == 2,
        parse_i16(enc_i16(x) + rest) == Ok::<(i16, nat), DecodeError>((x, enc_i16(x).len())),
{
    lemma_u16_round_trip(x as u16, rest);
    assert((x as u16) as i16 == x) by (bit_vector);
}

proof fn lemma_i32_round_trip(x: i32, rest: Seq<u8>)
    ensures
        enc_i32(x).len() == 4,
        parse_i32(enc_i32(x) + rest) == Ok::<(i32, nat), DecodeError>((x, enc_i32(x).len())),
{
    lemma_u32_round_trip(x as u32, rest);
    assert((x as u32) as i32 == x) by (bit_vector);
}

proof fn lemma_i64_round_trip(x: i64, rest: Seq<u8>)
    ensures
        enc_i64(x).len() == 8,
        parse_i64(enc_i64(x) + rest) == Ok::<(i64, nat), DecodeError>((x, enc_i64(x).len())),
{
    lemma_u64_round_trip(x as u64, rest);
    assert((x as u64) as i64 == x) by (bit_vector);
}

proof fn lemma_bool_round_trip(x: bool, rest: Seq<u8>)
    ensures
        parse_bool(enc_bool(x) + rest) == Ok::<(bool, nat), DecodeError>((x, enc_bool(x).len())),
{
}

proof fn lemma_str_round_trip(s: Seq<char>, rest: Seq<u8>)
    requires
        encode_utf8(s).len() <= u32::MAX,
    ensures
        parse_str(enc_str(s) + rest) == Ok::<(Seq<char>, nat), DecodeError>((s, enc_str(s).len())),
{
    let u = encode_utf8(s);
    let n = u.len();
    let b = enc_str(s) + rest;
    lemma_u32_round_trip(n as u32, u + rest);
    assert(b =~= enc_u32(n as u32) + (u + rest));
    assert(b.subrange(4, 4 + n as int) =~= u);
    encode_utf8_valid_utf8(s);
    encode_utf8_decode_utf8(s);
}

proof fn lemma_elems_round_trip<T>(
    s: Seq<T>,
    f: spec_fn(T) -> Seq<u8>,
    p: spec_fn(Seq<u8>) -> Parsed<T>,
    rest: Seq<u8>,
)
    requires
        forall|i: int, r: Seq<u8>|
            0 <= i < s.len() ==> #[trigger] p(f(s[i]) + r) == Ok::<(T, nat), DecodeError>(
                (s[i], f(s[i]).len()),
            ),
    ensures
        parse_elems(concat_map(s, f) + rest, s.len(), p) == Ok::<(Seq<T>, nat), DecodeError>(
            (s, concat_map(s, f).len()),
        ),
    decreases s.len(),
{
    if s.len() == 0 {
        assert(s =~= Seq::<T>::empty());
    } else {
        let s0 = s.drop_last();
        let x = s.last();
        let tail = f(x) + rest;
        assert forall|i: int, r: Seq<u8>| 0 <= i < s0.len() implies #[trigger] p(f(s0[i]) + r)
            == Ok::<(T, nat), DecodeError>((s0[i], f(s0[i]).len())) by {
            assert(s0[i] == s[i]);
        }
        lemma_elems_round_trip(s0, f, p, tail);
        let b = concat_map(s, f) + rest;
        assert(b =~= concat_map(s0, f) + tail);
        assert(b.skip(concat_map(s0, f).len() as int) =~= tail);
        assert(p(f(s[s.len() - 1]) + rest) == Ok::<(T, nat), DecodeError>((x, f(x).len())));
        assert(s0.push(x) =~= s);
    }
}

proof fn lemma_seq_round_trip<T>(
    s: Seq<T>,
    f: spec_fn(T) -> Seq<u8>,
    p: spec_fn(Seq<u8>) -> Parsed<T>,
    rest: Seq<u8>,
)
    requires
        s.len() <= u32::MAX,
        forall|i: int, r: Seq<u8>|
            0 <= i < s.len() ==> #[trigger] p(f(s[i]) + r) == Ok::<(T, nat), DecodeError>(
                (s[i], f(s[i]).len()),
            ),
    ensures
        parse_seq(enc_seq(s, f) + rest, p) == Ok::<(Seq<T>, nat), DecodeError>(
            (s, enc_seq(s, f).len()),
        ),
{
    lemma_elems_round_trip(s, f, p, rest);
    let c = concat_map(s, f);
    let b = enc_seq(s, f) + rest;
    lemma_u32_round_trip(s.len() as u32, c + rest);
    assert(b =~= enc_u32(s.len() as u32) + (c + rest));
    assert(b.skip(4) =~= c + rest);
}

proof fn lemma_vec_u8_round_trip(s: Seq<u8>, rest: Seq<u8>)
    requires
        s.len() <= u32::MAX,
    ensures
        parse_vec_u8(enc_vec_u8(s) + rest) == Ok::<(Seq<u8>, nat), DecodeError>(
            (s, enc_vec_u8(s).len()),
        ),
{
    assert forall|i: int, r: Seq<u8>| 0 <= i < s.len() implies #[trigger] parse_u8(
        enc_u8(s[i]) + r,
    ) == Ok::<(u8, nat), DecodeError>((s[i], enc_u8(s[i]).len())) by {
        lemma_u8_round_trip(s[i], r);
    }
    lemma_seq_round_trip(s, |x: u8| enc_u8(x), |b: Seq<u8>| parse_u8(b), rest);
}

proof fn lemma_vec_u16_round_trip(s: Seq<u16>, rest: Seq<u8>)
    requires
        s.len() <= u32::MAX,
    ensures
        parse_vec_u16(enc_vec_u16(s) + rest) == Ok::<(Seq<u16>, nat), DecodeError>(
            (s, enc_vec_u16(s).len()),
        ),
{
    assert forall|i: int, r: Seq<u8>| 0 <= i < s.len() implies #[trigger] parse_u16(
        enc_u16(s[i]) + r,
    ) == Ok::<(u16, nat), DecodeError>((s[i], enc_u16(s[i]).len())) by {
        lemma_u16_round_trip(s[i], r);
    }
    lemma_seq_round_trip(s, |x: u16| enc_u16(x), |b: Seq<u8>| parse_u16(b), rest);
}

proof fn lemma_vec_u32_round_trip(s: Seq<u32>, rest: Seq<u8>)
    requires
        s.len() <= u32::MAX,
    ensures
        parse_vec_u32(enc_vec_u32(s) + rest) == Ok::<(Seq<u32>, nat), DecodeError>(
            (s, enc_vec_u32(s).len()),
        ),
{
    assert forall|i: int, r: Seq<u8>| 0 <= i < s.len() implies #[trigger] parse_u32(
        enc_u32(s[i]) + r,
    ) == Ok::<(u32, nat), DecodeError>((s[i], enc_u32(s[i]).len())) by {
        lemma_u32_round_trip(s[i], r);
    }
    lemma_seq_round_trip(s, |x: u32| enc_u32(x), |b: Seq<u8>| parse_u32(b), rest);
}

proof fn lemma_vec_u64_round_trip(s: Seq<u64>, rest: Seq<u8>)
    requires
        s.len() <= u32::MAX,
    ensures
        parse_vec_u64(enc_vec_u64(s) + rest) == Ok::<(Seq<u64>, nat), DecodeError>(
            (s, enc_vec_u64(s).len()),
        ),
{
    assert forall|i: int, r: Seq<u8>| 0 <= i < s.len() implies #[trigger] parse_u64(
        enc_u64(s[i]) + r,
    ) == Ok::<(u64, nat), DecodeError>((s[i], enc_u64(s[i]).len())) by {
        lemma_u64_round_trip(s[i], r);
    }
    lemma_seq_round_trip(s, |x: u64| enc_u64(x), |b: Seq<u8>| parse_u64(b), rest);
}

proof fn lemma_vec_i8_round_trip(s: Seq<i8>, rest: Seq<u8>)
    requires
        s.len() <= u32::MAX,
    ensures
        parse_vec_i8(enc_vec_i8(s) + rest) == Ok::<(Seq<i8>, nat), DecodeError>(
            (s, enc_vec_i8(s).len()),
        ),
{
    assert forall|i: int, r: Seq<u8>| 0 <= i < s.len() implies #[trigger] parse_i8(
        enc_i8(s[i]) + r,
    ) == Ok::<(i8, nat), DecodeError>((s[i], enc_i8(s[i]).len())) by {
        lemma_i8_round_trip(s[i], r);
    }
    lemma_seq_round_trip(s, |x: i8| enc_i8(x), |b: Seq<u8>| parse_i8(b), rest);
}

proof fn lemma_vec_i16_round_trip(s: Seq<i16>, rest: Seq<u8>)
    requires
        s.len() <= u32::MAX,
    ensures
        parse_vec_i16(enc_vec_i16(s) + rest) == Ok::<(Seq<i16>, nat), DecodeError>(
            (s, enc_vec_i16(s).len()),
        ),
{
    assert forall|i: int, r: Seq<u8>| 0 <= i < s.len() implies #[trigger] parse_i16(
        enc_i16(s[i]) + r,
    ) == Ok::<(i16, nat), DecodeError>((s[i], enc_i16(s[i]).len())) by {
        lemma_i16_round_trip(s[i], r);
    }
    lemma_seq_round_trip(s, |x: i16| enc_i16(x), |b: Seq<u8>| parse_i16(b), rest);
}

proof fn lemma_vec_i32_round_trip(s: Seq<i32>, rest: Seq<u8>)
    requires
        s.len() <= u32::MAX,
    ensures
        parse_vec_i32(enc_vec_i32(s) + rest) == Ok::<(Seq<i32>, nat), DecodeError>(
            (s, enc_vec_i32(s).len()),
        ),
{
    assert forall|i: int, r: Seq<u8>| 0 <= i < s.len() implies #[trigger] parse_i32(
        enc_i32(s[i]) + r,
    ) == Ok::<(i32, nat), DecodeError>((s[i], enc_i32(s[i]).len())) by {
        lemma_i32_round_trip(s[i], r);
    }
    lemma_seq_round_trip(s, |x: i32| enc_i32(x), |b: Seq<u8>| parse_i32(b), rest);
}

proof fn lemma_vec_i64_round_trip(s: Seq<i64>, rest: Seq<u8>)
    requires
        s.len() <= u32::MAX,
    ensures
        parse_vec_i64(enc_vec_i64(s) + rest) == Ok::<(Seq<i64>, nat), DecodeError>(
            (s, enc_vec_i64(s).len()),
        ),
{
    assert forall|i: int, r: Seq<u8>| 0 <= i < s.len() implies #[trigger] parse_i64(
        enc_i64(s[i]) + r,
    ) == Ok::<(i64, nat), DecodeError>((s[i], enc_i64(s[i]).len())) by {
        lemma_i64_round_trip(s[i], r);
    }
    lemma_seq_round_trip(s, |x: i64| enc_i64(x), |b: Seq<u8>| parse_i64(b), rest);
}

proof fn lemma_vec_str_round_trip(s: Seq<Seq<char>>, rest: Seq<u8>)
    requires
        s.len() <= u32::MAX,
        forall|i: int| 0 <= i < s.len() ==> encode_utf8(#[trigger] s[i]).len() <= u32::MAX,
    ensures
        parse_vec_str(enc_vec_str(s) + rest) == Ok::<(Seq<Seq<char>>, nat), DecodeError>(
            (s, enc_vec_str(s).len()),
        ),
{
    assert forall|i: int, r: Seq<u8>| 0 <= i < s.len() implies #[trigger] parse_str(
        enc_str(s[i]) + r,
    ) == Ok::<(Seq<char>, nat), DecodeError>((s[i], enc_str(s[i]).len())) by {
        lemma_str_round_trip(s[i], r);
    }
    lemma_seq_round_trip(s, |x: Seq<char>| enc_str(x), |b: Seq<u8>| parse_str(b), rest);
}

/// Round trip: reading a value back, with the reader's method for its kind,
/// from its encoding followed by any bytes, gives the value and consumes
/// exactly its encoding. This holds of every kind, fixed-width values at
/// their extremes, texts with multi-byte characters and empty sequences
/// included, wherever each length and count fits its 32-bit prefix.
pub proof fn lemma_round_trip(v: WireValue, rest: Seq<u8>)
    requires
        encodable(v),
    ensures
        parse_like(v, encode_value(v) + rest) == Ok::<(WireValue, nat), DecodeError>(
            (v, encode_value(v).len()),
        ),
{
    match v {
        WireValue::U8(x) => lemma_u8_round_trip(x, rest),
        WireValue::U16(x) => lemma_u16_round_trip(x, rest),
        WireValue::U32(x) => lemma_u32_round_trip(x, rest),
        WireValue::U64(x) => lemma_u64_round_trip(x, rest),
        WireValue::I8(x) => lemma_i8_round_trip(x, rest),
        WireValue::I16(x) => lemma_i16_round_trip(x, rest),
        WireValue::I32(x) => lemma_i32_round_trip(x, rest),
        WireValue::I64(x) => lemma_i64_round_trip(x, rest),
        WireValue::Bool(x) => lemma_bool_round_trip(x, rest),
        WireValue::Text(x) => lemma_str_round_trip(x, rest),
        WireValue::VecU8(x) => lemma_vec_u8_round_trip(x, rest),
        WireValue::VecU16(x) => lemma_vec_u16_round_trip(x, rest),
        WireValue::VecU32(x) => lemma_vec_u32_round_trip(x, rest),
        WireValue::VecU64(x) => lemma_vec_u64_round_trip(x, rest),
        WireValue::VecI8(x) => lemma_vec_i8_round_trip(x, rest),
        WireValue::VecI16(x) => lemma_vec_i16_round_trip(x, rest),
        WireValue::VecI32(x) => lemma_vec_i32_round_trip(x, rest),
        WireValue::VecI64(x) => lemma_vec_i64_round_trip(x, rest),
        WireValue::VecText(x) => lemma_vec_str_round_trip(x, rest),
    }
}

/// The length prefix of a text is the byte count of its UTF-8 form, not its
/// number of characters, and the UTF-8 bytes follow it.
pub proof fn lemma_text_prefix_is_byte_count(s: Seq<char>)
    ensures
        enc_str(s).take(4) == enc_u32(encode_utf8(s).len() as u32),
        enc_str(s).skip(4) == encode_utf8(s),
{
    lemma_u32_round_trip(encode_utf8(s).len() as u32, Seq::empty());
    assert(enc_str(s).take(4) =~= enc_u32(encode_utf8(s).len() as u32));
    assert(enc_str(s).skip(4) =~= encode_utf8(s));
}

proof fn lemma_str_prefix(s: Seq<char>, k: int)
    requires
        encode_utf8(s).len() <= u32::MAX,
        0 <= k < enc_str(s).len(),
    ensures
        parse_str(enc_str(s).take(k)) == Err::<(Seq<char>, nat), DecodeError>(
            DecodeError::TruncatedInput,
        ),
{
    let u = encode_utf8(s);
    let n = u.len();
    lemma_u32_round_trip(n as u32, Seq::empty());
    if k >= 4 {
        lemma_u32_round_trip(n as u32, u.take(k - 4));
        assert(enc_str(s).take(k) =~= enc_u32(n as u32) + u.take(k - 4));
    }
}

proof fn lemma_elems_prefix<T>(
    s: Seq<T>,
    f: spec_fn(T) -> Seq<u8>,
    p: spec_fn(Seq<u8>) -> Parsed<T>,
    k: int,
)
    requires
        forall|i: int, r: Seq<u8>|
            0 <= i < s.len() ==> #[trigger] p(f(s[i]) + r) == Ok::<(T, nat), DecodeError>(
                (s[i], f(s[i]).len()),
            ),
        forall|i: int, j: int|
            0 <= i < s.len() && 0 <= j < f(s[i]).len() ==> #[trigger] p(f(s[i]).take(j)) == Err::<
                (T, nat),
                DecodeError,
            >(DecodeError::TruncatedInput),
        0 <= k < concat_map(s, f).len(),
    ensures
        parse_elems(concat_map(s, f).take(k), s.len(), p) == Err::<(Seq<T>, nat), DecodeError>(
            DecodeError::TruncatedInput,
        ),
    decreases s.len(),
{
    let s0 = s.drop_last();
    let x = s.last();
    let l0 = concat_map(s0, f).len() as int;
    let b = concat_map(s, f).take(k);
    assert forall|i: int, r: Seq<u8>| 0 <= i < s0.len() implies #[trigger] p(f(s0[i]) + r)
        == Ok::<(T, nat), DecodeError>((s0[i], f(s0[i]).len())) by {
        assert(s0[i] == s[i]);
    }
    assert forall|i: int, j: int| 0 <= i < s0.len() && 0 <= j < f(s0[i]).len() implies #[trigger] p(
        f(s0[i]).take(j),
    ) == Err::<(T, nat), DecodeError>(DecodeError::TruncatedInput) by {
        assert(s0[i] == s[i]);
    }
    if k < l0 {
        lemma_elems_prefix(s0, f, p, k);
        assert(b =~= concat_map(s0, f).take(k));
    } else {
        let t = f(x).take(k - l0);
        lemma_elems_round_trip(s0, f, p, t);
        assert(b =~= concat_map(s0, f) + t);
        assert(b.skip(l0) =~= t);
        assert(p(f(s[s.len() - 1]).take(k - l0)) == Err::<(T, nat), DecodeError>(
            DecodeError::TruncatedInput,
        ));
    }
}

proof fn lemma_seq_prefix<T>(
    s: Seq<T>,
    f: spec_fn(T) -> Seq<u8>,
    p: spec_fn(Seq<u8>) -> Parsed<T>,
    k: int,
)
    requires
        s.len() <= u32::MAX,
        forall|i: int, r: Seq<u8>|
            0 <= i < s.len() ==> #[trigger] p(f(s[i]) + r) == Ok::<(T, nat), DecodeError>(
                (s[i], f(s[i]).len()),
            ),
        forall|i: int, j: int|
            0 <= i < s.len() && 0 <= j < f(s[i]).len() ==> #[trigger] p(f(s[i]).take(j)) == Err::<
                (T, nat),
                DecodeError,
            >(DecodeError::TruncatedInput),
        0 <= k < enc_seq(s, f).len(),
    ensures
        parse_seq(enc_seq(s, f).take(k), p) == Err::<(Seq<T>, nat), DecodeError>(
            DecodeError::TruncatedInput,
        ),
{
    let c = concat_map(s, f);
    lemma_u32_round_trip(s.len() as u32, Seq::empty());
    if k >= 4 {
        let b = enc_seq(s, f).take(k);
        lemma_u32_round_trip(s.len() as u32, c.take(k - 4));
        assert(b =~= enc_u32(s.len() as u32) + c.take(k - 4));
        assert(b.skip(4) =~= c.take(k - 4));
        lemma_elems_prefix(s, f, p, k - 4);
    }
}

proof fn lemma_vec_u8_prefix(s: Seq<u8>, k: int)
    requires
        s.len() <= u32::MAX,
        0 <= k < enc_vec_u8(s).len(),
    ensures
        parse_vec_u8(enc_vec_u8(s).take(k)) == Err::<(Seq<u8>, nat), DecodeError>(
            DecodeError::TruncatedInput,
        ),
{
    assert forall|i: int, r: Seq<u8>| 0 <= i < s.len() implies #[trigger] parse_u8(
        enc_u8(s[i]) + r,
    ) == Ok::<(u8, nat), DecodeError>((s[i], enc_u8(s[i]).len())) by {
        lemma_u8_round_trip(s[i], r);
    }
    assert forall|i: int, j: int| 0 <= i < s.len() && 0 <= j < enc_u8(s[i]).len() implies #[trigger] parse_u8(
        enc_u8(s[i]).take(j),
    ) == Err::<(u8, nat), DecodeError>(DecodeError::TruncatedInput) by {
        lemma_u8_round_trip(s[i], Seq::empty());
    }
    lemma_seq_prefix(s, |x: u8| enc_u8(x), |b: Seq<u8>| parse_u8(b), k);
}

proof fn lemma_vec_u16_prefix(s: Seq<u16>, k: int)
    requires
        s.len() <= u32::MAX,
        0 <= k < enc_vec_u16(s).len(),
    ensures
        parse_vec_u16(enc_vec_u16(s).take(k)) == Err::<(Seq<u16>, nat), DecodeError>(
            DecodeError::TruncatedInput,
        ),
{
    assert forall|i: int, r: Seq<u8>| 0 <= i < s.len() implies #[trigger] parse_u16(
        enc_u16(s[i]) + r,
    ) == Ok::<(u16, nat), DecodeError>((s[i], enc_u16(s[i]).len())) by {
        lemma_u16_round_trip(s[i], r);
    }
    assert forall|i: int, j: int| 0 <= i < s.len() && 0 <= j < enc_u16(s[i]).len() implies #[trigger] parse_u16(
        enc_u16(s[i]).take(j),
    ) == Err::<(u16, nat), DecodeError>(DecodeError::TruncatedInput) by {
        lemma_u16_round_trip(s[i], Seq::empty());
    }
    lemma_seq_prefix(s, |x: u16| enc_u16(x), |b: Seq<u8>| parse_u16(b), k);
}

proof fn lemma_vec_u32_prefix(s: Seq<u32>, k: int)
    requires
        s.len() <= u32::MAX,
        0 <= k < enc_vec_u32(s).len(),
    ensures
        parse_vec_u32(enc_vec_u32(s).take(k)) == Err::<(Seq<u32>, nat), DecodeError>(
            DecodeError::TruncatedInput,
        ),
{
    assert forall|i: int, r: Seq<u8>| 0 <= i < s.len() implies #[trigger] parse_u32(
        enc_u32(s[i]) + r,
    ) == Ok::<(u32, nat), DecodeError>((s[i], enc_u32(s[i]).len())) by {
        lemma_u32_round_trip(s[i], r);
    }
    assert forall|i: int, j: int| 0 <= i < s.len() && 0 <= j < enc_u32(s[i]).len() implies #[trigger] parse_u32(
        enc_u32(s[i]).take(j),
    ) == Err::<(u32, nat), DecodeError>(DecodeError::TruncatedInput) by {
        lemma_u32_round_trip(s[i], Seq::empty());
    }
    lemma_seq_prefix(s, |x: u32| enc_u32(x), |b: Seq<u8>| parse_u32(b), k);
}

proof fn lemma_vec_u64_prefix(s: Seq<u64>, k: int)
    requires
        s.len() <= u32::MAX,
        0 <= k < enc_vec_u64(s).len(),
    ensures
        parse_vec_u64(enc_vec_u64(s).take(k)) == Err::<(Seq<u64>, nat), DecodeError>(
            DecodeError::TruncatedInput,
        ),
{
    assert forall|i: int, r: Seq<u8>| 0 <= i < s.len() implies #[trigger] parse_u64(
        enc_u64(s[i]) + r,
    ) == Ok::<(u64, nat), DecodeError>((s[i], enc_u64(s[i]).len())) by {
        lemma_u64_round_trip(s[i], r);
    }
    assert forall|i: int, j: int| 0 <= i < s.len() && 0 <= j < enc_u64(s[i]).len() implies #[trigger] parse_u64(
        enc_u64(s[i]).take(j),
    ) == Err::<(u64, nat), DecodeError>(DecodeError::TruncatedInput) by {
        lemma_u64_round_trip(s[i], Seq::empty());
    }
    lemma_seq_prefix(s, |x: u64| enc_u64(x), |b: Seq<u8>| parse_u64(b), k);
}

proof fn lemma_vec_i8_prefix(s: Seq<i8>, k: int)
    requires
        s.len() <= u32::MAX,
        0 <= k < enc_vec_i8(s).len(),
    ensures
        parse_vec_i8(enc_vec_i8(s).take(k)) == Err::<(Seq<i8>, nat), DecodeError>(
            DecodeError::TruncatedInput,
        ),
{
    assert forall|i: int, r: Seq<u8>| 0 <= i < s.len() implies #[trigger] parse_i8(
        enc_i8(s[i]) + r,
    ) == Ok::<(i8, nat), DecodeError>((s[i], enc_i8(s[i]).len())) by {
        lemma_i8_round_trip(s[i], r);
    }
    assert forall|i: int, j: int| 0 <= i < s.len() && 0 <= j < enc_i8(s[i]).len() implies #[trigger] parse_i8(
        enc_i8(s[i]).take(j),
    ) == Err::<(i8, nat), DecodeError>(DecodeError::TruncatedInput) by {
        lemma_i8_round_trip(s[i], Seq::empty());
    }
    lemma_seq_prefix(s, |x: i8| enc_i8(x), |b: Seq<u8>| parse_i8(b), k);
}

proof fn lemma_vec_i16_prefix(s: Seq<i16>, k: int)
    requires
        s.len() <= u32::MAX,
        0 <= k < enc_vec_i16(s).len(),
    ensures
        parse_vec_i16(enc_vec_i16(s).take(k)) == Err::<(Seq<i16>, nat), DecodeError>(
            DecodeError::TruncatedInput,
        ),
{
    assert forall|i: int, r: Seq<u8>| 0 <= i < s.len() implies #[trigger] parse_i16(
        enc_i16(s[i]) + r,
    ) == Ok::<(i16, nat), DecodeError>((s[i], enc_i16(s[i]).len())) by {
        lemma_i16_round_trip(s[i], r);
    }
    assert forall|i: int, j: int| 0 <= i < s.len() && 0 <= j < enc_i16(s[i]).len() implies #[trigger] parse_i16(
        enc_i16(s[i]).take(j),
    ) == Err::<(i16, nat), DecodeError>(DecodeError::TruncatedInput) by {
        lemma_i16_round_trip(s[i], Seq::empty());
    }
    lemma_seq_prefix(s, |x: i16| enc_i16(x), |b: Seq<u8>| parse_i16(b), k);
}

proof fn lemma_vec_i32_prefix(s: Seq<i32>, k: int)
    requires
        s.len() <= u32::MAX,
        0 <= k < enc_vec_i32(s).len(),
    ensures
        parse_vec_i32(enc_vec_i32(s).take(k)) == Err::<(Seq<i32>, nat), DecodeError>(
            DecodeError::TruncatedInput,
        ),
{
    assert forall|i: int, r: Seq<u8>| 0 <= i < s.len() implies #[trigger] parse_i32(
        enc_i32(s[i]) + r,
    ) == Ok::<(i32, nat), DecodeError>((s[i], enc_i32(s[i]).len())) by {
        lemma_i32_round_trip(s[i], r);
    }
    assert forall|i: int, j: int| 0 <= i < s.len() && 0 <= j < enc_i32(s[i]).len() implies #[trigger] parse_i32(
        enc_i32(s[i]).take(j),
    ) == Err::<(i32, nat), DecodeError>(DecodeError::TruncatedInput) by {
        lemma_i32_round_trip(s[i], Seq::empty());
    }
    lemma_seq_prefix(s, |x: i32| enc_i32(x), |b: Seq<u8>| parse_i32(b), k);
}

proof fn lemma_vec_i64_prefix(s: Seq<i64>, k: int)
    requires
        s.len() <= u32::MAX,
        0 <= k < enc_vec_i64(s).len(),
    ensures
        parse_vec_i64(enc_vec_i64(s).take(k)) == Err::<(Seq<i64>, nat), DecodeError>(
            DecodeError::TruncatedInput,
        ),
{
    assert forall|i: int, r: Seq<u8>| 0 <= i < s.len() implies #[trigger] parse_i64(
        enc_i64(s[i]) + r,
    ) == Ok::<(i64, nat), DecodeError>((s[i], enc_i64(s[i]).len())) by {
        lemma_i64_round_trip(s[i], r);
    }
    assert forall|i: int, j: int| 0 <= i < s.len() && 0 <= j < enc_i64(s[i]).len() implies #[trigger] parse_i64(
        enc_i64(s[i]).take(j),
    ) == Err::<(i64, nat), DecodeError>(DecodeError::TruncatedInput) by {
        lemma_i64_round_trip(s[i], Seq::empty());
    }
    lemma_seq_prefix(s, |x: i64| enc_i64(x), |b: Seq<u8>| parse_i64(b), k);
}

proof fn lemma_vec_str_prefix(s: Seq<Seq<char>>, k: int)
    requires
        s.len() <= u32::MAX,
        forall|i: int| 0 <= i < s.len() ==> encode_utf8(#[trigger] s[i]).len() <= u32::MAX,
        0 <= k < enc_vec_str(s).len(),
    ensures
        parse_vec_str(enc_vec_str(s).take(k)) == Err::<(Seq<Seq<char>>, nat), DecodeError>(
            DecodeError::TruncatedInput,
        ),
{
    assert forall|i: int, r: Seq<u8>| 0 <= i < s.len() implies #[trigger] parse_str(
        enc_str(s[i]) + r,
    ) == Ok::<(Seq<char>, nat), DecodeError>((s[i], enc_str(s[i]).len())) by {
        lemma_str_round_trip(s[i], r);
    }
    assert forall|i: int, j: int| 0 <= i < s.len() && 0 <= j < enc_str(s[i]).len() implies #[trigger] parse_str(
        enc_str(s[i]).take(j),
    ) == Err::<(Seq<char>, nat), DecodeError>(DecodeError::TruncatedInput) by {
        lemma_str_prefix(s[i], j);
    }
    lemma_seq_prefix(s, |x: Seq<char>| enc_str(x), |b: Seq<u8>| parse_str(b), k);
}

/// Reading a fixed-width kind from fewer bytes than its width fails with
/// `TruncatedInput`, whatever those bytes are.
pub proof fn lemma_truncated_fixed(v: WireValue, b: Seq<u8>)
    requires
        is_primitive(v),
        b.len() < encode_value(v).len(),
    ensures
        parse_like(v, b) == Err::<(WireValue, nat), DecodeError>(DecodeError::TruncatedInput),
{
    match v {
        WireValue::U16(x) => lemma_u16_round_trip(x, Seq::empty()),
        WireValue::U32(x) => lemma_u32_round_trip(x, Seq::empty()),
        WireValue::U64(x) => lemma_u64_round_trip(x, Seq::empty()),
        WireValue::I16(x) => lemma_i16_round_trip(x, Seq::empty()),
        WireValue::I32(x) => lemma_i32_round_trip(x, Seq::empty()),
        WireValue::I64(x) => lemma_i64_round_trip(x, Seq::empty()),
        _ => {},
    }
}

/// Truncation: reading a value from bytes that stop anywhere before the end
/// of its encoding fails with `TruncatedInput`, for every kind. (The reader's
/// contracts add that such a failed read leaves the cursor where it was.)
pub proof fn lemma_truncated_prefix(v: WireValue, k: int)
    requires
        encodable(v),
        0 <= k < encode_value(v).len(),
    ensures
        parse_like(v, encode_value(v).take(k)) == Err::<(WireValue, nat), DecodeError>(
            DecodeError::TruncatedInput,
        ),
{
    match v {
        WireValue::Text(x) => lemma_str_prefix(x, k),
        WireValue::VecU8(x) => lemma_vec_u8_prefix(x, k),
        WireValue::VecU16(x) => lemma_vec_u16_prefix(x, k),
        WireValue::VecU32(x) => lemma_vec_u32_prefix(x, k),
        WireValue::VecU64(x) => lemma_vec_u64_prefix(x, k),
        WireValue::VecI8(x) => lemma_vec_i8_prefix(x, k),
        WireValue::VecI16(x) => lemma_vec_i16_prefix(x, k),
        WireValue::VecI32(x) => lemma_vec_i32_prefix(x, k),
        WireValue::VecI64(x) => lemma_vec_i64_prefix(x, k),
        WireValue::VecText(x) => lemma_vec_str_prefix(x, k),
        _ => lemma_truncated_fixed(v, encode_value(v).take(k)),
    }
}

proof fn lemma_concat_map_append<T>(a: Seq<T>, b: Seq<T>, f: spec_fn(T) -> Seq<u8>)
    ensures
        concat_map(a + b, f) == concat_map(a, f) + concat_map(b, f),
    decreases b.len(),
{
    if b.len() == 0 {
        assert(a + b =~= a);
        assert(concat_map(a, f) + concat_map(b, f) =~= concat_map(a, f));
    } else {
        lemma_concat_map_append(a, b.drop_last(), f);
        assert((a + b).drop_last() =~= a + b.drop_last());
        assert(concat_map(a + b, f) =~= concat_map(a, f) + concat_map(b, f));
    }
}

/// Sequential reads: when values are written one after another and read back
/// in the same order with the same kinds, the `i`-th read starts where the
/// encodings of the values before it end, gives the `i`-th value, and leaves
/// the cursor at the end of the encodings of the first `i + 1` values.
pub proof fn lemma_sequential_reads(vs: Seq<WireValue>, i: int)
    requires
        0 <= i < vs.len(),
        forall|j: int| 0 <= j < vs.len() ==> encodable(#[trigger] vs[j]),
    ensures
        parse_like(vs[i], encode_all(vs).skip(encode_all(vs.take(i)).len() as int)) == Ok::<
            (WireValue, nat),
            DecodeError,
        >((vs[i], encode_value(vs[i]).len())),
        encode_all(vs.take(i + 1)).len() == encode_all(vs.take(i)).len() + encode_value(
            vs[i],
        ).len(),
{
    let f = |v: WireValue| encode_value(v);
    let before = encode_all(vs.take(i));
    let after = encode_all(vs.skip(i + 1));
    assert(vs.take(i + 1).drop_last() =~= vs.take(i));
    assert(encode_all(vs.take(i + 1)) == before + encode_value(vs[i]));
    lemma_concat_map_append(vs.take(i + 1), vs.skip(i + 1), f);
    assert(vs.take(i + 1) + vs.skip(i + 1) =~= vs);
    assert(encode_all(vs).skip(before.len() as int) =~= encode_value(vs[i]) + after);
    lemma_round_trip(vs[i], after);
}

} // verus!
