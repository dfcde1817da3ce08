//! The reader: decodes values from a borrowed byte slice at a cursor.
use vstd::prelude::*;
use vstd::utf8::{encode_utf8, encode_utf8_decode_utf8, encode_utf8_valid_utf8, valid_utf8};
use crate::wire::{
    le_value, lemma_le_value_bound, lemma_pow256_mono, lemma_pow256_widths, parse_bool,
    parse_elems, parse_i16, parse_i32, parse_i64, parse_i8, parse_str, parse_u16, parse_u32,
    parse_u64, parse_u8, parse_vec_i16, parse_vec_i32, parse_vec_i64, parse_vec_i8,
    parse_vec_str, parse_vec_u16, parse_vec_u32, parse_vec_u64, parse_vec_u8, texts,
    DecodeError, Parsed, lemma_elems_err,
};

verus! {

/// Relies on `std::str::from_utf8`: it accepts exactly the well-formed UTF-8
/// byte sequences, and the text it returns is made of those bytes.
#[verifier::external_body]
fn utf8_text<'b>(b: &'b [u8]) -> (r: Option<&'b str>)
    ensures
        match r {
            Some(s) => encode_utf8(s@) == b@,
            None => !valid_utf8(b@),
        },
{
    std::str::from_utf8(b).ok()
}

/// The text of a read result, in place of the `String`.
pub open spec fn text_result(r: Result<String, DecodeError>) -> Result<Seq<char>, DecodeError> {
    match r {
        Ok(s) => Ok(s@),
        Err(e) => Err(e),
    }
}

/// The items of a read result, in place of the `Vec`.
pub open spec fn seq_result<T>(r: Result<Vec<T>, DecodeError>) -> Result<Seq<T>, DecodeError> {
    match r {
        Ok(v) => Ok(v@),
        Err(e) => Err(e),
    }
}

/// The texts of a read result, in place of the `Vec<String>`.
pub open spec fn texts_result(r: Result<Vec<String>, DecodeError>) -> Result<
    Seq<Seq<char>>,
    DecodeError,
> {
    match r {
        Ok(v) => Ok(texts(v@)),
        Err(e) => Err(e),
    }
}

/// Deserializes values from a borrowed byte slice, advancing a cursor.
pub struct BinaryReader<'a> {
    data: &'a [u8],
    cursor: usize,
}

impl<'a> BinaryReader<'a> {
    /// The bytes being read.
    pub closed spec fn bytes(&self) -> Seq<u8> {
        self.data@
    }

    /// The cursor: how many bytes have been consumed.
    pub closed spec fn pos(&self) -> nat {
        self.cursor as nat
    }

    /// The cursor never passes the end of the bytes.
    pub closed spec fn wf(&self) -> bool {
        self.cursor <= self.data.len()
    }

    /// The bytes not yet consumed.
    pub open spec fn rest(&self) -> Seq<u8> {
        self.bytes().skip(self.pos() as int)
    }

    /// What every read guarantees, given what the wire format says of the
    /// unconsumed bytes: the bytes stay as they are; on success the value
    /// comes back and the cursor moves past exactly the bytes it took; on
    /// failure the error comes back and the cursor stays where it was.
    pub open spec fn step<T>(&self, after: Self, r: Result<T, DecodeError>, p: Parsed<T>) -> bool {
        &&& after.bytes() == self.bytes()
        &&& after.wf()
        &&& match p {
            Ok((v, n)) => r == Ok::<T, DecodeError>(v) && after.pos() == self.pos() + n,
            Err(e) => r == Err::<T, DecodeError>(e) && after.pos() == self.pos(),
        }
    }

    /// Creates a reader at the start of `data`.
    pub fn new(data: &'a [u8]) -> (r: Self)
        ensures
            r.wf(),
            r.bytes() == data@,
            r.pos() == 0,
    {
        BinaryReader { data, cursor: 0 }
    }

    /// Checks that at least `size` bytes remain.
    fn ensure_available(&self, size: usize) -> (r: Result<(), DecodeError>)
        requires
            self.wf(),
        ensures
            r is Ok <==> self.pos() + size <= self.bytes().len(),
            self.bytes().len() <= usize::MAX,
            r is Err ==> r == Err::<(), DecodeError>(DecodeError::TruncatedInput),
    {
        if size > self.data.len() - self.cursor {
            Err(DecodeError::TruncatedInput)
        } else {
            Ok(())
        }
    }

    /// The number that the next `n` bytes stand for, little-endian; the cursor stays.
    fn le_at(&self, n: usize) -> (v: u64)
        requires
            self.wf(),
            n <= 8,
            self.pos() + n <= self.bytes().len(),
        ensures
            v as nat == le_value(self.rest().take(n as int)),
    {
        let ghost s = self.rest().take(n as int);
        let mut acc: u64 = 0;
        let mut k: usize = n;
        while k > 0
            invariant
                self.wf(),
                k <= n <= 8,
                self.pos() + n <= self.bytes().len(),
                s == self.rest().take(n as int),
                acc as nat == le_value(s.subrange(k as int, n as int)),
            decreases k,
        {
            proof {
                let t = s.subrange(k as int, n as int);
                lemma_le_value_bound(t);
                lemma_pow256_mono((n - k) as nat, 7);
                lemma_pow256_widths();
                assert(s.subrange(k - 1, n as int).drop_first() =~= t);
            }
            k = k - 1;
            acc = acc * 256 + self.data[self.cursor + k] as u64;
        }
        assert(s.subrange(0, n as int) =~= s);
        acc
    }

    /// Reads a `u8`.
    pub fn read_u8(&mut self) -> (r: Result<u8, DecodeError>)
        requires
            old(self).wf(),
        ensures
            old(self).step(*final(self), r, parse_u8(old(self).rest())),
    {
        match self.ensure_available(1) {
            Err(e) => return Err(e),
            Ok(_) => {},
        }
        let value = self.data[self.cursor];
        self.cursor = self.cursor + 1;
        Ok(value)
    }

    /// Reads a `u16` in little-endian order.
    pub fn read_u16(&mut self) -> (r: Result<u16, DecodeError>)
        requires
            old(self).wf(),
        ensures
            old(self).step(*final(self), r, parse_u16(old(self).rest())),
    {
        match self.ensure_available(2) {
            Err(e) => return Err(e),
            Ok(_) => {},
        }
        let v = self.le_at(2);
        proof {
            lemma_le_value_bound(old(self).rest().take(2));
            lemma_pow256_widths();
        }
        self.cursor = self.cursor + 2;
        Ok(v as u16)
    }

    /// Reads a `u32` in little-endian order.
    pub fn read_u32(&mut self) -> (r: Result<u32, DecodeError>)
        requires
            old(self).wf(),
        ensures
            old(self).step(*final(self), r, parse_u32(old(self).rest())),
    {
        match self.ensure_available(4) {
            Err(e) => return Err(e),
            Ok(_) => {},
        }
        let v = self.le_at(4);
        proof {
            lemma_le_value_bound(old(self).rest().take(4));
            lemma_pow256_widths();
        }
        self.cursor = self.cursor + 4;
        Ok(v as u32)
    }

    /// Reads a `u64` in little-endian order.
    pub fn read_u64(&mut self) -> (r: Result<u64, DecodeError>)
        requires
            old(self).wf(),
        ensures
            old(self).step(*final(self), r, parse_u64(old(self).rest())),
    {
        match self.ensure_available(8) {
            Err(e) => return Err(e),
            Ok(_) => {},
        }
        let v = self.le_at(8);
        proof {
            lemma_le_value_bound(old(self).rest().take(8));
            lemma_pow256_widths();
        }
        self.cursor = self.cursor + 8;
        Ok(v as u64)
    }

    /// Reads an `i8`: the bits of a `u8`, as two's complement.
    pub fn read_i8(&mut self) -> (r: Result<i8, DecodeError>)
        requires
            old(self).wf(),
        ensures
            old(self).step(*final(self), r, parse_i8(old(self).rest())),
    {
        match self.read_u8() {
            Ok(v) => Ok(v as i8),
            Err(e) => Err(e),
        }
    }

    /// Reads an `i16`: the bits of a `u16`, as two's complement.
    pub fn read_i16(&mut self) -> (r: Result<i16, DecodeError>)
        requires
            old(self).wf(),
        ensures
            old(self).step(*final(self), r, parse_i16(old(self).rest())),
    {
        match self.read_u16() {
            Ok(v) => Ok(v as i16),
            Err(e) => Err(e),
        }
    }

    /// Reads an `i32`: the bits of a `u32`, as two's complement.
    pub fn read_i32(&mut self) -> (r: Result<i32, DecodeError>)
        requires
            old(self).wf(),
        ensures
            old(self).step(*final(self), r, parse_i32(old(self).rest())),
    {
        match self.read_u32() {
            Ok(v) => Ok(v as i32),
            Err(e) => Err(e),
        }
    }

    /// Reads an `i64`: the bits of a `u64`, as two's complement.
    pub fn read_i64(&mut self) -> (r: Result<i64, DecodeError>)
        requires
            old(self).wf(),
        ensures
            old(self).step(*final(self), r, parse_i64(old(self).rest())),
    {
        match self.read_u64() {
            Ok(v) => Ok(v as i64),
            Err(e) => Err(e),
        }
    }

    /// Reads a `bool`: the byte `0` is false, `1` is true, any other byte is
    /// an `InvalidBooleanEncoding` error.
    pub fn read_bool(&mut self) -> (r: Result<bool, DecodeError>)
        requires
            old(self).wf(),
        ensures
            old(self).step(*final(self), r, parse_bool(old(self).rest())),
    {
        let start = self.cursor;
        match self.read_u8() {
            Ok(0) => Ok(false),
            Ok(1) => Ok(true),
            Ok(_) => {
                self.cursor = start;
                Err(DecodeError::InvalidBooleanEncoding)
            },
            Err(e) => Err(e),
        }
    }

    /// Reads text: a `u32` byte count, then that many bytes of UTF-8.
    /// Bytes that are not well-formed UTF-8 give `InvalidTextEncoding`; like
    /// every failed read, this leaves the cursor where it was.
    pub fn read_string(&mut self) -> (r: Result<String, DecodeError>)
        requires
            old(self).wf(),
        ensures
            old(self).step(*final(self), text_result(r), parse_str(old(self).rest())),
    {
        let start = self.cursor;
        let length = match self.read_u32() {
            Ok(n) => n as usize,
            Err(e) => return Err(e),
        };
        match self.ensure_available(length) {
            Err(e) => {
                self.cursor = start;
                return Err(e);
            },
            Ok(_) => {},
        }
        let payload = &self.data[self.cursor..self.cursor + length];
        proof {
            assert(payload@ =~= old(self).rest().subrange(4, 4 + length));
        }
        match utf8_text(payload) {
            Some(s) => {
                proof {
                    encode_utf8_valid_utf8(s@);
                    encode_utf8_decode_utf8(s@);
                }
                self.cursor = self.cursor + length;
                Ok(s.to_owned())
            },
            None => {
                self.cursor = start;
                Err(DecodeError::InvalidTextEncoding)
            },
        }
    }

    /// Reads a sequence of bytes: a `u32` count, then that many values, each as
    /// `read_u8` reads it. u8he first value that cannot be read fails the whole
    /// read, and the cursor goes back to where it was.
    pub fn read_vec_u8(&mut self) -> (r: Result<Vec<u8>, DecodeError>)
        requires
            old(self).wf(),
        ensures
            old(self).step(*final(self), seq_result(r), parse_vec_u8(old(self).rest())),
    {
        let start = self.cursor;
        let ghost b = old(self).rest();
        let count = match self.read_u32() {
            Ok(n) => n,
            Err(e) => return Err(e),
        };
        let mut out: Vec<u8> = Vec::new();
        let mut i: u32 = 0;
        while i < count
            invariant
                self.wf(),
                self.bytes() == old(self).bytes(),
                start == old(self).pos(),
                b == old(self).rest(),
                parse_u32(b) == Ok::<(u32, nat), DecodeError>((count, 4)),
                self.pos() >= start + 4,
                i <= count,
                parse_elems(b.skip(4), i as nat, |x: Seq<u8>| parse_u8(x)) == Ok::<
                    (Seq<u8>, nat),
                    DecodeError,
                >((out@, (self.pos() - start - 4) as nat)),
            decreases count - i,
        {
            proof {
                assert(self.rest() =~= b.skip(4).skip(self.pos() - start - 4));
            }
            match self.read_u8() {
                Ok(v) => out.push(v),
                Err(e) => {
                    proof {
                        lemma_elems_err(b.skip(4), (i + 1) as nat, count as nat, |x: Seq<u8>| parse_u8(x));
                    }
                    self.cursor = start;
                    return Err(e);
                },
            }
            i = i + 1;
        }
        Ok(out)
    }

    /// Reads a sequence of `u16`: a `u32` count, then that many values, each as
    /// `read_u16` reads it. u16he first value that cannot be read fails the whole
    /// read, and the cursor goes back to where it was.
    pub fn read_vec_u16(&mut self) -> (r: Result<Vec<u16>, DecodeError>)
        requires
            old(self).wf(),
        ensures
            old(self).step(*final(self), seq_result(r), parse_vec_u16(old(self).rest())),
    {
        let start = self.cursor;
        let ghost b = old(self).rest();
        let count = match self.read_u32() {
            Ok(n) => n,
            Err(e) => return Err(e),
        };
        let mut out: Vec<u16> = Vec::new();
        let mut i: u32 = 0;
        while i < count
            invariant
                self.wf(),
                self.bytes() == old(self).bytes(),
                start == old(self).pos(),
                b == old(self).rest(),
                parse_u32(b) == Ok::<(u32, nat), DecodeError>((count, 4)),
                self.pos() >= start + 4,
                i <= count,
                parse_elems(b.skip(4), i as nat, |x: Seq<u8>| parse_u16(x)) == Ok::<
                    (Seq<u16>, nat),
                    DecodeError,
                >((out@, (self.pos() - start - 4) as nat)),
            decreases count - i,
        {
            proof {
                assert(self.rest() =~= b.skip(4).skip(self.pos() - start - 4));
            }
            match self.read_u16() {
                Ok(v) => out.push(v),
                Err(e) => {
                    proof {
                        lemma_elems_err(b.skip(4), (i + 1) as nat, count as nat, |x: Seq<u8>| parse_u16(x));
                    }
                    self.cursor = start;
                    return Err(e);
                },
            }
            i = i + 1;
        }
        Ok(out)
    }

    /// Reads a sequence of `u32`: a `u32` count, then that many values, each as
    /// `read_u32` reads it. u32he first value that cannot be read fails the whole
    /// read, and the cursor goes back to where it was.
    pub fn read_vec_u32(&mut self) -> (r: Result<Vec<u32>, DecodeError>)
        requires
            old(self).wf(),
        ensures
            old(self).step(*final(self), seq_result(r), parse_vec_u32(old(self).rest())),
    {
        let start = self.cursor;
        let ghost b = old(self).rest();
        let count = match self.read_u32() {
            Ok(n) => n,
            Err(e) => return Err(e),
        };
        let mut out: Vec<u32> = Vec::new();
        let mut i: u32 = 0;
        while i < count
            invariant
                self.wf(),
                self.bytes() == old(self).bytes(),
                start == old(self).pos(),
                b == old(self).rest(),
                parse_u32(b) == Ok::<(u32, nat), DecodeError>((count, 4)),
                self.pos() >= start + 4,
                i <= count,
                parse_elems(b.skip(4), i as nat, |x: Seq<u8>| parse_u32(x)) == Ok::<
                    (Seq<u32>, nat),
                    DecodeError,
                >((out@, (self.pos() - start - 4) as nat)),
            decreases count - i,
        {
            proof {
                assert(self.rest() =~= b.skip(4).skip(self.pos() - start - 4));
            }
            match self.read_u32() {
                Ok(v) => out.push(v),
                Err(e) => {
                    proof {
                        lemma_elems_err(b.skip(4), (i + 1) as nat, count as nat, |x: Seq<u8>| parse_u32(x));
                    }
                    self.cursor = start;
                    return Err(e);
                },
            }
            i = i + 1;
        }
        Ok(out)
    }

    /// Reads a sequence of `u64`: a `u32` count, then that many values, each as
    /// `read_u64` reads it. u64he first value that cannot be read fails the whole
    /// read, and the cursor goes back to where it was.
    pub fn read_vec_u64(&mut self) -> (r: Result<Vec<u64>, DecodeError>)
        requires
            old(self).wf(),
        ensures
            old(self).step(*final(self), seq_result(r), parse_vec_u64(old(self).rest())),
    {
        let start = self.cursor;
        let ghost b = old(self).rest();
        let count = match self.read_u32() {
            Ok(n) => n,
            Err(e) => return Err(e),
        };
        let mut out: Vec<u64> = Vec::new();
        let mut i: u32 = 0;
        while i < count
            invariant
                self.wf(),
                self.bytes() == old(self).bytes(),
                start == old(self).pos(),
                b == old(self).rest(),
                parse_u32(b) == Ok::<(u32, nat), DecodeError>((count, 4)),
                self.pos() >= start + 4,
                i <= count,
                parse_elems(b.skip(4), i as nat, |x: Seq<u8>| parse_u64(x)) == Ok::<
                    (Seq<u64>, nat),
                    DecodeError,
                >((out@, (self.pos() - start - 4) as nat)),
            decreases count - i,
        {
            proof {
                assert(self.rest() =~= b.skip(4).skip(self.pos() - start - 4));
            }
            match self.read_u64() {
                Ok(v) => out.push(v),
                Err(e) => {
                    proof {
                        lemma_elems_err(b.skip(4), (i + 1) as nat, count as nat, |x: Seq<u8>| parse_u64(x));
                    }
                    self.cursor = start;
                    return Err(e);
                },
            }
            i = i + 1;
        }
        Ok(out)
    }

    /// Reads a sequence of `i8`: a `u32` count, then that many values, each as
    /// `read_i8` reads it. i8he first value that cannot be read fails the whole
    /// read, and the cursor goes back to where it was.
    pub fn read_vec_i8(&mut self) -> (r: Result<Vec<i8>, DecodeError>)
        requires
            old(self).wf(),
        ensures
            old(self).step(*final(self), seq_result(r), parse_vec_i8(old(self).rest())),
    {
        let start = self.cursor;
        let ghost b = old(self).rest();
        let count = match self.read_u32() {
            Ok(n) => n,
            Err(e) => return Err(e),
        };
        let mut out: Vec<i8> = Vec::new();
        let mut i: u32 = 0;
        while i < count
            invariant
                self.wf(),
                self.bytes() == old(self).bytes(),
                start == old(self).pos(),
                b == old(self).rest(),
                parse_u32(b) == Ok::<(u32, nat), DecodeError>((count, 4)),
                self.pos() >= start + 4,
                i <= count,
                parse_elems(b.skip(4), i as nat, |x: Seq<u8>| parse_i8(x)) == Ok::<
                    (Seq<i8>, nat),
                    DecodeError,
                >((out@, (self.pos() - start - 4) as nat)),
            decreases count - i,
        {
            proof {
                assert(self.rest() =~= b.skip(4).skip(self.pos() - start - 4));
            }
            match self.read_i8() {
                Ok(v) => out.push(v),
                Err(e) => {
                    proof {
                        lemma_elems_err(b.skip(4), (i + 1) as nat, count as nat, |x: Seq<u8>| parse_i8(x));
                    }
                    self.cursor = start;
                    return Err(e);
                },
            }
            i = i + 1;
        }
        Ok(out)
    }

    /// Reads a sequence of `i16`: a `u32` count, then that many values, each as
    /// `read_i16` reads it. i16he first value that cannot be read fails the whole
    /// read, and the cursor goes back to where it was.
    pub fn read_vec_i16(&mut self) -> (r: Result<Vec<i16>, DecodeError>)
        requires
            old(self).wf(),
        ensures
            old(self).step(*final(self), seq_result(r), parse_vec_i16(old(self).rest())),
    {
        let start = self.cursor;
        let ghost b = old(self).rest();
        let count = match self.read_u32() {
            Ok(n) => n,
            Err(e) => return Err(e),
        };
        let mut out: Vec<i16> = Vec::new();
        let mut i: u32 = 0;
        while i < count
            invariant
                self.wf(),
                self.bytes() == old(self).bytes(),
                start == old(self).pos(),
                b == old(self).rest(),
                parse_u32(b) == Ok::<(u32, nat), DecodeError>((count, 4)),
                self.pos() >= start + 4,
                i <= count,
                parse_elems(b.skip(4), i as nat, |x: Seq<u8>| parse_i16(x)) == Ok::<
                    (Seq<i16>, nat),
                    DecodeError,
                >((out@, (self.pos() - start - 4) as nat)),
            decreases count - i,
        {
            proof {
                assert(self.rest() =~= b.skip(4).skip(self.pos() - start - 4));
            }
            match self.read_i16() {
                Ok(v) => out.push(v),
                Err(e) => {
                    proof {
                        lemma_elems_err(b.skip(4), (i + 1) as nat, count as nat, |x: Seq<u8>| parse_i16(x));
                    }
                    self.cursor = start;
                    return Err(e);
                },
            }
            i = i + 1;
        }
        Ok(out)
    }

    /// Reads a sequence of `i32`: a `u32` count, then that many values, each as
    /// `read_i32` reads it. i32he first value that cannot be read fails the whole
    /// read, and the cursor goes back to where it was.
    pub fn read_vec_i32(&mut self) -> (r: Result<Vec<i32>, DecodeError>)
        requires
            old(self).wf(),
        ensures
            old(self).step(*final(self), seq_result(r), parse_vec_i32(old(self).rest())),
    {
        let start = self.cursor;
        let ghost b = old(self).rest();
        let count = match self.read_u32() {
            Ok(n) => n,
            Err(e) => return Err(e),
        };
        let mut out: Vec<i32> = Vec::new();
        let mut i: u32 = 0;
        while i < count
            invariant
                self.wf(),
                self.bytes() == old(self).bytes(),
                start == old(self).pos(),
                b == old(self).rest(),
                parse_u32(b) == Ok::<(u32, nat), DecodeError>((count, 4)),
                self.pos() >= start + 4,
                i <= count,
                parse_elems(b.skip(4), i as nat, |x: Seq<u8>| parse_i32(x)) == Ok::<
                    (Seq<i32>, nat),
                    DecodeError,
                >((out@, (self.pos() - start - 4) as nat)),
            decreases count - i,
        {
            proof {
                assert(self.rest() =~= b.skip(4).skip(self.pos() - start - 4));
            }
            match self.read_i32() {
                Ok(v) => out.push(v),
                Err(e) => {
                    proof {
                        lemma_elems_err(b.skip(4), (i + 1) as nat, count as nat, |x: Seq<u8>| parse_i32(x));
                    }
                    self.cursor = start;
                    return Err(e);
                },
            }
            i = i + 1;
        }
        Ok(out)
    }

    /// Reads a sequence of `i64`: a `u32` count, then that many values, each as
    /// `read_i64` reads it. i64he first value that cannot be read fails the whole
    /// read, and the cursor goes back to where it was.
    pub fn read_vec_i64(&mut self) -> (r: Result<Vec<i64>, DecodeError>)
        requires
            old(self).wf(),
        ensures
            old(self).step(*final(self), seq_result(r), parse_vec_i64(old(self).rest())),
    {
        let start = self.cursor;
        let ghost b = old(self).rest();
        let count = match self.read_u32() {
            Ok(n) => n,
            Err(e) => return Err(e),
        };
        let mut out: Vec<i64> = Vec::new();
        let mut i: u32 = 0;
        while i < count
            invariant
                self.wf(),
                self.bytes() == old(self).bytes(),
                start == old(self).pos(),
                b == old(self).rest(),
                parse_u32(b) == Ok::<(u32, nat), DecodeError>((count, 4)),
                self.pos() >= start + 4,
                i <= count,
                parse_elems(b.skip(4), i as nat, |x: Seq<u8>| parse_i64(x)) == Ok::<
                    (Seq<i64>, nat),
                    DecodeError,
                >((out@, (self.pos() - start - 4) as nat)),
            decreases count - i,
        {
            proof {
                assert(self.rest() =~= b.skip(4).skip(self.pos() - start - 4));
            }
            match self.read_i64() {
                Ok(v) => out.push(v),
                Err(e) => {
                    proof {
                        lemma_elems_err(b.skip(4), (i + 1) as nat, count as nat, |x: Seq<u8>| parse_i64(x));
                    }
                    self.cursor = start;
                    return Err(e);
                },
            }
            i = i + 1;
        }
        Ok(out)
    }

    /// Reads a sequence of texts: a `u32` count, then that many values, each as
    /// `read_string` reads it. The first value that cannot be read fails the whole
    /// read, and the cursor goes back to where it was.
    pub fn read_vec_string(&mut self) -> (r: Result<Vec<String>, DecodeError>)
        requires
            old(self).wf(),
        ensures
            old(self).step(*final(self), texts_result(r), parse_vec_str(old(self).rest())),
    {
        let start = self.cursor;
        let ghost b = old(self).rest();
        let count = match self.read_u32() {
            Ok(n) => n,
            Err(e) => return Err(e),
        };
        let mut out: Vec<String> = Vec::new();
        assert(texts(out@) =~= Seq::<Seq<char>>::empty());
        let mut i: u32 = 0;
        while i < count
            invariant
                self.wf(),
                self.bytes() == old(self).bytes(),
                start == old(self).pos(),
                b == old(self).rest(),
                parse_u32(b) == Ok::<(u32, nat), DecodeError>((count, 4)),
                self.pos() >= start + 4,
                i <= count,
                parse_elems(b.skip(4), i as nat, |x: Seq<u8>| parse_str(x)) == Ok::<
                    (Seq<Seq<char>>, nat),
                    DecodeError,
                >((texts(out@), (self.pos() - start - 4) as nat)),
            decreases count - i,
        {
            proof {
                assert(self.rest() =~= b.skip(4).skip(self.pos() - start - 4));
            }
            match self.read_string() {
                Ok(v) => {
                    let ghost prev = out@;
                    out.push(v);
                    assert(texts(out@) =~= texts(prev).push(v@));
                },
                Err(e) => {
                    proof {
                        lemma_elems_err(b.skip(4), (i + 1) as nat, count as nat, |x: Seq<u8>| parse_str(x));
                    }
                    self.cursor = start;
                    return Err(e);
                },
            }
            i = i + 1;
        }
        Ok(out)
    }
}

} // verus!
