//! The writer: appends values to a growing byte buffer in the wire format.
use vstd::prelude::*;
use crate::wire::{
    concat_map, enc_bool, enc_i16, enc_i32, enc_i64, enc_i8, enc_str, enc_u16, enc_u32, enc_u64,
    enc_u8, enc_vec_i16, enc_vec_i32, enc_vec_i64, enc_vec_i8, enc_vec_str, enc_vec_u16,
    enc_vec_u32, enc_vec_u64, enc_vec_u8, le_bytes, texts,
};

verus! {

/// Appends the `n` low-order bytes of `v` to `data`, least significant first.
fn push_le(data: &mut Vec<u8>, v: u64, n: usize)
    ensures
        final(data)@ == old(data)@ + le_bytes(v as nat, n as nat),
{
    let mut x: u64 = v;
    let mut i: usize = 0;
    while i < n
        invariant
            i <= n,
            data@ + le_bytes(x as nat, (n - i) as nat) == old(data)@ + le_bytes(v as nat, n as nat),
        decreases n - i,
    {
        let ghost before = data@;
        let ghost k = (n - i) as nat;
        data.push((x % 256) as u8);
        proof {
            assert(data@ + le_bytes((x / 256) as nat, (k - 1) as nat) =~= before + le_bytes(
                x as nat,
                k,
            ));
        }
        x = x / 256;
        i = i + 1;
    }
    assert(data@ + le_bytes(x as nat, 0) =~= data@);
}

/// Appends the bytes of `b` to `data`, in order.
fn push_bytes(data: &mut Vec<u8>, b: &[u8])
    ensures
        final(data)@ == old(data)@ + b@,
{
    let mut i: usize = 0;
    while i < b.len()
        invariant
            i <= b@.len(),
            data@ == old(data)@ + b@.take(i as int),
        decreases b@.len() - i,
    {
        data.push(b[i]);
        assert(b@.take(i + 1) =~= b@.take(i as int).push(b@[i as int]));
        i = i + 1;
    }
    assert(b@.take(b@.len() as int) =~= b@);
}

/// Serializes values into a byte buffer.
pub struct BinaryWriter {
    data: Vec<u8>,
}

impl View for BinaryWriter {
    type V = Seq<u8>;

    /// The bytes written so far.
    closed spec fn view(&self) -> Seq<u8> {
        self.data@
    }
}

impl BinaryWriter {
    /// Creates a writer with an empty buffer.
    pub fn new() -> (w: Self)
        ensures
            w@ == Seq::<u8>::empty(),
    {
        BinaryWriter { data: Vec::new() }
    }

    /// Ends the writing and hands over the bytes written.
    pub fn get_data(self) -> (r: Vec<u8>)
        ensures
            r@ == self@,
    {
        self.data
    }

    /// Writes a `u8` as a single byte.
    pub fn write_u8(&mut self, value: u8)
        ensures
            final(self)@ == old(self)@ + enc_u8(value),
    {
        self.data.push(value);
        assert(self.data@ =~= old(self)@ + enc_u8(value));
    }

    /// Writes a `u16` in little-endian order.
    pub fn write_u16(&mut self, value: u16)
        ensures
            final(self)@ == old(self)@ + enc_u16(value),
    {
        push_le(&mut self.data, value as u64, 2);
    }

    /// Writes a `u32` in little-endian order.
    pub fn write_u32(&mut self, value: u32)
        ensures
            final(self)@ == old(self)@ + enc_u32(value),
    {
        push_le(&mut self.data, value as u64, 4);
    }

    /// Writes a `u64` in little-endian order.
    pub fn write_u64(&mut self, value: u64)
        ensures
            final(self)@ == old(self)@ + enc_u64(value),
    {
        push_le(&mut self.data, value, 8);
    }

    /// Writes an `i8` as its two's-complement byte.
    pub fn write_i8(&mut self, value: i8)
        ensures
            final(self)@ == old(self)@ + enc_i8(value),
    {
        self.data.push(value as u8);
        assert(self.data@ =~= old(self)@ + enc_i8(value));
    }

    /// Writes an `i16` in little-endian two's complement.
    pub fn write_i16(&mut self, value: i16)
        ensures
            final(self)@ == old(self)@ + enc_i16(value),
    {
        self.write_u16(value as u16);
    }

    /// Writes an `i32` in little-endian two's complement.
    pub fn write_i32(&mut self, value: i32)
        ensures
            final(self)@ == old(self)@ + enc_i32(value),
    {
        self.write_u32(value as u32);
    }

    /// Writes an `i64` in little-endian two's complement.
    pub fn write_i64(&mut self, value: i64)
        ensures
            final(self)@ == old(self)@ + enc_i64(value),
    {
        self.write_u64(value as u64);
    }

    /// Writes a `bool` as one byte: `1` for true, `0` for false.
    pub fn write_bool(&mut self, value: bool)
        ensures
            final(self)@ == old(self)@ + enc_bool(value),
    {
        self.data.push(if value { 1 } else { 0 });
        assert(self.data@ =~= old(self)@ + enc_bool(value));
    }

    /// Writes text: its UTF-8 byte count as a `u32`, then its UTF-8 bytes.
    /// A byte count above `u32::MAX` is written truncated to 32 bits.
    pub fn write_string(&mut self, value: &str)
        ensures
            final(self)@ == old(self)@ + enc_str(value@),
    {
        let bytes = value.as_bytes();
        self.write_u32(bytes.len() as u32);
        push_bytes(&mut self.data, bytes);
        assert(self@ =~= old(self)@ + enc_str(value@));
    }

    /// Writes a sequence of bytes: the count as a `u32`, then each value.
    /// A count above `u32::MAX` is written truncated to 32 bits.
    pub fn write_vec_u8(&mut self, value: &[u8])
        ensures
            final(self)@ == old(self)@ + enc_vec_u8(value@),
    {
        self.write_u32(value.len() as u32);
        let ghost start = self@;
        let mut i: usize = 0;
        while i < value.len()
            invariant
                i <= value@.len(),
                self@ == start + concat_map(value@.take(i as int), |x: u8| enc_u8(x)),
            decreases value@.len() - i,
        {
            self.write_u8(value[i]);
            assert(value@.take(i + 1).drop_last() =~= value@.take(i as int));
            i = i + 1;
        }
        assert(value@.take(value@.len() as int) =~= value@);
    }

    /// Writes a sequence of `u16`: the count as a `u32`, then each value.
    /// A count above `u32::MAX` is written truncated to 32 bits.
    pub fn write_vec_u16(&mut self, value: &[u16])
        ensures
            final(self)@ == old(self)@ + enc_vec_u16(value@),
    {
        self.write_u32(value.len() as u32);
        let ghost start = self@;
        let mut i: usize = 0;
        while i < value.len()
            invariant
                i <= value@.len(),
                self@ == start + concat_map(value@.take(i as int), |x: u16| enc_u16(x)),
            decreases value@.len() - i,
        {
            self.write_u16(value[i]);
            assert(value@.take(i + 1).drop_last() =~= value@.take(i as int));
            i = i + 1;
        }
        assert(value@.take(value@.len() as int) =~= value@);
    }

    /// Writes a sequence of `u32`: the count as a `u32`, then each value.
    /// A count above `u32::MAX` is written truncated to 32 bits.
    pub fn write_vec_u32(&mut self, value: &[u32])
        ensures
            final(self)@ == old(self)@ + enc_vec_u32(value@),
    {
        self.write_u32(value.len() as u32);
        let ghost start = self@;
        let mut i: usize = 0;
        while i < value.len()
            invariant
                i <= value@.len(),
                self@ == start + concat_map(value@.take(i as int), |x: u32| enc_u32(x)),
            decreases value@.len() - i,
        {
            self.write_u32(value[i]);
            assert(value@.take(i + 1).drop_last() =~= value@.take(i as int));
            i = i + 1;
        }
        assert(value@.take(value@.len() as int) =~= value@);
    }

    /// Writes a sequence of `u64`: the count as a `u32`, then each value.
    /// A count above `u32::MAX` is written truncated to 32 bits.
    pub fn write_vec_u64(&mut self, value: &[u64])
        ensures
            final(self)@ == old(self)@ + enc_vec_u64(value@),
    {
        self.write_u32(value.len() as u32);
        let ghost start = self@;
        let mut i: usize = 0;
        while i < value.len()
            invariant
                i <= value@.len(),
                self@ == start + concat_map(value@.take(i as int), |x: u64| enc_u64(x)),
            decreases value@.len() - i,
        {
            self.write_u64(value[i]);
            assert(value@.take(i + 1).drop_last() =~= value@.take(i as int));
            i = i + 1;
        }
        assert(value@.take(value@.len() as int) =~= value@);
    }

    /// Writes a sequence of `i8`: the count as a `u32`, then each value.
    /// A count above `u32::MAX` is written truncated to 32 bits.
    pub fn write_vec_i8(&mut self, value: &[i8])
        ensures
            final(self)@ == old(self)@ + enc_vec_i8(value@),
    {
        self.write_u32(value.len() as u32);
        let ghost start = self@;
        let mut i: usize = 0;
        while i < value.len()
            invariant
                i <= value@.len(),
                self@ == start + concat_map(value@.take(i as int), |x: i8| enc_i8(x)),
            decreases value@.len() - i,
        {
            self.write_i8(value[i]);
            assert(value@.take(i + 1).drop_last() =~= value@.take(i as int));
            i = i + 1;
        }
        assert(value@.take(value@.len() as int) =~= value@);
    }

    /// Writes a sequence of `i16`: the count as a `u32`, then each value.
    /// A count above `u32::MAX` is written truncated to 32 bits.
    pub fn write_vec_i16(&mut self, value: &[i16])
        ensures
            final(self)@ == old(self)@ + enc_vec_i16(value@),
    {
        self.write_u32(value.len() as u32);
        let ghost start = self@;
        let mut i: usize = 0;
        while i < value.len()
            invariant
                i <= value@.len(),
                self@ == start + concat_map(value@.take(i as int), |x: i16| enc_i16(x)),
            decreases value@.len() - i,
        {
            self.write_i16(value[i]);
            assert(value@.take(i + 1).drop_last() =~= value@.take(i as int));
            i = i + 1;
        }
        assert(value@.take(value@.len() as int) =~= value@);
    }

    /// Writes a sequence of `i32`: the count as a `u32`, then each value.
    /// A count above `u32::MAX` is written truncated to 32 bits.
    pub fn write_vec_i32(&mut self, value: &[i32])
        ensures
            final(self)@ == old(self)@ + enc_vec_i32(value@),
    {
        self.write_u32(value.len() as u32);
        let ghost start = self@;
        let mut i: usize = 0;
        while i < value.len()
            invariant
                i <= value@.len(),
                self@ == start + concat_map(value@.take(i as int), |x: i32| enc_i32(x)),
            decreases value@.len() - i,
        {
            self.write_i32(value[i]);
            assert(value@.take(i + 1).drop_last() =~= value@.take(i as int));
            i = i + 1;
        }
        assert(value@.take(value@.len() as int) =~= value@);
    }

    /// Writes a sequence of `i64`: the count as a `u32`, then each value.
    /// A count above `u32::MAX` is written truncated to 32 bits.
    pub fn write_vec_i64(&mut self, value: &[i64])
        ensures
            final(self)@ == old(self)@ + enc_vec_i64(value@),
    {
        self.write_u32(value.len() as u32);
        let ghost start = self@;
        let mut i: usize = 0;
        while i < value.len()
            invariant
                i <= value@.len(),
                self@ == start + concat_map(value@.take(i as int), |x: i64| enc_i64(x)),
            decreases value@.len() - i,
        {
            self.write_i64(value[i]);
            assert(value@.take(i + 1).drop_last() =~= value@.take(i as int));
            i = i + 1;
        }
        assert(value@.take(value@.len() as int) =~= value@);
    }

    /// Writes a sequence of texts: the count as a `u32`, then each text as
    /// `write_string` writes it. A count above `u32::MAX` is written truncated to 32 bits.
    pub fn write_vec_string(&mut self, value: &[String])
        ensures
            final(self)@ == old(self)@ + enc_vec_str(texts(value@)),
    {
        self.write_u32(value.len() as u32);
        let ghost start = self@;
        let mut i: usize = 0;
        while i < value.len()
            invariant
                i <= value@.len(),
                self@ == start + concat_map(texts(value@).take(i as int), |x: Seq<char>| enc_str(x)),
            decreases value@.len() - i,
        {
            self.write_string(value[i].as_str());
            assert(texts(value@).take(i + 1).drop_last() =~= texts(value@).take(i as int));
            i = i + 1;
        }
        assert(texts(value@).take(value@.len() as int) =~= texts(value@));
    }
}

} // verus!
