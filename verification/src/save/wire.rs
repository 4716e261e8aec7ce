//! Little-endian primitives of the snapshot format and the cursor that
//! reads them back.
use vstd::prelude::*;
use vstd::slice::slice_subrange;
use vstd::utf8::{valid_utf8, decode_utf8, encode_utf8, encode_utf8_valid_utf8, encode_utf8_decode_utf8};
use crate::error::{DispatchError, save_error};
use crate::text::string_from_utf8;

verus! {

/// Largest snapshot, in bytes, that is written or read.
pub const MAX_SAVE_BYTES: usize = 67108864;
/// Largest number of items in one collection, and longest string.
pub const MAX_ITEMS: usize = 1000000;

/// Whether IEEE-754 single-precision bits denote a finite number: the
/// exponent field is not all ones.
pub open spec fn finite_bits(bits: u32) -> bool {
    bits & 0x7f80_0000 != 0x7f80_0000
}

pub open spec fn u16_le(v: u16) -> Seq<u8> {
    seq![v as u8, (v >> 8u16) as u8]
}

pub open spec fn u32_le(v: u32) -> Seq<u8> {
    seq![v as u8, (v >> 8u32) as u8, (v >> 16u32) as u8, (v >> 24u32) as u8]
}

pub open spec fn u64_le(v: u64) -> Seq<u8> {
    u32_le(v as u32) + u32_le((v >> 32u64) as u32)
}

pub open spec fn i32_le(v: i32) -> Seq<u8> {
    u32_le(v as u32)
}

pub open spec fn bool_le(b: bool) -> Seq<u8> {
    seq![if b { 1u8 } else { 0u8 }]
}

/// A collection count or string length.
pub open spec fn count_le(n: nat) -> Seq<u8> {
    u32_le(n as u32)
}

/// A string: its UTF-8 length, then its UTF-8 bytes.
pub open spec fn string_le(s: Seq<char>) -> Seq<u8> {
    count_le(encode_utf8(s).len()) + encode_utf8(s)
}

/// Whether a string fits the format's length limit.
pub open spec fn string_fits(s: Seq<char>) -> bool {
    encode_utf8(s).len() <= MAX_ITEMS
}

pub open spec fn le_u16(b: Seq<u8>) -> u16 {
    (b[0] as u16) | ((b[1] as u16) << 8u16)
}

pub open spec fn le_u32(b: Seq<u8>) -> u32 {
    (b[0] as u32) | ((b[1] as u32) << 8u32) | ((b[2] as u32) << 16u32) | ((b[3] as u32) << 24u32)
}

pub open spec fn le_u64(b: Seq<u8>) -> u64 {
    (le_u32(b) as u64) | ((le_u32(b.skip(4)) as u64) << 32u64)
}

/// `n` raw bytes off the front of `s`, with what follows.
pub open spec fn parse_bytes(s: Seq<u8>, n: nat) -> Option<(Seq<u8>, Seq<u8>)> {
    if n <= s.len() {
        Some((s.take(n as int), s.skip(n as int)))
    } else {
        None
    }
}

pub open spec fn parse_u8(s: Seq<u8>) -> Option<(u8, Seq<u8>)> {
    if 1 <= s.len() {
        Some((s[0], s.skip(1)))
    } else {
        None
    }
}

pub open spec fn parse_bool(s: Seq<u8>) -> Option<(bool, Seq<u8>)> {
    match parse_u8(s) {
        Some((b, rest)) => if b == 0 {
            Some((false, rest))
        } else if b == 1 {
            Some((true, rest))
        } else {
            None
        },
        None => None,
    }
}

pub open spec fn parse_u16(s: Seq<u8>) -> Option<(u16, Seq<u8>)> {
    if 2 <= s.len() {
        Some((le_u16(s), s.skip(2)))
    } else {
        None
    }
}

pub open spec fn parse_u32(s: Seq<u8>) -> Option<(u32, Seq<u8>)> {
    if 4 <= s.len() {
        Some((le_u32(s), s.skip(4)))
    } else {
        None
    }
}

pub open spec fn parse_i32(s: Seq<u8>) -> Option<(i32, Seq<u8>)> {
    if 4 <= s.len() {
        Some((le_u32(s) as i32, s.skip(4)))
    } else {
        None
    }
}

pub open spec fn parse_u64(s: Seq<u8>) -> Option<(u64, Seq<u8>)> {
    if 8 <= s.len() {
        Some((le_u64(s), s.skip(8)))
    } else {
        None
    }
}

/// Single-precision bits, refused unless finite.
pub open spec fn parse_f32(s: Seq<u8>) -> Option<(u32, Seq<u8>)> {
    match parse_u32(s) {
        Some((bits, rest)) => if finite_bits(bits) {
            Some((bits, rest))
        } else {
            None
        },
        None => None,
    }
}

/// A count, refused above `MAX_ITEMS`.
pub open spec fn parse_count(s: Seq<u8>) -> Option<(nat, Seq<u8>)> {
    match parse_u32(s) {
        Some((n, rest)) => if n <= MAX_ITEMS {
            Some((n as nat, rest))
        } else {
            None
        },
        None => None,
    }
}

/// A length-prefixed string, refused unless its bytes are UTF-8.
pub open spec fn parse_string(s: Seq<u8>) -> Option<(Seq<char>, Seq<u8>)> {
    match parse_count(s) {
        Some((n, rest)) => match parse_bytes(rest, n) {
            Some((body, after)) => if valid_utf8(body) {
                Some((decode_utf8(body), after))
            } else {
                None
            },
            None => None,
        },
        None => None,
    }
}

pub proof fn lemma_u16_roundtrip(v: u16, rest: Seq<u8>)
    ensures
        parse_u16(u16_le(v) + rest) == Some((v, rest)),
{
    let s = u16_le(v) + rest;
    let b0 = v as u8;
    let b1 = (v >> 8u16) as u8;
    assert((b0 as u16) | ((b1 as u16) << 8u16) == v) by (bit_vector)
        requires b0 == v as u8, b1 == (v >> 8u16) as u8;
    assert(s[0] == b0 && s[1] == b1);
    assert(s.skip(2) =~= rest);
}

pub proof fn lemma_u32_roundtrip(v: u32, rest: Seq<u8>)
    ensures
        parse_u32(u32_le(v) + rest) == Some((v, rest)),
        le_u32(u32_le(v) + rest) == v,
{
    let s = u32_le(v) + rest;
    let b0 = v as u8;
    let b1 = (v >> 8u32) as u8;
    let b2 = (v >> 16u32) as u8;
    let b3 = (v >> 24u32) as u8;
    assert((b0 as u32) | ((b1 as u32) << 8u32) | ((b2 as u32) << 16u32) | ((b3 as u32) << 24u32)
        == v) by (bit_vector)
        requires
            b0 == v as u8,
            b1 == (v >> 8u32) as u8,
            b2 == (v >> 16u32) as u8,
            b3 == (v >> 24u32) as u8,
    ;
    assert(s[0] == b0 && s[1] == b1 && s[2] == b2 && s[3] == b3);
    assert(s.skip(4) =~= rest);
}

pub proof fn lemma_i32_roundtrip(v: i32, rest: Seq<u8>)
    ensures
        parse_i32(i32_le(v) + rest) == Some((v, rest)),
{
    lemma_u32_roundtrip(v as u32, rest);
    let u = v as u32;
    assert(u as i32 == v) by (bit_vector)
        requires u == v as u32;
}

pub proof fn lemma_u64_roundtrip(v: u64, rest: Seq<u8>)
    ensures
        parse_u64(u64_le(v) + rest) == Some((v, rest)),
{
    let lo = v as u32;
    let hi = (v >> 32u64) as u32;
    let s = u64_le(v) + rest;
    assert(s =~= u32_le(lo) + (u32_le(hi) + rest));
    lemma_u32_roundtrip(lo, u32_le(hi) + rest);
    assert(s.skip(4) =~= u32_le(hi) + rest);
    lemma_u32_roundtrip(hi, rest);
    assert((lo as u64) | ((hi as u64) << 32u64) == v) by (bit_vector)
        requires lo == v as u32, hi == (v >> 32u64) as u32;
    assert(s.skip(8) =~= rest);
}

pub proof fn lemma_bool_roundtrip(b: bool, rest: Seq<u8>)
    ensures
        parse_bool(bool_le(b) + rest) == Some((b, rest)),
{
    assert((bool_le(b) + rest).skip(1) =~= rest);
}

pub proof fn lemma_u8_roundtrip(b: u8, rest: Seq<u8>)
    ensures
        parse_u8(seq![b] + rest) == Some((b, rest)),
{
    assert((seq![b] + rest).skip(1) =~= rest);
}

pub proof fn lemma_f32_roundtrip(bits: u32, rest: Seq<u8>)
    requires
        finite_bits(bits),
    ensures
        parse_f32(u32_le(bits) + rest) == Some((bits, rest)),
{
    lemma_u32_roundtrip(bits, rest);
}

pub proof fn lemma_count_roundtrip(n: nat, rest: Seq<u8>)
    requires
        n <= MAX_ITEMS,
    ensures
        parse_count(count_le(n) + rest) == Some((n, rest)),
{
    lemma_u32_roundtrip(n as u32, rest);
}

pub proof fn lemma_string_roundtrip(s: Seq<char>, rest: Seq<u8>)
    requires
        string_fits(s),
    ensures
        parse_string(string_le(s) + rest) == Some((s, rest)),
{
    let body = encode_utf8(s);
    lemma_count_roundtrip(body.len(), body + rest);
    assert(string_le(s) + rest =~= count_le(body.len()) + (body + rest));
    assert((body + rest).take(body.len() as int) =~= body);
    assert((body + rest).skip(body.len() as int) =~= rest);
    encode_utf8_valid_utf8(s);
    encode_utf8_decode_utf8(s);
}

/// Bytes of a snapshot under construction.
pub struct SaveWriter {
    pub bytes: Vec<u8>,
}

impl SaveWriter {
    pub fn new() -> (w: SaveWriter)
        ensures
            w.bytes@ == Seq::<u8>::empty(),
    {
        SaveWriter { bytes: Vec::new() }
    }

    pub fn bytes(&mut self, bytes: &[u8])
        ensures
            final(self).bytes@ == old(self).bytes@ + bytes@,
    {
        let mut i: usize = 0;
        while i < bytes.len()
            invariant
                0 <= i <= bytes@.len(),
                self.bytes@ == old(self).bytes@ + bytes@.take(i as int),
            decreases bytes@.len() - i,
        {
            self.bytes.push(bytes[i]);
            assert(bytes@.take(i + 1) =~= bytes@.take(i as int).push(bytes@[i as int]));
            i = i + 1;
        }
        assert(bytes@.take(bytes@.len() as int) =~= bytes@);
    }

    pub fn u8(&mut self, value: u8)
        ensures
            final(self).bytes@ == old(self).bytes@.push(value),
    {
        self.bytes.push(value);
    }

    pub fn bool(&mut self, value: bool)
        ensures
            final(self).bytes@ == old(self).bytes@ + bool_le(value),
    {
        self.u8(if value { 1 } else { 0 });
        assert(old(self).bytes@.push(if value { 1u8 } else { 0u8 }) =~= old(self).bytes@ + bool_le(value));
    }

    pub fn u16(&mut self, value: u16)
        ensures
            final(self).bytes@ == old(self).bytes@ + u16_le(value),
    {
        self.bytes.push(value as u8);
        self.bytes.push((value >> 8u16) as u8);
        assert(self.bytes@ =~= old(self).bytes@ + u16_le(value));
    }

    pub fn u32(&mut self, value: u32)
        ensures
            final(self).bytes@ == old(self).bytes@ + u32_le(value),
    {
        self.bytes.push(value as u8);
        self.bytes.push((value >> 8u32) as u8);
        self.bytes.push((value >> 16u32) as u8);
        self.bytes.push((value >> 24u32) as u8);
        assert(self.bytes@ =~= old(self).bytes@ + u32_le(value));
    }

    pub fn i32(&mut self, value: i32)
        ensures
            final(self).bytes@ == old(self).bytes@ + i32_le(value),
    {
        self.u32(value as u32);
    }

    pub fn u64(&mut self, value: u64)
        ensures
            final(self).bytes@ == old(self).bytes@ + u64_le(value),
    {
        self.u32(value as u32);
        self.u32((value >> 32u64) as u32);
        assert(self.bytes@ =~= old(self).bytes@ + u64_le(value));
    }

    /// Writes single-precision bits; refuses a value that is not finite.
    pub fn float_bits(&mut self, value: u32) -> (r: Result<(), DispatchError>)
        ensures
            r is Ok <==> finite_bits(value),
            r is Ok ==> final(self).bytes@ == old(self).bytes@ + u32_le(value),
            r matches Err(e) ==> e is SaveState && final(self).bytes@ == old(self).bytes@,
    {
        if value & 0x7f80_0000 == 0x7f80_0000 {
            return Err(save_error("snapshot contains a non-finite float"));
        }
        self.u32(value);
        Ok(())
    }

    /// Writes a collection count; refuses one above `MAX_ITEMS`.
    pub fn count(&mut self, value: usize) -> (r: Result<(), DispatchError>)
        ensures
            r is Ok <==> value <= MAX_ITEMS,
            r is Ok ==> final(self).bytes@ == old(self).bytes@ + count_le(value as nat),
            r matches Err(e) ==> e is SaveState && final(self).bytes@ == old(self).bytes@,
    {
        if value > MAX_ITEMS {
            return Err(save_error("snapshot collection exceeds its item limit"));
        }
        self.u32(value as u32);
        Ok(())
    }

    /// Writes a length-prefixed UTF-8 string.
    pub fn string(&mut self, value: &str) -> (r: Result<(), DispatchError>)
        ensures
            r is Ok <==> string_fits(value@),
            r is Ok ==> final(self).bytes@ == old(self).bytes@ + string_le(value@),
            r matches Err(e) ==> e is SaveState && final(self).bytes@ == old(self).bytes@,
    {
        let body = value.as_bytes();
        if body.len() > MAX_SAVE_BYTES {
            return Err(save_error("snapshot string is too large"));
        }
        let counted = self.count(body.len());
        if counted.is_err() {
            return counted;
        }
        self.bytes(body);
        assert(self.bytes@ =~= old(self).bytes@ + string_le(value@));
        Ok(())
    }
}

/// A cursor over the bytes of a snapshot.
pub struct SaveReader<'a> {
    pub bytes: &'a [u8],
    pub position: usize,
}

impl<'a> SaveReader<'a> {
    pub open spec fn wf(&self) -> bool {
        self.position <= self.bytes@.len()
    }

    /// The bytes not read yet.
    pub open spec fn rest(&self) -> Seq<u8> {
        self.bytes@.skip(self.position as int)
    }

    /// Starts at the front of `bytes`; refuses more than `MAX_SAVE_BYTES`.
    pub fn new(bytes: &'a [u8]) -> (r: Result<SaveReader<'a>, DispatchError>)
        ensures
            r is Ok <==> bytes@.len() <= MAX_SAVE_BYTES,
            r matches Ok(reader) ==> reader.wf() && reader.rest() == bytes@ && reader.bytes@ == bytes@,
            r matches Err(e) ==> e is SaveState,
    {
        if bytes.len() > MAX_SAVE_BYTES {
            return Err(save_error("save file exceeds the 64 MiB limit"));
        }
        let reader = SaveReader { bytes, position: 0 };
        assert(reader.rest() =~= bytes@);
        Ok(reader)
    }

    pub fn take(&mut self, count: usize) -> (r: Result<&'a [u8], DispatchError>)
        requires
            old(self).wf(),
        ensures
            final(self).wf(),
            final(self).bytes@ == old(self).bytes@,
            match r {
                Ok(b) => parse_bytes(old(self).rest(), count as nat) == Some((b@, final(self).rest())),
                Err(e) => parse_bytes(old(self).rest(), count as nat) is None && e is SaveState,
            },
    {
        if count > self.bytes.len() - self.position {
            return Err(save_error("save file ends unexpectedly"));
        }
        let end = self.position + count;
        let taken = slice_subrange(self.bytes, self.position, end);
        let ghost before = self.rest();
        self.position = end;
        assert(taken@ =~= before.take(count as int));
        assert(self.rest() =~= before.skip(count as int));
        Ok(taken)
    }

    pub fn u8(&mut self) -> (r: Result<u8, DispatchError>)
        requires
            old(self).wf(),
        ensures
            final(self).wf(),
            final(self).bytes@ == old(self).bytes@,
            match r {
                Ok(v) => parse_u8(old(self).rest()) == Some((v, final(self).rest())),
                Err(e) => parse_u8(old(self).rest()) is None && e is SaveState,
            },
    {
        let taken = self.take(1)?;
        Ok(taken[0])
    }

    pub fn bool(&mut self) -> (r: Result<bool, DispatchError>)
        requires
            old(self).wf(),
        ensures
            final(self).wf(),
            final(self).bytes@ == old(self).bytes@,
            match r {
                Ok(v) => parse_bool(old(self).rest()) == Some((v, final(self).rest())),
                Err(e) => parse_bool(old(self).rest()) is None && e is SaveState,
            },
    {
        let byte = self.u8()?;
        if byte == 0 {
            Ok(false)
        } else if byte == 1 {
            Ok(true)
        } else {
            Err(save_error("boolean has an invalid value"))
        }
    }

    pub fn u16(&mut self) -> (r: Result<u16, DispatchError>)
        requires
            old(self).wf(),
        ensures
            final(self).wf(),
            final(self).bytes@ == old(self).bytes@,
            match r {
                Ok(v) => parse_u16(old(self).rest()) == Some((v, final(self).rest())),
                Err(e) => parse_u16(old(self).rest()) is None && e is SaveState,
            },
    {
        let b = self.take(2)?;
        Ok((b[0] as u16) | ((b[1] as u16) << 8u16))
    }

    pub fn u32(&mut self) -> (r: Result<u32, DispatchError>)
        requires
            old(self).wf(),
        ensures
            final(self).wf(),
            final(self).bytes@ == old(self).bytes@,
            match r {
                Ok(v) => parse_u32(old(self).rest()) == Some((v, final(self).rest())),
                Err(e) => parse_u32(old(self).rest()) is None && e is SaveState,
            },
    {
        let b = self.take(4)?;
        Ok((b[0] as u32) | ((b[1] as u32) << 8u32) | ((b[2] as u32) << 16u32) | ((b[3] as u32)
            << 24u32))
    }

    pub fn i32(&mut self) -> (r: Result<i32, DispatchError>)
        requires
            old(self).wf(),
        ensures
            final(self).wf(),
            final(self).bytes@ == old(self).bytes@,
            match r {
                Ok(v) => parse_i32(old(self).rest()) == Some((v, final(self).rest())),
                Err(e) => parse_i32(old(self).rest()) is None && e is SaveState,
            },
    {
        let v = self.u32()?;
        Ok(v as i32)
    }

    pub fn u64(&mut self) -> (r: Result<u64, DispatchError>)
        requires
            old(self).wf(),
        ensures
            final(self).wf(),
            final(self).bytes@ == old(self).bytes@,
            match r {
                Ok(v) => parse_u64(old(self).rest()) == Some((v, final(self).rest())),
                Err(e) => parse_u64(old(self).rest()) is None && e is SaveState,
            },
    {
        let ghost before = self.rest();
        let b = self.take(8)?;
        let lo = (b[0] as u32) | ((b[1] as u32) << 8u32) | ((b[2] as u32) << 16u32) | ((b[3] as u32)
            << 24u32);
        let hi = (b[4] as u32) | ((b[5] as u32) << 8u32) | ((b[6] as u32) << 16u32) | ((b[7] as u32)
            << 24u32);
        assert(before.skip(4)[0] == b@[4] && before.skip(4)[1] == b@[5] && before.skip(4)[2] == b@[6]
            && before.skip(4)[3] == b@[7]);
        Ok((lo as u64) | ((hi as u64) << 32u64))
    }

    /// Reads single-precision bits; refuses a value that is not finite.
    pub fn float_bits(&mut self) -> (r: Result<u32, DispatchError>)
        requires
            old(self).wf(),
        ensures
            final(self).wf(),
            final(self).bytes@ == old(self).bytes@,
            match r {
                Ok(v) => parse_f32(old(self).rest()) == Some((v, final(self).rest())),
                Err(e) => parse_f32(old(self).rest()) is None && e is SaveState,
            },
    {
        let bits = self.u32()?;
        if bits & 0x7f80_0000 == 0x7f80_0000 {
            return Err(save_error("save file contains a non-finite float"));
        }
        Ok(bits)
    }

    /// Reads a collection count; refuses one above `MAX_ITEMS`.
    pub fn count(&mut self) -> (r: Result<usize, DispatchError>)
        requires
            old(self).wf(),
        ensures
            final(self).wf(),
            final(self).bytes@ == old(self).bytes@,
            match r {
                Ok(v) => parse_count(old(self).rest()) == Some((v as nat, final(self).rest())),
                Err(e) => parse_count(old(self).rest()) is None && e is SaveState,
            },
    {
        let n = self.u32()?;
        if n as usize > MAX_ITEMS {
            return Err(save_error("save file collection count is invalid"));
        }
        Ok(n as usize)
    }

    /// Reads a length-prefixed UTF-8 string.
    pub fn string(&mut self) -> (r: Result<String, DispatchError>)
        requires
            old(self).wf(),
        ensures
            final(self).wf(),
            final(self).bytes@ == old(self).bytes@,
            match r {
                Ok(v) => parse_string(old(self).rest()) == Some((v@, final(self).rest())),
                Err(e) => parse_string(old(self).rest()) is None && e is SaveState,
            },
    {
        let length = self.count()?;
        let body = self.take(length)?;
        match string_from_utf8(body) {
            Some(s) => Ok(s),
            None => Err(save_error("save file string is not UTF-8")),
        }
    }

    /// Whether every byte has been read.
    pub fn finished(&self) -> (r: bool)
        requires
            self.wf(),
        ensures
            r == (self.rest().len() == 0),
    {
        self.position == self.bytes.len()
    }
}

} // verus!
