use vstd::prelude::*;
use vstd::slice::slice_subrange;
use vstd::slice::slice_to_vec;
use vstd::utf8::decode_utf8;
use vstd::utf8::valid_utf8;

use crate::error::NSPError;

verus! {

/// `256` raised to the power `n`.
pub open spec fn pow256(n: nat) -> nat
    decreases n,
{
    if n == 0 {
        1
    } else {
        256 * pow256((n - 1) as nat)
    }
}

/// The unsigned number whose little-endian bytes are `s`.
pub open spec fn le_value(s: Seq<u8>) -> nat
    decreases s.len(),
{
    if s.len() == 0 {
        0
    } else {
        s[0] as nat + 256 * le_value(s.skip(1))
    }
}

/// The unsigned number whose big-endian bytes are `s`.
pub open spec fn be_value(s: Seq<u8>) -> nat
    decreases s.len(),
{
    if s.len() == 0 {
        0
    } else {
        be_value(s.drop_last()) * 256 + s.last() as nat
    }
}

/// The two's complement reading of the unsigned value `u` of a field `width` bytes wide.
pub open spec fn signed(u: nat, width: nat) -> int {
    if u < pow256(width) / 2 {
        u as int
    } else {
        u - pow256(width)
    }
}

/// The index of the first zero byte of `s`, or `s.len()` when it holds none.
pub open spec fn null_index(s: Seq<u8>) -> nat
    decreases s.len(),
{
    if s.len() == 0 {
        0
    } else if s[0] == 0 {
        0
    } else {
        1 + null_index(s.skip(1))
    }
}

/// The 16-bit code units held little-endian, two bytes each, in `s`.
pub open spec fn le_units(s: Seq<u8>) -> Seq<u16> {
    Seq::new(s.len() / 2, |i: int| (s[2 * i] as nat + 256 * (s[2 * i + 1] as nat)) as u16)
}

/// The characters that a sequence of UTF-16 code units encodes, or `None` where
/// it is not well-formed UTF-16 (an unpaired surrogate).
pub uninterp spec fn utf16_text(units: Seq<u16>) -> Option<Seq<char>>;

/// Typed, fallible decoding over a sequential byte source.
///
/// Every read either consumes exactly the bytes it decodes, or fails and leaves
/// the source as it was.
pub trait ReadBytesExt {
    /// The bytes that the source still holds, in order.
    spec fn unread(&self) -> Seq<u8>;

    /// One byte; `true` exactly when it is `1`.
    fn read_bool(&mut self) -> (r: Result<bool, NSPError>)
        ensures
            match r {
                Ok(v) => old(self).unread().len() >= 1 && v == (old(self).unread()[0] == 1)
                    && final(self).unread() == old(self).unread().skip(1),
                Err(e) => old(self).unread().len() < 1 && e == NSPError::UnexpectedEof
                    && final(self).unread() == old(self).unread(),
            },
    ;

    fn read_u8(&mut self) -> (r: Result<u8, NSPError>)
        ensures
            match r {
                Ok(v) => old(self).unread().len() >= 1 && v == old(self).unread()[0]
                    && final(self).unread() == old(self).unread().skip(1),
                Err(e) => old(self).unread().len() < 1 && e == NSPError::UnexpectedEof
                    && final(self).unread() == old(self).unread(),
            },
    ;

    fn read_i8(&mut self) -> (r: Result<i8, NSPError>)
        ensures
            match r {
                Ok(v) => old(self).unread().len() >= 1
                    && v == signed(le_value(old(self).unread().take(1)), 1)
                    && final(self).unread() == old(self).unread().skip(1),
                Err(e) => old(self).unread().len() < 1 && e == NSPError::UnexpectedEof
                    && final(self).unread() == old(self).unread(),
            },
    ;

    fn read_u16_le(&mut self) -> (r: Result<u16, NSPError>)
        ensures
            match r {
                Ok(v) => old(self).unread().len() >= 2 && v == le_value(old(self).unread().take(2))
                    && final(self).unread() == old(self).unread().skip(2),
                Err(e) => old(self).unread().len() < 2 && e == NSPError::UnexpectedEof
                    && final(self).unread() == old(self).unread(),
            },
    ;

    fn read_u16_be(&mut self) -> (r: Result<u16, NSPError>)
        ensures
            match r {
                Ok(v) => old(self).unread().len() >= 2 && v == be_value(old(self).unread().take(2))
                    && final(self).unread() == old(self).unread().skip(2),
                Err(e) => old(self).unread().len() < 2 && e == NSPError::UnexpectedEof
                    && final(self).unread() == old(self).unread(),
            },
    ;

    fn read_i16_le(&mut self) -> (r: Result<i16, NSPError>)
        ensures
            match r {
                Ok(v) => old(self).unread().len() >= 2
                    && v == signed(le_value(old(self).unread().take(2)), 2)
                    && final(self).unread() == old(self).unread().skip(2),
                Err(e) => old(self).unread().len() < 2 && e == NSPError::UnexpectedEof
                    && final(self).unread() == old(self).unread(),
            },
    ;

    fn read_u32_le(&mut self) -> (r: Result<u32, NSPError>)
        ensures
            match r {
                Ok(v) => old(self).unread().len() >= 4 && v == le_value(old(self).unread().take(4))
                    && final(self).unread() == old(self).unread().skip(4),
                Err(e) => old(self).unread().len() < 4 && e == NSPError::UnexpectedEof
                    && final(self).unread() == old(self).unread(),
            },
    ;

    fn read_u32_be(&mut self) -> (r: Result<u32, NSPError>)
        ensures
            match r {
                Ok(v) => old(self).unread().len() >= 4 && v == be_value(old(self).unread().take(4))
                    && final(self).unread() == old(self).unread().skip(4),
                Err(e) => old(self).unread().len() < 4 && e == NSPError::UnexpectedEof
                    && final(self).unread() == old(self).unread(),
            },
    ;

    fn read_i32_le(&mut self) -> (r: Result<i32, NSPError>)
        ensures
            match r {
                Ok(v) => old(self).unread().len() >= 4
                    && v == signed(le_value(old(self).unread().take(4)), 4)
                    && final(self).unread() == old(self).unread().skip(4),
                Err(e) => old(self).unread().len() < 4 && e == NSPError::UnexpectedEof
                    && final(self).unread() == old(self).unread(),
            },
    ;

    fn read_u64_le(&mut self) -> (r: Result<u64, NSPError>)
        ensures
            match r {
                Ok(v) => old(self).unread().len() >= 8 && v == le_value(old(self).unread().take(8))
                    && final(self).unread() == old(self).unread().skip(8),
                Err(e) => old(self).unread().len() < 8 && e == NSPError::UnexpectedEof
                    && final(self).unread() == old(self).unread(),
            },
    ;

    /// Exactly `bytes` bytes, as they stand.
    fn read_bytes(&mut self, bytes: usize) -> (r: Result<Vec<u8>, NSPError>)
        ensures
            match r {
                Ok(v) => bytes <= old(self).unread().len() && v@ == old(self).unread().take(
                    bytes as int,
                ) && final(self).unread() == old(self).unread().skip(bytes as int),
                Err(e) => old(self).unread().len() < bytes && e == NSPError::UnexpectedEof
                    && final(self).unread() == old(self).unread(),
            },
    ;

    /// A blob led by its own length `L` (8 bytes, little-endian, counting the
    /// length field itself): the `L` bytes, length field included.
    fn read_sized_data(&mut self) -> (r: Result<Vec<u8>, NSPError>)
        ensures
            ({
                let u = old(self).unread();
                match r {
                    Ok(v) => u.len() >= 8 && le_value(u.take(8)) >= 8 && le_value(u.take(8))
                        <= u.len() && v@ == u.take(le_value(u.take(8)) as int)
                        && final(self).unread() == u.skip(le_value(u.take(8)) as int),
                    Err(e) => final(self).unread() == u && if u.len() < 8 {
                        e == NSPError::UnexpectedEof
                    } else if le_value(u.take(8)) < 8 {
                        e == NSPError::SizeFieldTooSmall
                    } else {
                        le_value(u.take(8)) > u.len() && e == NSPError::UnexpectedEof
                    },
                }
            }),
    ;

    /// The UTF-8 text before the next zero byte; the zero byte is consumed too.
    fn read_string_utf8(&mut self) -> (r: Result<String, NSPError>)
        ensures
            ({
                let u = old(self).unread();
                let k = null_index(u);
                match r {
                    Ok(s) => k < u.len() && valid_utf8(u.take(k as int)) && s@ == decode_utf8(
                        u.take(k as int),
                    ) && final(self).unread() == u.skip(k + 1int),
                    Err(e) => final(self).unread() == u && if k == u.len() {
                        e == NSPError::UnexpectedEof
                    } else {
                        !valid_utf8(u.take(k as int)) && e == NSPError::InvalidUtf8
                    },
                }
            }),
    ;

    /// A UTF-16 string led by its length `N` in code units (4 bytes,
    /// little-endian), followed by `2 * N` bytes of little-endian units.
    /// A length of zero gives the empty string and reads nothing further.
    fn read_widestring_utf16(&mut self) -> (r: Result<String, NSPError>)
        ensures
            ({
                let u = old(self).unread();
                let n: int = le_value(u.take(4)) as int;
                let units = le_units(u.subrange(4, 4 + 2 * n));
                match r {
                    Ok(s) => u.len() >= 4 && if n == 0 {
                        s@.len() == 0 && final(self).unread() == u.skip(4)
                    } else {
                        u.len() >= 4 + 2 * n && utf16_text(units) == Some(s@)
                            && final(self).unread() == u.skip(4 + 2 * n)
                    },
                    Err(e) => final(self).unread() == u && if u.len() < 4 || (n > 0 && u.len()
                        < 4 + 2 * n) {
                        e == NSPError::UnexpectedEof
                    } else {
                        n > 0 && utf16_text(units) is None && e == NSPError::InvalidUtf16
                    },
                }
            }),
    ;
}

impl<'a> ReadBytesExt for &'a [u8] {
    open spec fn unread(&self) -> Seq<u8> {
        self@
    }

    fn read_bool(&mut self) -> (r: Result<bool, NSPError>) {
        match self.read_u8() {
            Ok(b) => Ok(b == 1),
            Err(e) => Err(e),
        }
    }

    fn read_u8(&mut self) -> (r: Result<u8, NSPError>) {
        if self.len() < 1 {
            return Err(NSPError::UnexpectedEof);
        }
        let v = self[0];
        let (_, rest) = split_front(*self, 1);
        *self = rest;
        Ok(v)
    }

    fn read_i8(&mut self) -> (r: Result<i8, NSPError>) {
        if self.len() < 1 {
            return Err(NSPError::UnexpectedEof);
        }
        let (head, rest) = split_front(*self, 1);
        let u = le_uint(head);
        proof {
            lemma_pow256_values();
        }
        *self = rest;
        if u < 0x80 {
            Ok(u as i8)
        } else {
            Ok((u as i16 - 0x100) as i8)
        }
    }

    fn read_u16_le(&mut self) -> (r: Result<u16, NSPError>) {
        if self.len() < 2 {
            return Err(NSPError::UnexpectedEof);
        }
        let (head, rest) = split_front(*self, 2);
        let u = le_uint(head);
        proof {
            lemma_pow256_values();
        }
        *self = rest;
        Ok(u as u16)
    }

    fn read_u16_be(&mut self) -> (r: Result<u16, NSPError>) {
        if self.len() < 2 {
            return Err(NSPError::UnexpectedEof);
        }
        let (head, rest) = split_front(*self, 2);
        let u = be_uint(head);
        proof {
            lemma_pow256_values();
        }
        *self = rest;
        Ok(u as u16)
    }

    fn read_i16_le(&mut self) -> (r: Result<i16, NSPError>) {
        if self.len() < 2 {
            return Err(NSPError::UnexpectedEof);
        }
        let (head, rest) = split_front(*self, 2);
        let u = le_uint(head);
        proof {
            lemma_pow256_values();
        }
        *self = rest;
        if u < 0x8000 {
            Ok(u as i16)
        } else {
            Ok((u as i32 - 0x1_0000) as i16)
        }
    }

    fn read_u32_le(&mut self) -> (r: Result<u32, NSPError>) {
        if self.len() < 4 {
            return Err(NSPError::UnexpectedEof);
        }
        let (head, rest) = split_front(*self, 4);
        let u = le_uint(head);
        proof {
            lemma_pow256_values();
        }
        *self = rest;
        Ok(u as u32)
    }

    fn read_u32_be(&mut self) -> (r: Result<u32, NSPError>) {
        if self.len() < 4 {
            return Err(NSPError::UnexpectedEof);
        }
        let (head, rest) = split_front(*self, 4);
        let u = be_uint(head);
        proof {
            lemma_pow256_values();
        }
        *self = rest;
        Ok(u as u32)
    }

    fn read_i32_le(&mut self) -> (r: Result<i32, NSPError>) {
        if self.len() < 4 {
            return Err(NSPError::UnexpectedEof);
        }
        let (head, rest) = split_front(*self, 4);
        let u = le_uint(head);
        proof {
            lemma_pow256_values();
        }
        *self = rest;
        if u < 0x8000_0000 {
            Ok(u as i32)
        } else {
            Ok((u as i64 - 0x1_0000_0000) as i32)
        }
    }

    fn read_u64_le(&mut self) -> (r: Result<u64, NSPError>) {
        if self.len() < 8 {
            return Err(NSPError::UnexpectedEof);
        }
        let (head, rest) = split_front(*self, 8);
        let u = le_uint(head);
        *self = rest;
        Ok(u)
    }

    fn read_bytes(&mut self, bytes: usize) -> (r: Result<Vec<u8>, NSPError>) {
        if self.len() < bytes {
            return Err(NSPError::UnexpectedEof);
        }
        let (head, rest) = split_front(*self, bytes);
        *self = rest;
        Ok(slice_to_vec(head))
    }

    fn read_sized_data(&mut self) -> (r: Result<Vec<u8>, NSPError>) {
        let mut probe: &[u8] = *self;
        let size_field = match probe.read_u64_le() {
            Ok(v) => v,
            Err(e) => return Err(e),
        };
        if size_field < 8 {
            return Err(NSPError::SizeFieldTooSmall);
        }
        if size_field > self.len() as u64 {
            return Err(NSPError::UnexpectedEof);
        }
        self.read_bytes(size_field as usize)
    }

    fn read_string_utf8(&mut self) -> (r: Result<String, NSPError>) {
        let ghost u = self@;
        let mut k: usize = 0;
        while k < self.len() && self[k] != 0
            invariant
                self@ == u,
                k <= u.len(),
                forall|j: int| 0 <= j < k ==> u[j] != 0,
            decreases u.len() - k,
        {
            k = k + 1;
        }
        proof {
            lemma_null_index(u, k as nat);
        }
        if k == self.len() {
            return Err(NSPError::UnexpectedEof);
        }
        let (head, rest) = split_front(*self, k);
        match string_from_utf8(slice_to_vec(head)) {
            Some(s) => {
                let (_, after) = split_front(rest, 1);
                proof {
                    assert(u.skip(k as int).skip(1) =~= u.skip(k + 1));
                }
                *self = after;
                Ok(s)
            },
            None => Err(NSPError::InvalidUtf8),
        }
    }

    fn read_widestring_utf16(&mut self) -> (r: Result<String, NSPError>) {
        let ghost u = self@;
        let mut probe: &[u8] = *self;
        let size_field = match probe.read_u32_le() {
            Ok(v) => v,
            Err(e) => return Err(e),
        };
        if size_field == 0 {
            *self = probe;
            return Ok(String::new());
        }
        let width: u64 = size_field as u64 * 2;
        if (probe.len() as u64) < width {
            return Err(NSPError::UnexpectedEof);
        }
        let (body, rest) = split_front(probe, width as usize);
        let mut units: Vec<u16> = Vec::new();
        let mut i: usize = 0;
        while i < size_field as usize
            invariant
                body@.len() == 2 * size_field,
                body@.len() <= usize::MAX,
                i <= size_field,
                units@ == le_units(body@).take(i as int),
            decreases size_field - i,
        {
            let unit: u16 = body[2 * i] as u16 + 256 * (body[2 * i + 1] as u16);
            units.push(unit);
            proof {
                assert(units@ =~= le_units(body@).take(i + 1));
            }
            i = i + 1;
        }
        proof {
            assert(units@ =~= le_units(body@));
            assert(body@ =~= u.subrange(4, 4 + 2 * size_field));
            assert(rest@ =~= u.skip(4 + 2 * size_field));
        }
        match string_from_utf16(units.as_slice()) {
            Some(s) => {
                *self = rest;
                Ok(s)
            },
            None => Err(NSPError::InvalidUtf16),
        }
    }
}

proof fn lemma_null_index(s: Seq<u8>, k: nat)
    requires
        k <= s.len(),
        forall|j: int| 0 <= j < k ==> s[j] != 0,
        k == s.len() || s[k as int] == 0,
    ensures
        null_index(s) == k,
    decreases k,
{
    if k > 0 {
        lemma_null_index(s.skip(1), (k - 1) as nat);
    }
}

/// Four little-endian bytes spell the number that weighs each byte by its
/// place: the first by 1, the last by 2^24.
pub proof fn lemma_le_value_four(s: Seq<u8>)
    requires
        s.len() == 4,
    ensures
        le_value(s) == s[0] as int + 0x100 * s[1] + 0x1_0000 * s[2] + 0x100_0000 * s[3],
{
    reveal_with_fuel(le_value, 5);
    assert(s.skip(1)[0] == s[1] && s.skip(1).skip(1)[0] == s[2]);
    assert(s.skip(1).skip(1).skip(1)[0] == s[3]);
    assert(s.skip(1).skip(1).skip(1).skip(1).len() == 0);
}

/// Four big-endian bytes spell the number that weighs each byte by its
/// place: the first by 2^24, the last by 1.
pub proof fn lemma_be_value_four(s: Seq<u8>)
    requires
        s.len() == 4,
    ensures
        be_value(s) == 0x100_0000 * s[0] as int + 0x1_0000 * s[1] + 0x100 * s[2] + s[3],
{
    reveal_with_fuel(be_value, 5);
    assert(s.drop_last().last() == s[2] && s.drop_last().drop_last().last() == s[1]);
    assert(s.drop_last().drop_last().drop_last().last() == s[0]);
    assert(s.drop_last().drop_last().drop_last().drop_last().len() == 0);
}

proof fn lemma_pow256_values()
    ensures
        pow256(1) == 0x100,
        pow256(2) == 0x1_0000,
        pow256(4) == 0x1_0000_0000,
        pow256(8) == 0x1_0000_0000_0000_0000,
{
    reveal_with_fuel(pow256, 9);
}

proof fn lemma_pow256_le_8(n: nat)
    requires
        n <= 8,
    ensures
        pow256(n) <= pow256(8),
    decreases 8 - n,
{
    if n < 8 {
        lemma_pow256_le_8(n + 1);
    }
}

/// The number that the little-endian bytes `b` spell.
fn le_uint(b: &[u8]) -> (v: u64)
    requires
        b@.len() <= 8,
    ensures
        v == le_value(b@),
        v < pow256(b@.len()),
{
    let mut acc: u64 = 0;
    let mut i: usize = b.len();
    while i > 0
        invariant
            i <= b@.len() <= 8,
            acc == le_value(b@.skip(i as int)),
            acc < pow256((b@.len() - i) as nat),
        decreases i,
    {
        i = i - 1;
        proof {
            assert(b@.skip(i as int).skip(1) =~= b@.skip(i + 1));
            lemma_pow256_le_8((b@.len() - i) as nat);
            lemma_pow256_values();
        }
        acc = acc * 256 + b[i] as u64;
    }
    assert(b@.skip(0) =~= b@);
    acc
}

/// The number that the big-endian bytes `b` spell.
fn be_uint(b: &[u8]) -> (v: u64)
    requires
        b@.len() <= 8,
    ensures
        v == be_value(b@),
        v < pow256(b@.len()),
{
    let mut acc: u64 = 0;
    let mut i: usize = 0;
    while i < b.len()
        invariant
            i <= b@.len() <= 8,
            acc == be_value(b@.take(i as int)),
            acc < pow256(i as nat),
        decreases b@.len() - i,
    {
        proof {
            assert(b@.take(i + 1).drop_last() =~= b@.take(i as int));
            lemma_pow256_le_8((i + 1) as nat);
            lemma_pow256_values();
        }
        acc = acc * 256 + b[i] as u64;
        i = i + 1;
    }
    assert(b@.take(b@.len() as int) =~= b@);
    acc
}

/// Splits the first `n` bytes off `s`.
fn split_front<'a>(s: &'a [u8], n: usize) -> (r: (&'a [u8], &'a [u8]))
    requires
        n <= s@.len(),
    ensures
        r.0@ == s@.take(n as int),
        r.1@ == s@.skip(n as int),
{
    (slice_subrange(s, 0, n), slice_subrange(s, n, s.len()))
}

/// Relies on `String::from_utf8`: it accepts exactly the well-formed UTF-8
/// sequences and keeps the characters that they encode.
#[verifier::external_body]
fn string_from_utf8(bytes: Vec<u8>) -> (r: Option<String>)
    ensures
        r is Some <==> valid_utf8(bytes@),
        r is Some ==> r->Some_0@ == decode_utf8(bytes@),
{
    String::from_utf8(bytes).ok()
}

/// Relies on `String::from_utf16`: it decodes the units, and fails where they
/// are not well-formed UTF-16.
#[verifier::external_body]
fn string_from_utf16(units: &[u16]) -> (r: Option<String>)
    ensures
        match r {
            Some(s) => utf16_text(units@) == Some(s@),
            None => utf16_text(units@) is None,
        },
{
    String::from_utf16(units).ok()
}

} // verus!
