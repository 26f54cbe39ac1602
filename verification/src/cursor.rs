//! The byte cursor: a bounds-checked sequential reader over an in-memory
//! buffer. Every read either returns the value the spec-level reader
//! yields at the current position and advances by exactly the bytes it
//! consumed, or fails with the spec-level error and does not move.

use vstd::arithmetic::div_mod::lemma_add_mod_noop;
use vstd::arithmetic::div_mod::lemma_mod_mod;
use vstd::arithmetic::div_mod::lemma_mul_mod_noop_right;
use vstd::arithmetic::div_mod::lemma_small_mod;
use vstd::prelude::*;
use vstd::utf8::decode_utf8;
use vstd::utf8::valid_utf8;

use crate::spec_decode::be_val;
use crate::spec_decode::dec_f32;
use crate::spec_decode::dec_f64;
use crate::spec_decode::dec_fixed;
use crate::spec_decode::dec_i16;
use crate::spec_decode::dec_i32;
use crate::spec_decode::dec_i64;
use crate::spec_decode::dec_string;
use crate::spec_decode::dec_varint;
use crate::spec_decode::le_val;
use crate::spec_decode::pow256;
use crate::spec_decode::signed_of;
use crate::spec_decode::zigzag;
use crate::types::DecodeError;
use crate::types::NbtEndian;

verus! {

/// `le_val` and `be_val` of `k` bytes are below `pow256(k)`.
proof fn lemma_val_bound(b: Seq<u8>, pos: int, k: nat)
    ensures
        le_val(b, pos, k) < pow256(k),
        be_val(b, pos, k) < pow256(k),
    decreases k,
{
    if k > 0 {
        lemma_val_bound(b, pos + 1, (k - 1) as nat);
        lemma_val_bound(b, pos, (k - 1) as nat);
    }
}

/// The concrete powers of 256 the cursor reasons with.
proof fn lemma_pow256_values()
    ensures
        pow256(0) == 1,
        pow256(1) == 0x100,
        pow256(2) == 0x1_0000,
        pow256(4) == 0x1_0000_0000,
        pow256(7) == 0x100_0000_0000_0000,
        pow256(8) == 0x1_0000_0000_0000_0000,
        forall|j: nat, l: nat| j <= l ==> pow256(j) <= pow256(l),
{
    assert(pow256(0) == 1);
    assert(pow256(1) == 0x100);
    assert(pow256(2) == 0x1_0000);
    assert(pow256(3) == 0x100_0000);
    assert(pow256(4) == 0x1_0000_0000);
    assert(pow256(5) == 0x100_0000_0000);
    assert(pow256(6) == 0x1_0000_0000_0000);
    assert(pow256(7) == 0x100_0000_0000_0000);
    assert(pow256(8) == 0x1_0000_0000_0000_0000);
    assert forall|j: nat, l: nat| j <= l implies pow256(j) <= pow256(l) by {
        lemma_pow256_mono(j, l);
    }
}

proof fn lemma_pow256_mono(j: nat, l: nat)
    requires
        j <= l,
    ensures
        pow256(j) <= pow256(l),
    decreases l,
{
    if j < l {
        lemma_pow256_mono(j, (l - 1) as nat);
        assert(pow256(l) == 256 * pow256((l - 1) as nat));
        lemma_pow256_pos((l - 1) as nat);
    }
}

proof fn lemma_pow256_pos(k: nat)
    ensures
        pow256(k) >= 1,
    decreases k,
{
    if k > 0 {
        lemma_pow256_pos((k - 1) as nat);
    }
}

/// A fixed-width unsigned read at `pos`, without moving anything: the
/// executable counterpart of `dec_fixed`.
fn fixed_at(b: &Vec<u8>, pos: usize, k: usize, big: bool) -> (r: Result<(u64, usize), DecodeError>)
    requires
        1 <= k <= 8,
        pos <= b@.len(),
    ensures
        match r {
            Ok(p) => dec_fixed(b@, pos as int, k as nat, big) == Ok::<_, DecodeError>(
                (p.0 as nat, p.1 as int),
            ) && p.1 == k && pos + k <= b@.len() && b@.len() <= usize::MAX,
            Err(e) => dec_fixed(b@, pos as int, k as nat, big) == Err::<(nat, int), _>(e),
        },
{
    if k > b.len() - pos {
        return Err(DecodeError::UnexpectedEof);
    }
    proof {
        lemma_pow256_values();
    }
    let mut acc: u64 = 0;
    if big {
        let mut i: usize = 0;
        while i < k
            invariant
                pos + k <= b@.len(),
                b@.len() <= usize::MAX,
                1 <= k <= 8,
                i <= k,
                acc as nat == be_val(b@, pos as int, i as nat),
            decreases k - i,
        {
            proof {
                lemma_val_bound(b@, pos as int, i as nat);
                lemma_pow256_values();
                assert(pow256(i as nat) <= pow256(7nat));
            }
            acc = acc * 256 + (b[pos + i] as u64);
            i += 1;
        }
        Ok((acc, k))
    } else {
        let mut i: usize = k;
        while i > 0
            invariant
                pos + k <= b@.len(),
                b@.len() <= usize::MAX,
                1 <= k <= 8,
                i <= k,
                acc as nat == le_val(b@, pos + i as int, (k - i) as nat),
            decreases i,
        {
            proof {
                lemma_val_bound(b@, pos + i as int, (k - i) as nat);
                lemma_pow256_values();
                assert(pow256((k - i) as nat) <= pow256(7nat));
            }
            i -= 1;
            acc = acc * 256 + (b[pos + i] as u64);
        }
        Ok((acc, k))
    }
}

/// One LEB128 varint at `pos`, without moving anything: the executable
/// counterpart of `dec_varint`, its value reduced modulo 2^64.
fn varint_at(b: &Vec<u8>, pos: usize) -> (r: Result<(u64, usize), DecodeError>)
    requires
        pos <= b@.len(),
    ensures
        match r {
            Ok(p) => dec_varint(b@, pos as int) matches Ok(q) && p.0 as nat == q.0
                % 0x1_0000_0000_0000_0000 && p.1 as int == q.1 && pos + p.1 <= b@.len() && b@.len() <= usize::MAX && p.1
                >= 1,
            Err(e) => dec_varint(b@, pos as int) == Err::<(nat, int), _>(e),
        },
    decreases b@.len() - pos,
{
    if pos >= b.len() {
        return Err(DecodeError::UnexpectedEof);
    }
    let byte = b[pos];
    if byte < 128 {
        proof {
            lemma_small_mod(byte as nat, 0x1_0000_0000_0000_0000);
        }
        Ok((byte as u64, 1))
    } else {
        match varint_at(b, pos + 1) {
            Ok((v, u)) => {
                let w = v.wrapping_mul(128).wrapping_add((byte - 128) as u64);
                proof {
                    let m: int = 0x1_0000_0000_0000_0000;
                    let raw = dec_varint(b@, pos as int + 1)->Ok_0.0;
                    lemma_mul_mod_noop_right(128, raw as int, m);
                    lemma_mul_mod_noop_right(128, v as int, m);
                    lemma_add_mod_noop((byte - 128) as int, 128 * (raw as int), m);
                    lemma_add_mod_noop((byte - 128) as int, 128 * (v as int), m);
                    lemma_small_mod((byte - 128) as nat, m as nat);
                }
                Ok((w, u + 1))
            },
            Err(e) => Err(e),
        }
    }
}

/// Relies on str::from_utf8 of std: it returns `Ok` exactly when the
/// bytes are valid UTF-8, and the returned str holds exactly those bytes,
/// so its characters are their decoding.
#[verifier::external_body]
fn utf8_to_string(v: &[u8]) -> (r: Option<String>)
    ensures
        r is Some <==> valid_utf8(v@),
        r matches Some(s) ==> s@ == decode_utf8(v@),
{
    match core::str::from_utf8(v) {
        Ok(s) => Some(s.to_string()),
        Err(_) => None,
    }
}

/// The two's-complement reading of a 16-bit unsigned value.
fn to_i16(v: u64) -> (r: i16)
    requires
        v < 0x1_0000,
    ensures
        r as int == signed_of(v as nat, 2),
{
    proof {
        lemma_pow256_values();
    }
    if v < 0x8000 {
        v as i16
    } else {
        ((v as i32) - 0x1_0000) as i16
    }
}

/// The two's-complement reading of a 32-bit unsigned value.
fn to_i32(v: u64) -> (r: i32)
    requires
        v < 0x1_0000_0000,
    ensures
        r as int == signed_of(v as nat, 4),
{
    proof {
        lemma_pow256_values();
    }
    if v < 0x8000_0000 {
        v as i32
    } else {
        ((v as i64) - 0x1_0000_0000) as i32
    }
}

/// The two's-complement reading of a 64-bit unsigned value.
fn to_i64(v: u64) -> (r: i64)
    ensures
        r as int == signed_of(v as nat, 8),
{
    proof {
        lemma_pow256_values();
    }
    if v < 0x8000_0000_0000_0000 {
        v as i64
    } else {
        ((v - 0x8000_0000_0000_0000) as i64) + i64::MIN
    }
}

/// The signed value a zig-zag encoded 32-bit unsigned value stands for.
fn unzigzag32(n: u32) -> (r: i32)
    ensures
        r as int == zigzag(n as nat),
{
    if n % 2 == 0 {
        (n / 2) as i32
    } else {
        (-((n / 2) as i64) - 1) as i32
    }
}

/// The signed value a zig-zag encoded 64-bit unsigned value stands for.
fn unzigzag64(n: u64) -> (r: i64)
    ensures
        r as int == zigzag(n as nat),
{
    if n % 2 == 0 {
        (n / 2) as i64
    } else {
        let h = (n / 2) as i64;
        -h - 1
    }
}

/// A sequential reader over an immutable byte buffer: an index into the
/// buffer that each successful read advances by exactly the bytes the
/// read consumed, and that no failed read moves.
pub struct Cursor<'a> {
    pub buf: &'a Vec<u8>,
    pub pos: usize,
}

impl<'a> Cursor<'a> {
    /// The position never passes the end of the buffer.
    pub open spec fn wf(self) -> bool {
        self.pos <= self.buf@.len()
    }

    /// A cursor at the start of `buf`.
    pub fn new(buf: &'a Vec<u8>) -> (c: Cursor<'a>)
        ensures
            c.wf(),
            c.pos == 0,
            c.buf@ == buf@,
    {
        Cursor { buf, pos: 0 }
    }

    /// One unsigned byte.
    pub fn read_u8(&mut self) -> (r: Result<u8, DecodeError>)
        requires
            old(self).wf(),
        ensures
            final(self).wf(),
            final(self).buf@ == old(self).buf@,
            old(self).pos <= final(self).pos,
            r is Ok ==> old(self).pos < final(self).pos,
            match r {
                Ok(v) => old(self).pos + 1 <= old(self).buf@.len() && v == old(self).buf@[old(
                    self,
                ).pos as int] && final(self).pos == old(self).pos + 1,
                Err(e) => e is UnexpectedEof && old(self).pos == old(self).buf@.len()
                    && final(self).pos == old(self).pos,
            },
    {
        if self.pos < self.buf.len() {
            let v = self.buf[self.pos];
            self.pos = self.pos + 1;
            Ok(v)
        } else {
            Err(DecodeError::UnexpectedEof)
        }
    }

    /// A 16-bit signed integer in the dialect's byte order.
    pub fn read_i16(&mut self, d: NbtEndian) -> (r: Result<i16, DecodeError>)
        requires
            old(self).wf(),
        ensures
            final(self).wf(),
            final(self).buf@ == old(self).buf@,
            old(self).pos <= final(self).pos,
            r is Ok ==> old(self).pos < final(self).pos,
            match r {
                Ok(v) => dec_i16(d, old(self).buf@, old(self).pos as int) matches Ok(p) && p.0
                    == v as int && final(self).pos == old(self).pos + p.1,
                Err(e) => dec_i16(d, old(self).buf@, old(self).pos as int) == Err::<(int, int), _>(e)
                    && final(self).pos == old(self).pos,
            },
    {
        let big = match d {
            NbtEndian::Big => true,
            _ => false,
        };
        match fixed_at(self.buf, self.pos, 2, big) {
            Ok((v, u)) => {
                proof {
                    lemma_pow256_values();
                    lemma_val_bound(self.buf@, self.pos as int, 2);
                }
                self.pos = self.pos + u;
                Ok(to_i16(v))
            },
            Err(e) => Err(e),
        }
    }

    /// A 32-bit signed integer: zig-zag varint in the network dialect,
    /// fixed four bytes in the dialect's byte order otherwise.
    pub fn read_i32(&mut self, d: NbtEndian) -> (r: Result<i32, DecodeError>)
        requires
            old(self).wf(),
        ensures
            final(self).wf(),
            final(self).buf@ == old(self).buf@,
            old(self).pos <= final(self).pos,
            r is Ok ==> old(self).pos < final(self).pos,
            match r {
                Ok(v) => dec_i32(d, old(self).buf@, old(self).pos as int) matches Ok(p) && p.0
                    == v as int && final(self).pos == old(self).pos + p.1,
                Err(e) => dec_i32(d, old(self).buf@, old(self).pos as int) == Err::<(int, int), _>(e)
                    && final(self).pos == old(self).pos,
            },
    {
        match d {
            NbtEndian::LittleNetwork => {
                match varint_at(self.buf, self.pos) {
                    Ok((v, u)) => {
                        let low = (v % 0x1_0000_0000) as u32;
                        proof {
                            let raw = dec_varint(self.buf@, self.pos as int)->Ok_0.0;
                            let m: int = 0x1_0000_0000;
                            assert((raw as int % (m * m)) % m == raw as int % m) by {
                                lemma_mod_mod(raw as int, m, m);
                            }
                            assert(v as int % m == raw as int % (m * m) % m);
                        }
                        self.pos = self.pos + u;
                        Ok(unzigzag32(low))
                    },
                    Err(e) => Err(e),
                }
            },
            _ => {
                let big = match d {
                    NbtEndian::Big => true,
                    _ => false,
                };
                match fixed_at(self.buf, self.pos, 4, big) {
                    Ok((v, u)) => {
                        proof {
                            lemma_pow256_values();
                            lemma_val_bound(self.buf@, self.pos as int, 4);
                        }
                        self.pos = self.pos + u;
                        Ok(to_i32(v))
                    },
                    Err(e) => Err(e),
                }
            },
        }
    }

    /// A 64-bit signed integer: zig-zag varint in the network dialect,
    /// fixed eight bytes in the dialect's byte order otherwise.
    pub fn read_i64(&mut self, d: NbtEndian) -> (r: Result<i64, DecodeError>)
        requires
            old(self).wf(),
        ensures
            final(self).wf(),
            final(self).buf@ == old(self).buf@,
            old(self).pos <= final(self).pos,
            r is Ok ==> old(self).pos < final(self).pos,
            match r {
                Ok(v) => dec_i64(d, old(self).buf@, old(self).pos as int) matches Ok(p) && p.0
                    == v as int && final(self).pos == old(self).pos + p.1,
                Err(e) => dec_i64(d, old(self).buf@, old(self).pos as int) == Err::<(int, int), _>(e)
                    && final(self).pos == old(self).pos,
            },
    {
        match d {
            NbtEndian::LittleNetwork => {
                match varint_at(self.buf, self.pos) {
                    Ok((v, u)) => {
                        self.pos = self.pos + u;
                        Ok(unzigzag64(v))
                    },
                    Err(e) => Err(e),
                }
            },
            _ => {
                let big = match d {
                    NbtEndian::Big => true,
                    _ => false,
                };
                match fixed_at(self.buf, self.pos, 8, big) {
                    Ok((v, u)) => {
                        proof {
                            lemma_pow256_values();
                            lemma_val_bound(self.buf@, self.pos as int, 8);
                        }
                        self.pos = self.pos + u;
                        Ok(to_i64(v))
                    },
                    Err(e) => Err(e),
                }
            },
        }
    }

    /// The bit pattern of a 32-bit float, in the dialect's byte order.
    pub fn read_f32_bits(&mut self, d: NbtEndian) -> (r: Result<u32, DecodeError>)
        requires
            old(self).wf(),
        ensures
            final(self).wf(),
            final(self).buf@ == old(self).buf@,
            old(self).pos <= final(self).pos,
            r is Ok ==> old(self).pos < final(self).pos,
            match r {
                Ok(v) => dec_f32(d, old(self).buf@, old(self).pos as int) matches Ok(p) && p.0
                    == v as nat && final(self).pos == old(self).pos + p.1,
                Err(e) => dec_f32(d, old(self).buf@, old(self).pos as int) == Err::<(nat, int), _>(e)
                    && final(self).pos == old(self).pos,
            },
    {
        let big = match d {
            NbtEndian::Big => true,
            _ => false,
        };
        match fixed_at(self.buf, self.pos, 4, big) {
            Ok((v, u)) => {
                proof {
                    lemma_pow256_values();
                    lemma_val_bound(self.buf@, self.pos as int, 4);
                }
                self.pos = self.pos + u;
                Ok(v as u32)
            },
            Err(e) => Err(e),
        }
    }

    /// The bit pattern of a 64-bit float, in the dialect's byte order.
    pub fn read_f64_bits(&mut self, d: NbtEndian) -> (r: Result<u64, DecodeError>)
        requires
            old(self).wf(),
        ensures
            final(self).wf(),
            final(self).buf@ == old(self).buf@,
            old(self).pos <= final(self).pos,
            r is Ok ==> old(self).pos < final(self).pos,
            match r {
                Ok(v) => dec_f64(d, old(self).buf@, old(self).pos as int) matches Ok(p) && p.0
                    == v as nat && final(self).pos == old(self).pos + p.1,
                Err(e) => dec_f64(d, old(self).buf@, old(self).pos as int) == Err::<(nat, int), _>(e)
                    && final(self).pos == old(self).pos,
            },
    {
        let big = match d {
            NbtEndian::Big => true,
            _ => false,
        };
        match fixed_at(self.buf, self.pos, 8, big) {
            Ok((v, u)) => {
                self.pos = self.pos + u;
                Ok(v)
            },
            Err(e) => Err(e),
        }
    }

    /// A length-prefixed UTF-8 string read through the dialect. On any
    /// failure the position does not move at all.
    pub fn read_string(&mut self, d: NbtEndian) -> (r: Result<String, DecodeError>)
        requires
            old(self).wf(),
        ensures
            final(self).wf(),
            final(self).buf@ == old(self).buf@,
            old(self).pos <= final(self).pos,
            r is Ok ==> old(self).pos < final(self).pos,
            match r {
                Ok(s) => dec_string(d, old(self).buf@, old(self).pos as int) matches Ok(p) && p.0
                    == s@ && final(self).pos == old(self).pos + p.1,
                Err(e) => dec_string(d, old(self).buf@, old(self).pos as int) == Err::<
                    (Seq<char>, int),
                    _,
                >(e) && final(self).pos == old(self).pos,
            },
    {
        let p0 = self.pos;
        let (n64, ul): (u64, usize) = match d {
            NbtEndian::LittleNetwork => {
                match varint_at(self.buf, p0) {
                    Ok((v, u)) => {
                        proof {
                            let raw = dec_varint(self.buf@, p0 as int)->Ok_0.0;
                            let m: int = 0x1_0000_0000;
                            assert((raw as int % (m * m)) % m == raw as int % m) by {
                                lemma_mod_mod(raw as int, m, m);
                            }
                        }
                        ((v % 0x1_0000_0000), u)
                    },
                    Err(e) => {
                        return Err(e);
                    },
                }
            },
            _ => {
                let big = match d {
                    NbtEndian::Big => true,
                    _ => false,
                };
                match fixed_at(self.buf, p0, 2, big) {
                    Ok((v, u)) => (v, u),
                    Err(e) => {
                        return Err(e);
                    },
                }
            },
        };
        if n64 > (self.buf.len() - (p0 + ul)) as u64 {
            return Err(DecodeError::UnexpectedEof);
        }
        let n = n64 as usize;
        let start = p0 + ul;
        let mut bytes: Vec<u8> = Vec::new();
        let mut i: usize = 0;
        while i < n
            invariant
                start + n <= self.buf@.len(),
                self.buf@.len() <= usize::MAX,
                i <= n,
                bytes@ == self.buf@.subrange(start as int, start + i as int),
            decreases n - i,
        {
            bytes.push(self.buf[start + i]);
            proof {
                assert(bytes@ =~= self.buf@.subrange(start as int, start + i + 1 as int));
            }
            i += 1;
        }
        proof {
            assert(bytes@ =~= self.buf@.subrange(start as int, start + n as int));
        }
        match utf8_to_string(bytes.as_slice()) {
            Some(s) => {
                self.pos = start + n;
                Ok(s)
            },
            None => Err(DecodeError::InvalidUtf8),
        }
    }
}

} // verus!
