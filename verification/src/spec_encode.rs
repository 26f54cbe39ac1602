//! The spec-level encoder: the byte sequence that carries a given tag
//! tree in a given dialect. Nothing executable lives here; the encoder
//! exists so that the round-trip laws can say exactly which buffers are
//! valid and what they decode to.

use vstd::prelude::*;
use vstd::utf8::encode_utf8;

use crate::spec_decode::pow256;
use crate::types::NbtEndian;
use crate::types::TagView;
use crate::types::type_code;

verus! {

/// `k` bytes carrying `n`, least significant byte first.
pub open spec fn le_bytes(n: nat, k: nat) -> Seq<u8>
    decreases k,
{
    if k == 0 {
        Seq::empty()
    } else {
        seq![(n % 256) as u8] + le_bytes(n / 256, (k - 1) as nat)
    }
}

/// `k` bytes carrying `n`, most significant byte first.
pub open spec fn be_bytes(n: nat, k: nat) -> Seq<u8>
    decreases k,
{
    if k == 0 {
        Seq::empty()
    } else {
        be_bytes(n / 256, (k - 1) as nat) + seq![(n % 256) as u8]
    }
}

/// The two's-complement carrier of a `k`-byte signed value.
pub open spec fn unsigned_of(v: int, k: nat) -> nat {
    if v >= 0 {
        v as nat
    } else {
        (v + pow256(k)) as nat
    }
}

/// The LEB128 bytes of an unsigned value.
pub open spec fn varint_bytes(n: nat) -> Seq<u8>
    decreases n,
{
    if n < 128 {
        seq![n as u8]
    } else {
        seq![(n % 128 + 128) as u8] + varint_bytes(n / 128)
    }
}

/// The zig-zag carrier of a signed value.
pub open spec fn zigzag_of(v: int) -> nat {
    if v >= 0 {
        (2 * v) as nat
    } else {
        (-2 * v - 1) as nat
    }
}

/// A fixed-width unsigned value in the dialect's byte order.
pub open spec fn enc_fixed(d: NbtEndian, n: nat, k: nat) -> Seq<u8> {
    if d is Big {
        be_bytes(n, k)
    } else {
        le_bytes(n, k)
    }
}

/// A string's byte length field.
pub open spec fn enc_strlen(d: NbtEndian, n: nat) -> Seq<u8> {
    if d is LittleNetwork {
        varint_bytes(n)
    } else {
        enc_fixed(d, n, 2)
    }
}

/// A length-prefixed UTF-8 string.
pub open spec fn enc_string(d: NbtEndian, s: Seq<char>) -> Seq<u8> {
    enc_strlen(d, encode_utf8(s).len()) + encode_utf8(s)
}

/// A 16-bit signed integer: fixed-width in every dialect.
pub open spec fn enc_i16(d: NbtEndian, v: int) -> Seq<u8> {
    enc_fixed(d, unsigned_of(v, 2), 2)
}

/// A 32-bit signed integer: zig-zag varint in the network dialect.
pub open spec fn enc_i32(d: NbtEndian, v: int) -> Seq<u8> {
    if d is LittleNetwork {
        varint_bytes(zigzag_of(v))
    } else {
        enc_fixed(d, unsigned_of(v, 4), 4)
    }
}

/// A 64-bit signed integer: zig-zag varint in the network dialect.
pub open spec fn enc_i64(d: NbtEndian, v: int) -> Seq<u8> {
    if d is LittleNetwork {
        varint_bytes(zigzag_of(v))
    } else {
        enc_fixed(d, unsigned_of(v, 8), 8)
    }
}

/// The payload bytes of one tag.
pub open spec fn enc_payload(d: NbtEndian, t: TagView) -> Seq<u8>
    decreases t,
{
    match t {
        TagView::Empty => Seq::empty(),
        TagView::Byte(v) => seq![(unsigned_of(v as int, 1)) as u8],
        TagView::Int16(v) => enc_i16(d, v as int),
        TagView::Int32(v) => enc_i32(d, v as int),
        TagView::Int64(v) => enc_i64(d, v as int),
        TagView::Float32(v) => enc_fixed(d, v as nat, 4),
        TagView::Float64(v) => enc_fixed(d, v as nat, 8),
        TagView::String(s) => enc_string(d, s),
        TagView::List(elems) => {
            if elems.len() == 0 {
                seq![0u8] + enc_i32(d, 0)
            } else {
                seq![type_code(elems[0])] + enc_i32(d, elems.len() as int) + enc_elems(d, elems)
            }
        },
        TagView::Compound(entries) => enc_entries(d, entries) + seq![0u8],
    }
}

/// The payloads of a list's elements, one after the other.
pub open spec fn enc_elems(d: NbtEndian, s: Seq<TagView>) -> Seq<u8>
    decreases s,
{
    if s.len() == 0 {
        Seq::empty()
    } else {
        enc_payload(d, s[0]) + enc_elems(d, s.subrange(1, s.len() as int))
    }
}

/// One compound entry: type byte, name, payload.
pub open spec fn enc_entry(d: NbtEndian, e: (Seq<char>, TagView)) -> Seq<u8>
    decreases e,
{
    seq![type_code(e.1)] + enc_string(d, e.0) + enc_payload(d, e.1)
}

/// A compound's entries, one after the other, without the end marker.
pub open spec fn enc_entries(d: NbtEndian, s: Seq<(Seq<char>, TagView)>) -> Seq<u8>
    decreases s,
{
    if s.len() == 0 {
        Seq::empty()
    } else {
        enc_entry(d, s[0]) + enc_entries(d, s.subrange(1, s.len() as int))
    }
}

/// One named tag as it stands in the stream: the end marker alone for
/// the unnamed `Empty`, else type byte, name and payload.
pub open spec fn enc_named(d: NbtEndian, nm: Seq<char>, t: TagView) -> Seq<u8> {
    if t is Empty {
        seq![0u8]
    } else {
        seq![type_code(t)] + enc_string(d, nm) + enc_payload(d, t)
    }
}

/// The 8-byte header preamble: two little-endian signed 32-bit integers,
/// whatever the dialect.
pub open spec fn enc_header(first: int, second: int) -> Seq<u8> {
    le_bytes(unsigned_of(first, 4), 4) + le_bytes(unsigned_of(second, 4), 4)
}

} // verus!
