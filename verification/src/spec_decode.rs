//! The mathematical description of the wire format: what each read
//! yields on a given byte sequence at a given position, and which error
//! it fails with otherwise. Every executable read and the whole decoder
//! are proved to agree with these functions.
//!
//! Each function returns the decoded value together with the exact
//! number of bytes it consumed. A handful of bounds tests that can never
//! fail on the paths the decoder takes (they restate what an inner read
//! already guarantees) keep the recursion measures decreasing.

use vstd::prelude::*;
use vstd::utf8::decode_utf8;
use vstd::utf8::valid_utf8;

use crate::types::DecodeError;
use crate::types::NbtEndian;
use crate::types::NbtHeader;
use crate::types::TagView;
use crate::types::valid_type_code;

verus! {

/// 256 to the power `k`: the number of values of `k` bytes.
pub open spec fn pow256(k: nat) -> nat
    decreases k,
{
    if k == 0 {
        1
    } else {
        256 * pow256((k - 1) as nat)
    }
}

/// The unsigned value of `k` bytes at `pos`, least significant byte first.
pub open spec fn le_val(b: Seq<u8>, pos: int, k: nat) -> nat
    decreases k,
{
    if k == 0 {
        0
    } else {
        (b[pos] as nat) + 256 * le_val(b, pos + 1, (k - 1) as nat)
    }
}

/// The unsigned value of `k` bytes at `pos`, most significant byte first.
pub open spec fn be_val(b: Seq<u8>, pos: int, k: nat) -> nat
    decreases k,
{
    if k == 0 {
        0
    } else {
        (b[pos + k - 1] as nat) + 256 * be_val(b, pos, (k - 1) as nat)
    }
}

/// Two's-complement reading of a `k`-byte unsigned value.
pub open spec fn signed_of(n: nat, k: nat) -> int {
    if n < pow256(k) / 2 {
        n as int
    } else {
        n as int - pow256(k)
    }
}

/// The signed value a zig-zag encoded unsigned value stands for.
pub open spec fn zigzag(n: nat) -> int {
    if n % 2 == 0 {
        (n / 2) as int
    } else {
        -((n / 2) as int) - 1
    }
}

/// One LEB128 varint at `pos`: low seven bits per byte, least significant
/// group first, the high bit marking continuation. The value is returned
/// unreduced; the dialect readers reduce it modulo their width.
pub open spec fn dec_varint(b: Seq<u8>, pos: int) -> Result<(nat, int), DecodeError>
    decreases b.len() - pos,
{
    if 0 <= pos && pos + 1 <= b.len() {
        if b[pos] < 128 {
            Ok(((b[pos] as nat), 1))
        } else {
            match dec_varint(b, pos + 1) {
                Ok((v, u)) => Ok((((b[pos] - 128) as nat) + 128 * v, u + 1)),
                Err(e) => Err(e),
            }
        }
    } else {
        Err(DecodeError::UnexpectedEof)
    }
}

/// A fixed-width unsigned read: `k` bytes at `pos` in the given order,
/// failing exactly when fewer than `k` bytes remain.
pub open spec fn dec_fixed(b: Seq<u8>, pos: int, k: nat, big: bool) -> Result<
    (nat, int),
    DecodeError,
> {
    if 0 <= pos && pos + k <= b.len() {
        if big {
            Ok((be_val(b, pos, k), k as int))
        } else {
            Ok((le_val(b, pos, k), k as int))
        }
    } else {
        Err(DecodeError::UnexpectedEof)
    }
}

/// A 16-bit signed integer: fixed-width in every dialect, big-endian only
/// in the big-endian one.
pub open spec fn dec_i16(d: NbtEndian, b: Seq<u8>, pos: int) -> Result<(int, int), DecodeError> {
    match dec_fixed(b, pos, 2, d is Big) {
        Ok((v, u)) => Ok((signed_of(v, 2), u)),
        Err(e) => Err(e),
    }
}

/// A 32-bit signed integer: zig-zag varint in the network dialect, fixed
/// four bytes otherwise.
pub open spec fn dec_i32(d: NbtEndian, b: Seq<u8>, pos: int) -> Result<(int, int), DecodeError> {
    if d is LittleNetwork {
        match dec_varint(b, pos) {
            Ok((v, u)) => Ok((zigzag(v % 0x1_0000_0000), u)),
            Err(e) => Err(e),
        }
    } else {
        match dec_fixed(b, pos, 4, d is Big) {
            Ok((v, u)) => Ok((signed_of(v, 4), u)),
            Err(e) => Err(e),
        }
    }
}

/// A 64-bit signed integer: zig-zag varint in the network dialect, fixed
/// eight bytes otherwise.
pub open spec fn dec_i64(d: NbtEndian, b: Seq<u8>, pos: int) -> Result<(int, int), DecodeError> {
    if d is LittleNetwork {
        match dec_varint(b, pos) {
            Ok((v, u)) => Ok((zigzag(v % 0x1_0000_0000_0000_0000), u)),
            Err(e) => Err(e),
        }
    } else {
        match dec_fixed(b, pos, 8, d is Big) {
            Ok((v, u)) => Ok((signed_of(v, 8), u)),
            Err(e) => Err(e),
        }
    }
}

/// The bit pattern of a 32-bit float: always fixed-width.
pub open spec fn dec_f32(d: NbtEndian, b: Seq<u8>, pos: int) -> Result<(nat, int), DecodeError> {
    dec_fixed(b, pos, 4, d is Big)
}

/// The bit pattern of a 64-bit float: always fixed-width.
pub open spec fn dec_f64(d: NbtEndian, b: Seq<u8>, pos: int) -> Result<(nat, int), DecodeError> {
    dec_fixed(b, pos, 8, d is Big)
}

/// A string's byte length: unsigned varint in the network dialect, an
/// unsigned 16-bit integer otherwise.
pub open spec fn dec_strlen(d: NbtEndian, b: Seq<u8>, pos: int) -> Result<
    (nat, int),
    DecodeError,
> {
    if d is LittleNetwork {
        match dec_varint(b, pos) {
            Ok((v, u)) => Ok((v % 0x1_0000_0000, u)),
            Err(e) => Err(e),
        }
    } else {
        dec_fixed(b, pos, 2, d is Big)
    }
}

/// A length-prefixed UTF-8 string: the length, that many bytes, decoded
/// to characters; `UnexpectedEof` when the bytes run out, `InvalidUtf8`
/// when they are not UTF-8.
pub open spec fn dec_string(d: NbtEndian, b: Seq<u8>, pos: int) -> Result<
    (Seq<char>, int),
    DecodeError,
> {
    match dec_strlen(d, b, pos) {
        Ok((n, u)) => {
            if 0 <= pos && pos + u + n <= b.len() {
                if valid_utf8(b.subrange(pos + u, pos + u + n)) {
                    Ok((decode_utf8(b.subrange(pos + u, pos + u + n)), u + n))
                } else {
                    Err(DecodeError::InvalidUtf8)
                }
            } else {
                Err(DecodeError::UnexpectedEof)
            }
        },
        Err(e) => Err(e),
    }
}

/// The first index whose entry is named `nm`, or the length when no
/// entry is.
pub open spec fn find_name(s: Seq<(Seq<char>, TagView)>, nm: Seq<char>) -> int
    decreases s.len(),
{
    if s.len() == 0 {
        0
    } else if s[0].0 == nm {
        0
    } else {
        1 + find_name(s.subrange(1, s.len() as int), nm)
    }
}

/// What `find_name` finds: everything before it is named otherwise, and
/// it lands on a match unless there is none.
pub proof fn lemma_find_name(s: Seq<(Seq<char>, TagView)>, nm: Seq<char>)
    ensures
        0 <= find_name(s, nm) <= s.len(),
        forall|k: int| 0 <= k < find_name(s, nm) ==> s[k].0 != nm,
        find_name(s, nm) < s.len() ==> s[find_name(s, nm)].0 == nm,
    decreases s.len(),
{
    if s.len() > 0 && s[0].0 != nm {
        let sub = s.subrange(1, s.len() as int);
        lemma_find_name(sub, nm);
        assert(forall|k: int| 1 <= k < s.len() ==> s[k] == sub[k - 1]);
    }
}

/// Insert `(nm, t)` into an ordered name-keyed sequence: a present name
/// keeps its place and takes the new tag, an absent one goes to the end.
pub open spec fn upsert(
    s: Seq<(Seq<char>, TagView)>,
    nm: Seq<char>,
    t: TagView,
) -> Seq<(Seq<char>, TagView)> {
    if find_name(s, nm) < s.len() {
        s.update(find_name(s, nm), (nm, t))
    } else {
        s.push((nm, t))
    }
}

/// One named tag at `pos`: a type byte, then (unless it is the end
/// marker) a name and a payload. The end marker decodes to the unnamed
/// `Empty` after exactly one byte.
pub open spec fn dec_named(d: NbtEndian, b: Seq<u8>, pos: int) -> Result<
    ((Seq<char>, TagView), int),
    DecodeError,
>
    decreases b.len() - pos, 0int, 0nat,
{
    if 0 <= pos && pos + 1 <= b.len() {
        let code = b[pos];
        if code == 0 {
            Ok(((Seq::empty(), TagView::Empty), 1))
        } else if !valid_type_code(code) {
            Err(DecodeError::UnknownTagType(code))
        } else {
            match dec_string(d, b, pos + 1) {
                Ok((nm, un)) => {
                    if 0 <= un && pos + 1 + un <= b.len() {
                        match dec_payload(d, b, pos + 1 + un, code) {
                            Ok((t, ut)) => Ok(((nm, t), 1 + un + ut)),
                            Err(e) => Err(e),
                        }
                    } else {
                        Err(DecodeError::UnexpectedEof)
                    }
                },
                Err(e) => Err(e),
            }
        }
    } else {
        Err(DecodeError::UnexpectedEof)
    }
}

/// Named tags repeated until an end marker, accumulated last-write-wins.
pub open spec fn dec_entries(
    d: NbtEndian,
    b: Seq<u8>,
    pos: int,
    acc: Seq<(Seq<char>, TagView)>,
) -> Result<(Seq<(Seq<char>, TagView)>, int), DecodeError>
    decreases b.len() - pos, 1int, 0nat,
{
    match dec_named(d, b, pos) {
        Ok(((nm, t), u)) => {
            if t is Empty {
                Ok((acc, u))
            } else if 1 <= u && pos + u <= b.len() {
                match dec_entries(d, b, pos + u, upsert(acc, nm, t)) {
                    Ok((es, ur)) => Ok((es, u + ur)),
                    Err(e) => Err(e),
                }
            } else {
                Err(DecodeError::UnexpectedEof)
            }
        },
        Err(e) => Err(e),
    }
}

/// The payload of a tag whose type byte was `code`.
pub open spec fn dec_payload(d: NbtEndian, b: Seq<u8>, pos: int, code: u8) -> Result<
    (TagView, int),
    DecodeError,
>
    decreases b.len() - pos, 2int, 0nat,
{
    if code == 0 {
        Ok((TagView::Empty, 0))
    } else if code == 1 {
        if 0 <= pos && pos + 1 <= b.len() {
            Ok((TagView::Byte(signed_of(b[pos] as nat, 1) as i8), 1))
        } else {
            Err(DecodeError::UnexpectedEof)
        }
    } else if code == 2 {
        match dec_i16(d, b, pos) {
            Ok((v, u)) => Ok((TagView::Int16(v as i16), u)),
            Err(e) => Err(e),
        }
    } else if code == 3 {
        match dec_i32(d, b, pos) {
            Ok((v, u)) => Ok((TagView::Int32(v as i32), u)),
            Err(e) => Err(e),
        }
    } else if code == 4 {
        match dec_i64(d, b, pos) {
            Ok((v, u)) => Ok((TagView::Int64(v as i64), u)),
            Err(e) => Err(e),
        }
    } else if code == 5 {
        match dec_f32(d, b, pos) {
            Ok((v, u)) => Ok((TagView::Float32(v as u32), u)),
            Err(e) => Err(e),
        }
    } else if code == 6 {
        match dec_f64(d, b, pos) {
            Ok((v, u)) => Ok((TagView::Float64(v as u64), u)),
            Err(e) => Err(e),
        }
    } else if code == 8 {
        match dec_string(d, b, pos) {
            Ok((s, u)) => Ok((TagView::String(s), u)),
            Err(e) => Err(e),
        }
    } else if code == 9 {
        if 0 <= pos && pos + 1 <= b.len() {
            let ecode = b[pos];
            match dec_listlen(d, b, pos + 1) {
                Ok((n, ul)) => {
                    if n < 0 {
                        Err(DecodeError::InvalidListLength(n as i32))
                    } else if ul < 0 || pos + 1 + ul > b.len() {
                        Err(DecodeError::UnexpectedEof)
                    } else if n == 0 || ecode == 0 {
                        Ok((TagView::List(Seq::empty()), 1 + ul))
                    } else {
                        match dec_elems(d, b, pos + 1 + ul, ecode, n as nat) {
                            Ok((elems, ue)) => Ok((TagView::List(elems), 1 + ul + ue)),
                            Err(e) => Err(e),
                        }
                    }
                },
                Err(e) => Err(e),
            }
        } else {
            Err(DecodeError::UnexpectedEof)
        }
    } else if code == 10 {
        match dec_entries(d, b, pos, Seq::empty()) {
            Ok((es, u)) => Ok((TagView::Compound(es), u)),
            Err(e) => Err(e),
        }
    } else {
        Err(DecodeError::UnknownTagType(code))
    }
}

/// Exactly `n` nameless payloads of element type `ecode`, one after the
/// other.
pub open spec fn dec_elems(d: NbtEndian, b: Seq<u8>, pos: int, ecode: u8, n: nat) -> Result<
    (Seq<TagView>, int),
    DecodeError,
>
    decreases b.len() - pos, 3int, n,
{
    if n == 0 {
        Ok((Seq::empty(), 0))
    } else {
        match dec_payload(d, b, pos, ecode) {
            Ok((t, u)) => {
                if 1 <= u && pos + u <= b.len() {
                    match dec_elems(d, b, pos + u, ecode, (n - 1) as nat) {
                        Ok((rest, ur)) => Ok((seq![t] + rest, u + ur)),
                        Err(e) => Err(e),
                    }
                } else {
                    Err(DecodeError::UnexpectedEof)
                }
            },
            Err(e) => Err(e),
        }
    }
}

/// A list's element count: the dialect's signed 32-bit integer.
pub open spec fn dec_listlen(d: NbtEndian, b: Seq<u8>, pos: int) -> Result<
    (int, int),
    DecodeError,
> {
    dec_i32(d, b, pos)
}

/// How many bytes the chosen header preamble takes.
pub open spec fn header_len(h: NbtHeader) -> int {
    if h is NoHeader {
        0
    } else {
        8
    }
}

/// The whole decode: the optional header (two little-endian signed 32-bit
/// integers, whatever the dialect), then one named root tag. Trailing
/// bytes after the root tag are not an error.
pub open spec fn spec_decode(b: Seq<u8>, h: NbtHeader, d: NbtEndian) -> Result<
    (Seq<char>, TagView, Option<(int, int)>),
    DecodeError,
> {
    if b.len() < header_len(h) {
        Err(DecodeError::UnexpectedEof)
    } else {
        let hdr = if h is NoHeader {
            Option::None
        } else {
            Option::Some((signed_of(le_val(b, 0, 4), 4), signed_of(le_val(b, 4, 4), 4)))
        };
        match dec_named(d, b, header_len(h)) {
            Ok(((nm, t), _u)) => Ok((nm, t, hdr)),
            Err(e) => Err(e),
        }
    }
}

} // verus!
