//! The library's laws: encoding a well-formed tree and decoding it back
//! is the identity, in every dialect; the dialects agree on what a tree
//! is; an unrecognized type byte is reported as such; and the header is
//! read little-endian whatever the body dialect.

use vstd::arithmetic::div_mod::lemma_small_mod;
use vstd::prelude::*;
use vstd::utf8::encode_utf8;
use vstd::utf8::encode_utf8_decode_utf8;
use vstd::utf8::encode_utf8_valid_utf8;

use crate::spec_decode::be_val;
use crate::spec_decode::dec_elems;
use crate::spec_decode::dec_entries;
use crate::spec_decode::dec_named;
use crate::spec_decode::dec_payload;
use crate::spec_decode::dec_string;
use crate::spec_decode::dec_varint;
use crate::spec_decode::find_name;
use crate::spec_decode::header_len;
use crate::spec_decode::le_val;
use crate::spec_decode::lemma_find_name;
use crate::spec_decode::pow256;
use crate::spec_decode::signed_of;
use crate::spec_decode::spec_decode;
use crate::spec_decode::upsert;
use crate::spec_decode::zigzag;
use crate::spec_encode::be_bytes;
use crate::spec_encode::enc_entries;
use crate::spec_encode::enc_entry;
use crate::spec_encode::enc_elems;
use crate::spec_encode::enc_header;
use crate::spec_encode::enc_i32;
use crate::spec_encode::enc_named;
use crate::spec_encode::enc_payload;
use crate::spec_encode::enc_string;
use crate::spec_encode::enc_strlen;
use crate::spec_encode::le_bytes;
use crate::spec_encode::unsigned_of;
use crate::spec_encode::varint_bytes;
use crate::spec_encode::zigzag_of;
use crate::types::DecodeError;
use crate::types::NbtEndian;
use crate::types::NbtHeader;
use crate::types::TagView;
use crate::types::type_code;
use crate::types::valid_type_code;
use crate::types::wf_named;
use crate::types::wf_tag;

verus! {

/// Fixed-width byte strings have their width.
proof fn lemma_bytes_len(n: nat, k: nat)
    ensures
        le_bytes(n, k).len() == k,
        be_bytes(n, k).len() == k,
    decreases k,
{
    if k > 0 {
        lemma_bytes_len(n / 256, (k - 1) as nat);
    }
}

proof fn lemma_pow256_pos(k: nat)
    ensures
        pow256(k) >= 1,
    decreases k,
{
    if k > 0 {
        lemma_pow256_pos((k - 1) as nat);
    }
}

proof fn lemma_div_bound(n: nat, k: nat)
    requires
        k >= 1,
        n < pow256(k),
    ensures
        n / 256 < pow256((k - 1) as nat),
{
    assert(pow256(k) == 256 * pow256((k - 1) as nat));
    assert(n / 256 < pow256((k - 1) as nat)) by (nonlinear_arith)
        requires
            n < 256 * pow256((k - 1) as nat),
    ;
}

/// Reading back `k` little-endian bytes of `n` yields `n`.
proof fn lemma_le_roundtrip(b: Seq<u8>, pos: int, n: nat, k: nat)
    requires
        0 <= pos,
        pos + k <= b.len(),
        n < pow256(k),
        b.subrange(pos, pos + k) == le_bytes(n, k),
    ensures
        le_val(b, pos, k) == n,
    decreases k,
{
    lemma_bytes_len(n, k);
    if k > 0 {
        lemma_bytes_len(n / 256, (k - 1) as nat);
        assert(b[pos] == le_bytes(n, k)[0]);
        assert(b[pos] == n % 256);
        assert(b.subrange(pos + 1, pos + k) =~= le_bytes(n, k).subrange(1, k as int));
        assert(le_bytes(n, k).subrange(1, k as int) =~= le_bytes(n / 256, (k - 1) as nat));
        lemma_div_bound(n, k);
        lemma_le_roundtrip(b, pos + 1, n / 256, (k - 1) as nat);
    }
}

/// Reading back `k` big-endian bytes of `n` yields `n`.
proof fn lemma_be_roundtrip(b: Seq<u8>, pos: int, n: nat, k: nat)
    requires
        0 <= pos,
        pos + k <= b.len(),
        n < pow256(k),
        b.subrange(pos, pos + k) == be_bytes(n, k),
    ensures
        be_val(b, pos, k) == n,
    decreases k,
{
    lemma_bytes_len(n, k);
    if k > 0 {
        lemma_bytes_len(n / 256, (k - 1) as nat);
        assert(b[pos + k - 1] == be_bytes(n, k)[k - 1]);
        assert(b[pos + k - 1] == n % 256);
        assert(b.subrange(pos, pos + k - 1) =~= be_bytes(n, k).subrange(0, k - 1));
        assert(be_bytes(n, k).subrange(0, k - 1) =~= be_bytes(n / 256, (k - 1) as nat));
        lemma_div_bound(n, k);
        lemma_be_roundtrip(b, pos, n / 256, (k - 1) as nat);
    }
}

/// A varint's byte string is never empty.
proof fn lemma_varint_len(n: nat)
    ensures
        varint_bytes(n).len() >= 1,
    decreases n,
{
    if n >= 128 {
        lemma_varint_len(n / 128);
    }
}

/// Reading back the LEB128 bytes of `n` yields `n`.
proof fn lemma_varint_roundtrip(b: Seq<u8>, pos: int, n: nat)
    requires
        0 <= pos,
        pos + varint_bytes(n).len() <= b.len(),
        b.subrange(pos, pos + varint_bytes(n).len()) == varint_bytes(n),
    ensures
        dec_varint(b, pos) == Ok::<(nat, int), DecodeError>(
            (n, varint_bytes(n).len() as int),
        ),
    decreases n,
{
    lemma_varint_len(n);
    if n < 128 {
        assert(b[pos] == varint_bytes(n)[0]);
    } else {
        lemma_varint_len(n / 128);
        assert(b[pos] == varint_bytes(n)[0]);
        assert(b[pos] == n % 128 + 128);
        let rest = varint_bytes(n / 128);
        assert(b.subrange(pos + 1, pos + 1 + rest.len()) =~= varint_bytes(n).subrange(
            1,
            varint_bytes(n).len() as int,
        ));
        assert(varint_bytes(n).subrange(1, varint_bytes(n).len() as int) =~= rest);
        lemma_varint_roundtrip(b, pos + 1, n / 128);
        assert((b[pos] - 128) + 128 * (n / 128) == n % 128 + 128 * (n / 128));
    }
}

/// Concrete powers of 256.
proof fn lemma_pow256_values()
    ensures
        pow256(1) == 0x100,
        pow256(2) == 0x1_0000,
        pow256(4) == 0x1_0000_0000,
        pow256(8) == 0x1_0000_0000_0000_0000,
{
    assert(pow256(0) == 1);
    assert(pow256(1) == 0x100);
    assert(pow256(2) == 0x1_0000);
    assert(pow256(3) == 0x100_0000);
    assert(pow256(4) == 0x1_0000_0000);
    assert(pow256(5) == 0x100_0000_0000);
    assert(pow256(6) == 0x1_0000_0000_0000);
    assert(pow256(7) == 0x100_0000_0000_0000);
    assert(pow256(8) == 0x1_0000_0000_0000_0000);
}

/// Carrying a signed value as `k` unsigned bytes and reading it back
/// two's-complement yields the value.
proof fn lemma_signed_roundtrip(v: int, k: nat)
    requires
        -(pow256(k) / 2) <= v < pow256(k) / 2,
    ensures
        unsigned_of(v, k) < pow256(k),
        signed_of(unsigned_of(v, k), k) == v,
{
    lemma_pow256_pos(k);
}

/// Zig-zag then un-zig-zag is the identity, and 32-bit values stay
/// within 32 bits.
proof fn lemma_zigzag_roundtrip(v: int)
    ensures
        zigzag(zigzag_of(v)) == v,
        -0x8000_0000 <= v < 0x8000_0000 ==> zigzag_of(v) < 0x1_0000_0000,
        -0x8000_0000_0000_0000 <= v < 0x8000_0000_0000_0000 ==> zigzag_of(v)
            < 0x1_0000_0000_0000_0000,
{
}

/// Reading back an encoded string yields its characters.
proof fn lemma_string_roundtrip(d: NbtEndian, b: Seq<u8>, pos: int, s: Seq<char>)
    requires
        0 <= pos,
        encode_utf8(s).len() <= 0xFFFF,
        pos + enc_string(d, s).len() <= b.len(),
        b.subrange(pos, pos + enc_string(d, s).len()) == enc_string(d, s),
    ensures
        dec_string(d, b, pos) == Ok::<(Seq<char>, int), DecodeError>(
            (s, enc_string(d, s).len() as int),
        ),
{
    let u8s = encode_utf8(s);
    let lenb = enc_strlen(d, u8s.len());
    lemma_pow256_values();
    if d is LittleNetwork {
        lemma_varint_len(u8s.len());
        assert(b.subrange(pos, pos + lenb.len()) =~= enc_string(d, s).subrange(
            0,
            lenb.len() as int,
        ));
        assert(enc_string(d, s).subrange(0, lenb.len() as int) =~= lenb);
        lemma_varint_roundtrip(b, pos, u8s.len());
        lemma_small_mod(u8s.len(), 0x1_0000_0000);
    } else {
        lemma_bytes_len(u8s.len(), 2);
        assert(b.subrange(pos, pos + 2) =~= enc_string(d, s).subrange(0, 2));
        assert(enc_string(d, s).subrange(0, 2) =~= lenb);
        if d is Big {
            lemma_be_roundtrip(b, pos, u8s.len(), 2);
        } else {
            lemma_le_roundtrip(b, pos, u8s.len(), 2);
        }
    }
    let ul = lenb.len() as int;
    assert(b.subrange(pos + ul, pos + ul + u8s.len()) =~= enc_string(d, s).subrange(
        ul,
        enc_string(d, s).len() as int,
    ));
    assert(enc_string(d, s).subrange(ul, enc_string(d, s).len() as int) =~= u8s);
    encode_utf8_valid_utf8(s);
    encode_utf8_decode_utf8(s);
}

/// Every tag kind's wire code is recognized.
proof fn lemma_type_code_valid(t: TagView)
    ensures
        valid_type_code(type_code(t)),
{
}

/// A payload is empty on the wire only for the end marker.
proof fn lemma_enc_payload_len(d: NbtEndian, t: TagView)
    ensures
        type_code(t) != 0 ==> enc_payload(d, t).len() >= 1,
{
    match t {
        TagView::Int16(v) => {
            lemma_bytes_len(unsigned_of(v as int, 2), 2);
        },
        TagView::Int32(v) => {
            if d is LittleNetwork {
                lemma_varint_len(zigzag_of(v as int));
            } else {
                lemma_bytes_len(unsigned_of(v as int, 4), 4);
            }
        },
        TagView::Int64(v) => {
            if d is LittleNetwork {
                lemma_varint_len(zigzag_of(v as int));
            } else {
                lemma_bytes_len(unsigned_of(v as int, 8), 8);
            }
        },
        TagView::Float32(v) => {
            lemma_bytes_len(v as nat, 4);
        },
        TagView::Float64(v) => {
            lemma_bytes_len(v as nat, 8);
        },
        TagView::String(s) => {
            if d is LittleNetwork {
                lemma_varint_len(encode_utf8(s).len());
            } else {
                lemma_bytes_len(encode_utf8(s).len(), 2);
            }
        },
        _ => {},
    }
}

/// Decoding the payload bytes of a well-formed tag yields the tag.
proof fn lemma_payload_roundtrip(d: NbtEndian, b: Seq<u8>, pos: int, t: TagView)
    requires
        wf_tag(t),
        0 <= pos,
        pos + enc_payload(d, t).len() <= b.len(),
        b.subrange(pos, pos + enc_payload(d, t).len()) == enc_payload(d, t),
    ensures
        dec_payload(d, b, pos, type_code(t)) == Ok::<(TagView, int), DecodeError>(
            (t, enc_payload(d, t).len() as int),
        ),
    decreases t, 0int,
{
    lemma_pow256_values();
    match t {
        TagView::Byte(v) => {
            assert(b[pos] == enc_payload(d, t)[0]);
            lemma_signed_roundtrip(v as int, 1);
        },
        TagView::Int16(v) => {
            lemma_bytes_len(unsigned_of(v as int, 2), 2);
            lemma_signed_roundtrip(v as int, 2);
            if d is Big {
                lemma_be_roundtrip(b, pos, unsigned_of(v as int, 2), 2);
            } else {
                lemma_le_roundtrip(b, pos, unsigned_of(v as int, 2), 2);
            }
        },
        TagView::Int32(v) => {
            if d is LittleNetwork {
                lemma_zigzag_roundtrip(v as int);
                lemma_varint_roundtrip(b, pos, zigzag_of(v as int));
                lemma_small_mod(zigzag_of(v as int), 0x1_0000_0000);
            } else {
                lemma_bytes_len(unsigned_of(v as int, 4), 4);
                lemma_signed_roundtrip(v as int, 4);
                if d is Big {
                    lemma_be_roundtrip(b, pos, unsigned_of(v as int, 4), 4);
                } else {
                    lemma_le_roundtrip(b, pos, unsigned_of(v as int, 4), 4);
                }
            }
        },
        TagView::Int64(v) => {
            if d is LittleNetwork {
                lemma_zigzag_roundtrip(v as int);
                lemma_varint_roundtrip(b, pos, zigzag_of(v as int));
                lemma_small_mod(zigzag_of(v as int), 0x1_0000_0000_0000_0000);
            } else {
                lemma_bytes_len(unsigned_of(v as int, 8), 8);
                lemma_signed_roundtrip(v as int, 8);
                if d is Big {
                    lemma_be_roundtrip(b, pos, unsigned_of(v as int, 8), 8);
                } else {
                    lemma_le_roundtrip(b, pos, unsigned_of(v as int, 8), 8);
                }
            }
        },
        TagView::Float32(v) => {
            lemma_bytes_len(v as nat, 4);
            if d is Big {
                lemma_be_roundtrip(b, pos, v as nat, 4);
            } else {
                lemma_le_roundtrip(b, pos, v as nat, 4);
            }
        },
        TagView::Float64(v) => {
            lemma_bytes_len(v as nat, 8);
            if d is Big {
                lemma_be_roundtrip(b, pos, v as nat, 8);
            } else {
                lemma_le_roundtrip(b, pos, v as nat, 8);
            }
        },
        TagView::String(s) => {
            lemma_string_roundtrip(d, b, pos, s);
        },
        TagView::List(elems) => {
            let cb = enc_i32(d, elems.len() as int);
            if elems.len() == 0 {
                assert(b[pos] == enc_payload(d, t)[0]);
                assert(b.subrange(pos + 1, pos + 1 + cb.len()) =~= enc_payload(d, t).subrange(
                    1,
                    enc_payload(d, t).len() as int,
                ));
                assert(enc_payload(d, t).subrange(1, enc_payload(d, t).len() as int) =~= cb);
                lemma_list_count_roundtrip(d, b, pos + 1, elems.len() as int);
                assert(elems =~= Seq::<TagView>::empty());
            } else {
                let ecode = type_code(elems[0]);
                let eb = enc_elems(d, elems);
                assert(b[pos] == enc_payload(d, t)[0]);
                assert(b[pos] == ecode);
                assert(ecode != 0);
                assert(b.subrange(pos + 1, pos + 1 + cb.len()) =~= enc_payload(d, t).subrange(
                    1,
                    1 + cb.len() as int,
                ));
                assert(enc_payload(d, t).subrange(1, 1 + cb.len() as int) =~= cb);
                assert(b.subrange(pos + 1 + cb.len(), pos + enc_payload(d, t).len())
                    =~= enc_payload(d, t).subrange(
                    1 + cb.len() as int,
                    enc_payload(d, t).len() as int,
                ));
                assert(enc_payload(d, t).subrange(
                    1 + cb.len() as int,
                    enc_payload(d, t).len() as int,
                ) =~= eb);
                lemma_list_count_roundtrip(d, b, pos + 1, elems.len() as int);
                lemma_elems_roundtrip(d, b, pos + 1 + cb.len(), elems, ecode);
            }
        },
        TagView::Compound(entries) => {
            let eb = enc_entries(d, entries);
            assert(b.subrange(pos, pos + eb.len()) =~= enc_payload(d, t).subrange(
                0,
                eb.len() as int,
            ));
            assert(enc_payload(d, t).subrange(0, eb.len() as int) =~= eb);
            assert(b[pos + eb.len()] == enc_payload(d, t)[eb.len() as int]);
            lemma_entries_roundtrip(d, b, pos, entries, Seq::empty());
            assert(Seq::<(Seq<char>, TagView)>::empty() + entries =~= entries);
        },
        TagView::Empty => {},
    }
}

/// Reading back an encoded list count yields the count, in any dialect.
proof fn lemma_list_count_roundtrip(d: NbtEndian, b: Seq<u8>, pos: int, v: int)
    requires
        0 <= v < 0x8000_0000,
        0 <= pos,
        pos + enc_i32(d, v).len() <= b.len(),
        b.subrange(pos, pos + enc_i32(d, v).len()) == enc_i32(d, v),
    ensures
        crate::spec_decode::dec_listlen(d, b, pos) == Ok::<(int, int), DecodeError>(
            (v, enc_i32(d, v).len() as int),
        ),
{
    lemma_pow256_values();
    if d is LittleNetwork {
        lemma_zigzag_roundtrip(v);
        lemma_varint_roundtrip(b, pos, zigzag_of(v));
        lemma_small_mod(zigzag_of(v), 0x1_0000_0000);
    } else {
        lemma_bytes_len(unsigned_of(v, 4), 4);
        lemma_signed_roundtrip(v, 4);
        if d is Big {
            lemma_be_roundtrip(b, pos, unsigned_of(v, 4), 4);
        } else {
            lemma_le_roundtrip(b, pos, unsigned_of(v, 4), 4);
        }
    }
}

/// Decoding the bytes of `s.len()` encoded elements yields `s`.
proof fn lemma_elems_roundtrip(d: NbtEndian, b: Seq<u8>, pos: int, s: Seq<TagView>, ecode: u8)
    requires
        ecode != 0,
        forall|j: int| 0 <= j < s.len() ==> type_code(#[trigger] s[j]) == ecode,
        forall|j: int| 0 <= j < s.len() ==> wf_tag(#[trigger] s[j]),
        0 <= pos,
        pos + enc_elems(d, s).len() <= b.len(),
        b.subrange(pos, pos + enc_elems(d, s).len()) == enc_elems(d, s),
    ensures
        dec_elems(d, b, pos, ecode, s.len()) == Ok::<(Seq<TagView>, int), DecodeError>(
            (s, enc_elems(d, s).len() as int),
        ),
    decreases s, 1int,
{
    if s.len() > 0 {
        let e0 = enc_payload(d, s[0]);
        let total = enc_elems(d, s);
        assert(b.subrange(pos, pos + e0.len()) =~= total.subrange(0, e0.len() as int));
        assert(total.subrange(0, e0.len() as int) =~= e0);
        lemma_payload_roundtrip(d, b, pos, s[0]);
        lemma_enc_payload_len(d, s[0]);
        let rest = s.subrange(1, s.len() as int);
        assert(b.subrange(pos + e0.len(), pos + total.len()) =~= total.subrange(
            e0.len() as int,
            total.len() as int,
        ));
        assert(total.subrange(e0.len() as int, total.len() as int) =~= enc_elems(d, rest));
        assert(forall|j: int| 0 <= j < rest.len() ==> rest[j] == s[j + 1]);
        lemma_elems_roundtrip(d, b, pos + e0.len(), rest, ecode);
        assert(seq![s[0]] + rest =~= s);
    } else {
        assert(s =~= Seq::<TagView>::empty());
    }
}

/// Decoding the bytes of one encoded named tag yields the name and the
/// tag.
proof fn lemma_named_roundtrip(d: NbtEndian, b: Seq<u8>, pos: int, nm: Seq<char>, t: TagView)
    requires
        wf_named(nm, t),
        0 <= pos,
        pos + enc_named(d, nm, t).len() <= b.len(),
        b.subrange(pos, pos + enc_named(d, nm, t).len()) == enc_named(d, nm, t),
    ensures
        dec_named(d, b, pos) == Ok::<((Seq<char>, TagView), int), DecodeError>(
            ((nm, t), enc_named(d, nm, t).len() as int),
        ),
    decreases t, 1int,
{
    let total = enc_named(d, nm, t);
    assert(b[pos] == total[0]);
    if t is Empty {
        assert(nm =~= Seq::<char>::empty());
    } else {
        lemma_type_code_valid(t);
        let sb = enc_string(d, nm);
        assert(b.subrange(pos + 1, pos + 1 + sb.len()) =~= total.subrange(
            1,
            1 + sb.len() as int,
        ));
        assert(total.subrange(1, 1 + sb.len() as int) =~= sb);
        lemma_string_roundtrip(d, b, pos + 1, nm);
        let pb = enc_payload(d, t);
        assert(b.subrange(pos + 1 + sb.len(), pos + total.len()) =~= total.subrange(
            1 + sb.len() as int,
            total.len() as int,
        ));
        assert(total.subrange(1 + sb.len() as int, total.len() as int) =~= pb);
        lemma_payload_roundtrip(d, b, pos + 1 + sb.len(), t);
    }
}

/// Decoding encoded entries followed by an end marker extends the
/// accumulator with exactly those entries.
proof fn lemma_entries_roundtrip(
    d: NbtEndian,
    b: Seq<u8>,
    pos: int,
    s: Seq<(Seq<char>, TagView)>,
    acc: Seq<(Seq<char>, TagView)>,
)
    requires
        forall|j: int| 0 <= j < s.len() ==> wf_tag(#[trigger] s[j].1),
        forall|j: int| 0 <= j < s.len() ==> type_code(#[trigger] s[j].1) != 0,
        forall|j: int| 0 <= j < s.len() ==> encode_utf8(#[trigger] s[j].0).len() <= 0xFFFF,
        forall|i: int, j: int|
            0 <= i < s.len() && 0 <= j < s.len() && i != j ==> s[i].0 != s[j].0,
        forall|i: int, j: int|
            0 <= i < s.len() && 0 <= j < acc.len() ==> #[trigger] acc[j].0 != #[trigger] s[i].0,
        0 <= pos,
        pos + enc_entries(d, s).len() + 1 <= b.len(),
        b.subrange(pos, pos + enc_entries(d, s).len()) == enc_entries(d, s),
        b[pos + enc_entries(d, s).len()] == 0,
    ensures
        dec_entries(d, b, pos, acc) == Ok::<(Seq<(Seq<char>, TagView)>, int), DecodeError>(
            (acc + s, enc_entries(d, s).len() as int + 1),
        ),
    decreases s, 2int,
{
    if s.len() == 0 {
        assert(acc + s =~= acc);
    } else {
        let nm0 = s[0].0;
        let t0 = s[0].1;
        let e0 = enc_entry(d, s[0]);
        let total = enc_entries(d, s);
        assert(e0 =~= enc_named(d, nm0, t0));
        assert(b.subrange(pos, pos + e0.len()) =~= total.subrange(0, e0.len() as int));
        assert(total.subrange(0, e0.len() as int) =~= e0);
        lemma_named_roundtrip(d, b, pos, nm0, t0);
        lemma_find_name(acc, nm0);
        assert(find_name(acc, nm0) == acc.len());
        assert(upsert(acc, nm0, t0) == acc.push((nm0, t0)));
        assert(acc.push((nm0, t0)) =~= acc.push(s[0]));
        let rest = s.subrange(1, s.len() as int);
        assert(b.subrange(pos + e0.len(), pos + total.len()) =~= total.subrange(
            e0.len() as int,
            total.len() as int,
        ));
        assert(total.subrange(e0.len() as int, total.len() as int) =~= enc_entries(d, rest));
        assert(b[pos + e0.len() + enc_entries(d, rest).len()] == 0);
        lemma_entries_roundtrip(d, b, pos + e0.len(), rest, acc.push(s[0]));
        assert(acc.push(s[0]) + rest =~= acc + s);
    }
}

/// Encoding a well-formed named tag tree in any dialect and decoding the
/// result (with anything at all after it) yields exactly that name and
/// tree, with no header.
pub proof fn theorem_round_trip(d: NbtEndian, nm: Seq<char>, t: TagView, b: Seq<u8>)
    requires
        wf_named(nm, t),
        enc_named(d, nm, t).is_prefix_of(b),
    ensures
        spec_decode(b, NbtHeader::NoHeader, d) == Ok::<
            (Seq<char>, TagView, Option<(int, int)>),
            DecodeError,
        >((nm, t, Option::None)),
{
    assert(b.subrange(0, enc_named(d, nm, t).len() as int) =~= enc_named(d, nm, t));
    lemma_named_roundtrip(d, b, 0, nm, t);
}

/// All three dialects carry the same trees: decoding a tree's encoding
/// under one dialect equals decoding its encoding under another.
pub proof fn theorem_dialect_agreement(d1: NbtEndian, d2: NbtEndian, nm: Seq<char>, t: TagView)
    requires
        wf_named(nm, t),
    ensures
        spec_decode(enc_named(d1, nm, t), NbtHeader::NoHeader, d1) == spec_decode(
            enc_named(d2, nm, t),
            NbtHeader::NoHeader,
            d2,
        ),
{
    theorem_round_trip(d1, nm, t, enc_named(d1, nm, t));
    theorem_round_trip(d2, nm, t, enc_named(d2, nm, t));
}

/// A type byte outside the recognized set fails the whole decode with
/// `UnknownTagType` carrying exactly that byte.
pub proof fn theorem_unknown_type(b: Seq<u8>, h: NbtHeader, d: NbtEndian)
    requires
        header_len(h) < b.len(),
        !valid_type_code(b[header_len(h)]),
    ensures
        spec_decode(b, h, d) == Err::<(Seq<char>, TagView, Option<(int, int)>), _>(
            DecodeError::UnknownTagType(b[header_len(h)]),
        ),
{
}

/// The header is two little-endian signed 32-bit integers whatever the
/// body dialect: whenever the decode succeeds, the header field holds
/// exactly the two integers the first eight bytes carry.
pub proof fn theorem_header_little_endian(
    b: Seq<u8>,
    h: NbtHeader,
    d: NbtEndian,
    first: int,
    second: int,
)
    requires
        h is Normal || h is LevelDat,
        b.len() >= 8,
        b.subrange(0, 8) == enc_header(first, second),
        -0x8000_0000 <= first < 0x8000_0000,
        -0x8000_0000 <= second < 0x8000_0000,
    ensures
        spec_decode(b, h, d) matches Ok(v) ==> v.2 == Option::Some((first, second)),
{
    lemma_pow256_values();
    lemma_bytes_len(unsigned_of(first, 4), 4);
    lemma_bytes_len(unsigned_of(second, 4), 4);
    assert(b.subrange(0, 4) =~= enc_header(first, second).subrange(0, 4));
    assert(enc_header(first, second).subrange(0, 4) =~= le_bytes(unsigned_of(first, 4), 4));
    assert(b.subrange(4, 8) =~= enc_header(first, second).subrange(4, 8));
    assert(enc_header(first, second).subrange(4, 8) =~= le_bytes(unsigned_of(second, 4), 4));
    lemma_signed_roundtrip(first, 4);
    lemma_signed_roundtrip(second, 4);
    lemma_le_roundtrip(b, 0, unsigned_of(first, 4), 4);
    lemma_le_roundtrip(b, 4, unsigned_of(second, 4), 4);
}

/// An empty compound payload is one end-marker byte and decodes to a
/// compound with no entries.
pub proof fn theorem_empty_compound(d: NbtEndian, b: Seq<u8>, pos: int)
    requires
        0 <= pos < b.len(),
        b[pos] == 0,
    ensures
        dec_payload(d, b, pos, 10) == Ok::<(TagView, int), DecodeError>(
            (TagView::Compound(Seq::empty()), 1),
        ),
{
    assert(dec_named(d, b, pos) == Ok::<((Seq<char>, TagView), int), DecodeError>(
        ((Seq::empty(), TagView::Empty), 1),
    ));
    assert(dec_entries(d, b, pos, Seq::<(Seq<char>, TagView)>::empty()) == Ok::<
        (Seq<(Seq<char>, TagView)>, int),
        DecodeError,
    >((Seq::empty(), 1)));
}

/// A list with declared count zero decodes to an empty list while still
/// consuming the element-type byte and the whole count field.
pub proof fn theorem_empty_list(d: NbtEndian, b: Seq<u8>, pos: int, ul: int)
    requires
        0 <= pos,
        pos + 1 <= b.len(),
        crate::spec_decode::dec_listlen(d, b, pos + 1) == Ok::<(int, int), DecodeError>((0, ul)),
        0 <= ul,
        pos + 1 + ul <= b.len(),
    ensures
        dec_payload(d, b, pos, 9) == Ok::<(TagView, int), DecodeError>(
            (TagView::List(Seq::empty()), 1 + ul),
        ),
{
}

} // verus!

