//! The truncation law: cutting a decodable buffer anywhere strictly
//! inside its tag stream makes the decode fail with `UnexpectedEof` —
//! never with a corrupted tree and never with another error.
//!
//! Three lemma families carry the proof: every successful read stays in
//! bounds; a read looks only at the bytes it consumes, so two buffers
//! that agree there decode alike; and a read cut anywhere inside the
//! bytes it would consume reports the end of input.

use vstd::prelude::*;

use crate::spec_decode::be_val;
use crate::spec_decode::dec_elems;
use crate::spec_decode::dec_entries;
use crate::spec_decode::dec_fixed;
use crate::spec_decode::dec_listlen;
use crate::spec_decode::dec_named;
use crate::spec_decode::dec_payload;
use crate::spec_decode::dec_string;
use crate::spec_decode::dec_strlen;
use crate::spec_decode::dec_varint;
use crate::spec_decode::header_len;
use crate::spec_decode::le_val;
use crate::spec_decode::spec_decode;
use crate::types::DecodeError;
use crate::types::NbtEndian;
use crate::types::NbtHeader;
use crate::types::TagView;

verus! {

/// A successful varint read stays in bounds and takes at least a byte.
proof fn bounds_varint(b: Seq<u8>, pos: int)
    requires
        dec_varint(b, pos) is Ok,
    ensures
        dec_varint(b, pos) matches Ok(p) && 1 <= p.1 && pos + p.1 <= b.len() && 0 <= pos,
    decreases b.len() - pos,
{
    if 0 <= pos && pos + 1 <= b.len() && b[pos] >= 128 {
        bounds_varint(b, pos + 1);
    }
}

/// A successful string read stays in bounds and takes at least a byte.
proof fn bounds_string(d: NbtEndian, b: Seq<u8>, pos: int)
    requires
        dec_string(d, b, pos) is Ok,
    ensures
        dec_string(d, b, pos) matches Ok(p) && 1 <= p.1 && pos + p.1 <= b.len() && 0 <= pos,
{
    if d is LittleNetwork {
        bounds_varint(b, pos);
    }
}

/// Every successful payload read stays in bounds; every non-end-marker
/// payload takes at least a byte.
#[verifier::rlimit(100)]
proof fn bounds_payload(d: NbtEndian, b: Seq<u8>, pos: int, code: u8)
    requires
        dec_payload(d, b, pos, code) is Ok,
    ensures
        dec_payload(d, b, pos, code) matches Ok(p) && 0 <= p.1 && (code != 0 ==> 1 <= p.1
            && 0 <= pos) && (code != 0 ==> pos + p.1 <= b.len()),
    decreases b.len() - pos, 2int, 0nat,
{
    if code == 2 || code == 3 || code == 4 || code == 8 {
        if d is LittleNetwork && code != 2 {
            if code == 8 {
                bounds_string(d, b, pos);
            } else {
                bounds_varint(b, pos);
            }
        } else if code == 8 {
            bounds_string(d, b, pos);
        }
    } else if code == 9 {
        if 0 <= pos && pos + 1 <= b.len() {
            if d is LittleNetwork && dec_listlen(d, b, pos + 1) is Ok {
                bounds_varint(b, pos + 1);
            }
            match dec_listlen(d, b, pos + 1) {
                Ok((n, ul)) => {
                    if !(n < 0) && !(ul < 0 || pos + 1 + ul > b.len()) && !(n == 0 || b[pos]
                        == 0) {
                        if dec_elems(d, b, pos + 1 + ul, b[pos], n as nat) is Ok {
                            bounds_elems(d, b, pos + 1 + ul, b[pos], n as nat);
                        }
                    }
                },
                Err(_) => {},
            }
        }
    } else if code == 10 {
        bounds_entries(d, b, pos, Seq::empty());
    }
}

/// A successful named read stays in bounds and takes at least a byte.
proof fn bounds_named(d: NbtEndian, b: Seq<u8>, pos: int)
    requires
        dec_named(d, b, pos) is Ok,
    ensures
        dec_named(d, b, pos) matches Ok(p) && 1 <= p.1 && pos + p.1 <= b.len() && 0 <= pos,
    decreases b.len() - pos, 0int, 0nat,
{
    if 0 <= pos && pos + 1 <= b.len() && b[pos] != 0 {
        match dec_string(d, b, pos + 1) {
            Ok((nm, un)) => {
                if 0 <= un && pos + 1 + un <= b.len() {
                    if dec_payload(d, b, pos + 1 + un, b[pos]) is Ok {
                        bounds_payload(d, b, pos + 1 + un, b[pos]);
                    }
                }
            },
            Err(_) => {},
        }
    }
}

/// A successful entries read stays in bounds and takes at least a byte.
proof fn bounds_entries(d: NbtEndian, b: Seq<u8>, pos: int, acc: Seq<(Seq<char>, TagView)>)
    requires
        dec_entries(d, b, pos, acc) is Ok,
    ensures
        dec_entries(d, b, pos, acc) matches Ok(p) && 1 <= p.1 && pos + p.1 <= b.len() && 0 <= pos,
    decreases b.len() - pos, 1int, 0nat,
{
    bounds_named(d, b, pos);
    match dec_named(d, b, pos) {
        Ok(((nm, t), u)) => {
            if !(t is Empty) && 1 <= u && pos + u <= b.len() {
                if dec_entries(d, b, pos + u, crate::spec_decode::upsert(acc, nm, t)) is Ok {
                    bounds_entries(d, b, pos + u, crate::spec_decode::upsert(acc, nm, t));
                }
            }
        },
        Err(_) => {},
    }
}

/// A successful elements read stays in bounds.
proof fn bounds_elems(d: NbtEndian, b: Seq<u8>, pos: int, ecode: u8, n: nat)
    requires
        dec_elems(d, b, pos, ecode, n) is Ok,
        ecode != 0,
    ensures
        dec_elems(d, b, pos, ecode, n) matches Ok(p) && 0 <= p.1 && pos + p.1 <= b.len() || n
            == 0,
    decreases b.len() - pos, 3int, n,
{
    if n > 0 {
        match dec_payload(d, b, pos, ecode) {
            Ok((t, u)) => {
                bounds_payload(d, b, pos, ecode);
                if 1 <= u && pos + u <= b.len() {
                    if dec_elems(d, b, pos + u, ecode, (n - 1) as nat) is Ok {
                        bounds_elems(d, b, pos + u, ecode, (n - 1) as nat);
                    }
                }
            },
            Err(_) => {},
        }
    }
}

/// Fixed-width values read only the bytes they consume.
proof fn agree_vals(b1: Seq<u8>, b2: Seq<u8>, pos: int, k: nat)
    requires
        0 <= pos,
        pos + k <= b1.len(),
        pos + k <= b2.len(),
        forall|i: int| pos <= i < pos + k ==> b1[i] == b2[i],
    ensures
        le_val(b1, pos, k) == le_val(b2, pos, k),
        be_val(b1, pos, k) == be_val(b2, pos, k),
    decreases k,
{
    if k > 0 {
        agree_vals(b1, b2, pos + 1, (k - 1) as nat);
        agree_vals(b1, b2, pos, (k - 1) as nat);
    }
}

/// The byte range a read relies on: two buffers that agree on the bytes
/// a successful read consumes give that read the same result.
proof fn agree_varint(b1: Seq<u8>, b2: Seq<u8>, pos: int)
    requires
        dec_varint(b1, pos) is Ok,
        dec_varint(b1, pos) matches Ok(p) ==> pos + p.1 <= b2.len() && forall|i: int|
            pos <= i < pos + p.1 ==> b1[i] == b2[i],
    ensures
        dec_varint(b2, pos) == dec_varint(b1, pos),
    decreases b1.len() - pos,
{
    bounds_varint(b1, pos);
    if b1[pos] >= 128 {
        bounds_varint(b1, pos + 1);
        agree_varint(b1, b2, pos + 1);
    }
}

proof fn agree_fixed(b1: Seq<u8>, b2: Seq<u8>, pos: int, k: nat, big: bool)
    requires
        dec_fixed(b1, pos, k, big) is Ok,
        pos + k <= b2.len(),
        forall|i: int| pos <= i < pos + k ==> b1[i] == b2[i],
    ensures
        dec_fixed(b2, pos, k, big) == dec_fixed(b1, pos, k, big),
{
    agree_vals(b1, b2, pos, k);
}

#[verifier::rlimit(100)]
proof fn agree_string(d: NbtEndian, b1: Seq<u8>, b2: Seq<u8>, pos: int)
    requires
        dec_string(d, b1, pos) is Ok,
        dec_string(d, b1, pos) matches Ok(p) ==> pos + p.1 <= b2.len() && forall|i: int|
            pos <= i < pos + p.1 ==> b1[i] == b2[i],
    ensures
        dec_string(d, b2, pos) == dec_string(d, b1, pos),
{
    bounds_string(d, b1, pos);
    let (n, ul) = dec_strlen(d, b1, pos)->Ok_0;
    if d is LittleNetwork {
        bounds_varint(b1, pos);
        agree_varint(b1, b2, pos);
    } else {
        agree_fixed(b1, b2, pos, 2, d is Big);
    }
    assert(b1.subrange(pos + ul, pos + ul + n) =~= b2.subrange(pos + ul, pos + ul + n));
}

#[verifier::rlimit(100)]
proof fn agree_named(d: NbtEndian, b1: Seq<u8>, b2: Seq<u8>, pos: int)
    requires
        dec_named(d, b1, pos) is Ok,
        dec_named(d, b1, pos) matches Ok(p) ==> pos + p.1 <= b2.len() && forall|i: int|
            pos <= i < pos + p.1 ==> b1[i] == b2[i],
    ensures
        dec_named(d, b2, pos) == dec_named(d, b1, pos),
    decreases b1.len() - pos, 0int, 0nat,
{
    bounds_named(d, b1, pos);
    if b1[pos] != 0 {
        bounds_string(d, b1, pos + 1);
        let un = dec_string(d, b1, pos + 1)->Ok_0.1;
        bounds_payload(d, b1, pos + 1 + un, b1[pos]);
        agree_string(d, b1, b2, pos + 1);
        agree_payload(d, b1, b2, pos + 1 + un, b1[pos]);
    }
}

#[verifier::rlimit(100)]
proof fn agree_entries(
    d: NbtEndian,
    b1: Seq<u8>,
    b2: Seq<u8>,
    pos: int,
    acc: Seq<(Seq<char>, TagView)>,
)
    requires
        dec_entries(d, b1, pos, acc) is Ok,
        dec_entries(d, b1, pos, acc) matches Ok(p) ==> pos + p.1 <= b2.len() && forall|i: int|
            pos <= i < pos + p.1 ==> b1[i] == b2[i],
    ensures
        dec_entries(d, b2, pos, acc) == dec_entries(d, b1, pos, acc),
    decreases b1.len() - pos, 1int, 0nat,
{
    bounds_entries(d, b1, pos, acc);
    bounds_named(d, b1, pos);
    let ((nm, t), u) = dec_named(d, b1, pos)->Ok_0;
    if !(t is Empty) {
        bounds_entries(d, b1, pos + u, crate::spec_decode::upsert(acc, nm, t));
        agree_named(d, b1, b2, pos);
        agree_entries(d, b1, b2, pos + u, crate::spec_decode::upsert(acc, nm, t));
    } else {
        agree_named(d, b1, b2, pos);
    }
}

#[verifier::rlimit(100)]
proof fn agree_payload(d: NbtEndian, b1: Seq<u8>, b2: Seq<u8>, pos: int, code: u8)
    requires
        dec_payload(d, b1, pos, code) is Ok,
        code != 0,
        dec_payload(d, b1, pos, code) matches Ok(p) ==> pos + p.1 <= b2.len() && forall|i: int|
            pos <= i < pos + p.1 ==> b1[i] == b2[i],
    ensures
        dec_payload(d, b2, pos, code) == dec_payload(d, b1, pos, code),
    decreases b1.len() - pos, 2int, 0nat,
{
    bounds_payload(d, b1, pos, code);
    if code == 2 {
        agree_fixed(b1, b2, pos, 2, d is Big);
    } else if code == 3 || code == 4 {
        if d is LittleNetwork {
            bounds_varint(b1, pos);
            agree_varint(b1, b2, pos);
        } else {
            agree_fixed(b1, b2, pos, if code == 3 { 4nat } else { 8nat }, d is Big);
        }
    } else if code == 5 {
        agree_fixed(b1, b2, pos, 4, d is Big);
    } else if code == 6 {
        agree_fixed(b1, b2, pos, 8, d is Big);
    } else if code == 8 {
        bounds_string(d, b1, pos);
        agree_string(d, b1, b2, pos);
    } else if code == 9 {
        if d is LittleNetwork && dec_listlen(d, b1, pos + 1) is Ok {
            bounds_varint(b1, pos + 1);
        }
        match dec_listlen(d, b1, pos + 1) {
            Ok((n, ul)) => {
                let deep = !(n < 0) && !(ul < 0 || pos + 1 + ul > b1.len()) && !(n == 0
                    || b1[pos] == 0);
                if deep {
                    bounds_elems(d, b1, pos + 1 + ul, b1[pos], n as nat);
                }
                if d is LittleNetwork {
                    agree_varint(b1, b2, pos + 1);
                } else {
                    agree_fixed(b1, b2, pos + 1, 4, d is Big);
                }
                if deep {
                    agree_elems(d, b1, b2, pos + 1 + ul, b1[pos], n as nat);
                }
            },
            Err(_) => {},
        }
    } else if code == 10 {
        bounds_entries(d, b1, pos, Seq::empty());
        agree_entries(d, b1, b2, pos, Seq::empty());
    }
}

#[verifier::rlimit(100)]
/// A varint cut anywhere inside its bytes reports the end of input.
proof fn trunc_varint(b: Seq<u8>, pos: int, m: int)
    requires
        dec_varint(b, pos) is Ok,
        dec_varint(b, pos) matches Ok(p) ==> pos <= m < pos + p.1,
    ensures
        dec_varint(b.take(m), pos) == Err::<(nat, int), _>(DecodeError::UnexpectedEof),
    decreases b.len() - pos,
{
    bounds_varint(b, pos);
    if m > pos {
        bounds_varint(b, pos + 1);
        trunc_varint(b, pos + 1, m);
    }
}

/// A string cut anywhere inside its bytes reports the end of input.
#[verifier::rlimit(100)]
proof fn trunc_string(d: NbtEndian, b: Seq<u8>, pos: int, m: int)
    requires
        dec_string(d, b, pos) is Ok,
        dec_string(d, b, pos) matches Ok(p) ==> pos <= m < pos + p.1,
    ensures
        dec_string(d, b.take(m), pos) == Err::<(Seq<char>, int), _>(DecodeError::UnexpectedEof),
{
    bounds_string(d, b, pos);
    let (n, ul) = dec_strlen(d, b, pos)->Ok_0;
    if d is LittleNetwork {
        bounds_varint(b, pos);
        if m < pos + ul {
            trunc_varint(b, pos, m);
        } else {
            agree_varint(b, b.take(m), pos);
        }
    } else {
        if m >= pos + ul {
            agree_fixed(b, b.take(m), pos, 2, d is Big);
        }
    }
}

/// A named tag cut anywhere inside its bytes reports the end of input.
#[verifier::rlimit(100)]
proof fn trunc_named(d: NbtEndian, b: Seq<u8>, pos: int, m: int)
    requires
        dec_named(d, b, pos) is Ok,
        dec_named(d, b, pos) matches Ok(p) ==> pos <= m < pos + p.1,
    ensures
        dec_named(d, b.take(m), pos) == Err::<((Seq<char>, TagView), int), _>(
            DecodeError::UnexpectedEof,
        ),
    decreases b.len() - pos, 0int, 0nat,
{
    bounds_named(d, b, pos);
    if m > pos && b[pos] != 0 {
        bounds_string(d, b, pos + 1);
        let un = dec_string(d, b, pos + 1)->Ok_0.1;
        bounds_payload(d, b, pos + 1 + un, b[pos]);
        if m < pos + 1 + un {
            trunc_string(d, b, pos + 1, m);
        } else {
            agree_string(d, b, b.take(m), pos + 1);
            trunc_payload(d, b, pos + 1 + un, b[pos], m);
        }
    }
}

/// A compound body cut anywhere inside its bytes reports the end of
/// input.
#[verifier::rlimit(100)]
proof fn trunc_entries(
    d: NbtEndian,
    b: Seq<u8>,
    pos: int,
    acc: Seq<(Seq<char>, TagView)>,
    m: int,
)
    requires
        dec_entries(d, b, pos, acc) is Ok,
        dec_entries(d, b, pos, acc) matches Ok(p) ==> pos <= m < pos + p.1,
    ensures
        dec_entries(d, b.take(m), pos, acc) == Err::<(Seq<(Seq<char>, TagView)>, int), _>(
            DecodeError::UnexpectedEof,
        ),
    decreases b.len() - pos, 1int, 0nat,
{
    bounds_entries(d, b, pos, acc);
    bounds_named(d, b, pos);
    let ((nm, t), u) = dec_named(d, b, pos)->Ok_0;
    if m < pos + u {
        trunc_named(d, b, pos, m);
    } else {
        bounds_entries(d, b, pos + u, crate::spec_decode::upsert(acc, nm, t));
        agree_named(d, b, b.take(m), pos);
        trunc_entries(d, b, pos + u, crate::spec_decode::upsert(acc, nm, t), m);
    }
}

/// A payload cut anywhere inside its bytes reports the end of input.
#[verifier::rlimit(100)]
proof fn trunc_payload(d: NbtEndian, b: Seq<u8>, pos: int, code: u8, m: int)
    requires
        dec_payload(d, b, pos, code) is Ok,
        code != 0,
        dec_payload(d, b, pos, code) matches Ok(p) ==> pos <= m < pos + p.1,
    ensures
        dec_payload(d, b.take(m), pos, code) == Err::<(TagView, int), _>(
            DecodeError::UnexpectedEof,
        ),
    decreases b.len() - pos, 2int, 0nat,
{
    bounds_payload(d, b, pos, code);
    if code == 3 || code == 4 {
        if d is LittleNetwork {
            trunc_varint(b, pos, m);
        }
    } else if code == 8 {
        trunc_string(d, b, pos, m);
    } else if code == 9 {
        if m > pos {
            if d is LittleNetwork && dec_listlen(d, b, pos + 1) is Ok {
                bounds_varint(b, pos + 1);
            }
            match dec_listlen(d, b, pos + 1) {
                Ok((n, ul)) => {
                    if m < pos + 1 + ul {
                        if d is LittleNetwork {
                            trunc_varint(b, pos + 1, m);
                        }
                    } else {
                        if d is LittleNetwork {
                            agree_varint(b, b.take(m), pos + 1);
                        } else {
                            agree_fixed(b, b.take(m), pos + 1, 4, d is Big);
                        }
                        bounds_elems(d, b, pos + 1 + ul, b[pos], n as nat);
                        trunc_elems(d, b, pos + 1 + ul, b[pos], n as nat, m);
                    }
                },
                Err(_) => {},
            }
        }
    } else if code == 10 {
        trunc_entries(d, b, pos, Seq::empty(), m);
    }
}

/// A run of list elements cut anywhere inside its bytes reports the end
/// of input.
#[verifier::rlimit(100)]
proof fn trunc_elems(d: NbtEndian, b: Seq<u8>, pos: int, ecode: u8, n: nat, m: int)
    requires
        dec_elems(d, b, pos, ecode, n) is Ok,
        ecode != 0,
        dec_elems(d, b, pos, ecode, n) matches Ok(p) ==> pos <= m < pos + p.1,
    ensures
        dec_elems(d, b.take(m), pos, ecode, n) == Err::<(Seq<TagView>, int), _>(
            DecodeError::UnexpectedEof,
        ),
    decreases b.len() - pos, 3int, n,
{
    if n > 0 {
        bounds_payload(d, b, pos, ecode);
        let u = dec_payload(d, b, pos, ecode)->Ok_0.1;
        bounds_elems(d, b, pos + u, ecode, (n - 1) as nat);
        if m < pos + u {
            trunc_payload(d, b, pos, ecode, m);
        } else {
            agree_payload(d, b, b.take(m), pos, ecode);
            trunc_elems(d, b, pos + u, ecode, (n - 1) as nat, m);
        }
    }
}

/// Truncating a decodable buffer anywhere strictly inside its tag
/// stream makes the decode fail with `UnexpectedEof` — never with a
/// corrupted tree and never with another error.
pub proof fn theorem_truncation(b: Seq<u8>, h: NbtHeader, d: NbtEndian, m: int)
    requires
        spec_decode(b, h, d) is Ok,
        dec_named(d, b, header_len(h)) matches Ok(p) ==> header_len(h) <= m < header_len(h)
            + p.1,
    ensures
        spec_decode(b.take(m), h, d) == Err::<(Seq<char>, TagView, Option<(int, int)>), _>(
            DecodeError::UnexpectedEof,
        ),
{
    bounds_named(d, b, header_len(h));
    trunc_named(d, b, header_len(h), m);
}

proof fn agree_elems(d: NbtEndian, b1: Seq<u8>, b2: Seq<u8>, pos: int, ecode: u8, n: nat)
    requires
        dec_elems(d, b1, pos, ecode, n) is Ok,
        ecode != 0,
        dec_elems(d, b1, pos, ecode, n) matches Ok(p) ==> pos + p.1 <= b2.len() && forall|i: int|
            pos <= i < pos + p.1 ==> b1[i] == b2[i],
    ensures
        dec_elems(d, b2, pos, ecode, n) == dec_elems(d, b1, pos, ecode, n),
    decreases b1.len() - pos, 3int, n,
{
    if n > 0 {
        bounds_payload(d, b1, pos, ecode);
        let u = dec_payload(d, b1, pos, ecode)->Ok_0.1;
        bounds_elems(d, b1, pos + u, ecode, (n - 1) as nat);
        agree_payload(d, b1, b2, pos, ecode);
        agree_elems(d, b1, b2, pos + u, ecode, (n - 1) as nat);
    }
}

} // verus!
