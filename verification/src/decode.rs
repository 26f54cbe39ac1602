//! The recursive-descent tag decoder, and the whole-buffer entry point.
//! Each function returns exactly what its spec-level counterpart yields
//! on the same bytes at the same position, value and error alike.

use vstd::prelude::*;

use crate::cursor::Cursor;
use crate::spec_decode::dec_elems;
use crate::spec_decode::dec_entries;
use crate::spec_decode::dec_named;
use crate::spec_decode::dec_payload;
use crate::spec_decode::find_name;
use crate::spec_decode::lemma_find_name;
use crate::spec_decode::pow256;
use crate::spec_decode::signed_of;
use crate::spec_decode::spec_decode;
use crate::spec_decode::upsert;
use crate::types::DecodeError;
use crate::types::NbtEndian;
use crate::types::NbtHeader;
use crate::types::Tag;
use crate::types::TagView;
use crate::types::entry_views;
use crate::types::list_views;
use crate::types::tag_view;
use crate::types::valid_type_code;

verus! {

/// `list_views` element by element.
pub proof fn lemma_list_views(s: Seq<Tag>)
    ensures
        list_views(s).len() == s.len(),
        forall|i: int| 0 <= i < s.len() ==> list_views(s)[i] == tag_view(s[i]),
    decreases s.len(),
{
    if s.len() > 0 {
        lemma_list_views(s.subrange(0, s.len() - 1));
    }
}

/// `entry_views` element by element.
pub proof fn lemma_entry_views(s: Seq<(String, Tag)>)
    ensures
        entry_views(s).len() == s.len(),
        forall|i: int|
            0 <= i < s.len() ==> entry_views(s)[i] == (s[i].0@, tag_view(s[i].1)),
    decreases s.len(),
{
    if s.len() > 0 {
        lemma_entry_views(s.subrange(0, s.len() - 1));
    }
}

/// The two's-complement reading of one unsigned byte.
fn to_i8(v: u8) -> (r: i8)
    ensures
        r as int == signed_of(v as nat, 1),
{
    proof {
        assert(pow256(0) == 1);
        assert(pow256(1) == 0x100);
    }
    if v < 128 {
        v as i8
    } else {
        ((v as i16) - 0x100) as i8
    }
}

/// Whether a byte is one of the recognized type codes.
fn code_is_valid(c: u8) -> (b: bool)
    ensures
        b == valid_type_code(c),
{
    c <= 10 && c != 7
}

/// Insert `(name, t)` into the entry vector: a present name keeps its
/// place and takes the new tag, an absent one goes to the end, as
/// `upsert` says of the entries' model.
fn upsert_entry(v: &mut Vec<(String, Tag)>, name: String, t: Tag)
    ensures
        entry_views(final(v)@) == upsert(entry_views(old(v)@), name@, tag_view(t)),
{
    proof {
        lemma_entry_views(v@);
        lemma_find_name(entry_views(v@), name@);
    }
    let ghost s0 = entry_views(v@);
    let n = v.len();
    let mut i: usize = 0;
    while i < n
        invariant
            n == v@.len(),
            i <= n,
            v@ == old(v)@,
            s0 == entry_views(v@),
            forall|k: int| 0 <= k < i ==> s0[k].0 != name@,
        decreases n - i,
    {
        proof {
            lemma_entry_views(v@);
        }
        if v[i].0 == name {
            proof {
                lemma_find_name(s0, name@);
                assert(s0[i as int].0 == name@);
                assert(find_name(s0, name@) == i);
            }
            v.set(i, (name, t));
            proof {
                lemma_entry_views(v@);
                assert(entry_views(v@) =~= s0.update(i as int, (name@, tag_view(t))));
            }
            return;
        }
        i += 1;
    }
    proof {
        lemma_find_name(s0, name@);
        assert(find_name(s0, name@) == s0.len());
    }
    v.push((name, t));
    proof {
        lemma_entry_views(v@);
        assert(entry_views(v@) =~= s0.push((name@, tag_view(t))));
    }
}

impl<'a> Cursor<'a> {
    /// One named tag at the cursor: a type byte, then (unless it is the
    /// end marker) a name and a payload.
    #[verifier::rlimit(100)]
    pub fn decode_named(&mut self, d: NbtEndian) -> (r: Result<(String, Tag), DecodeError>)
        requires
            old(self).wf(),
        ensures
            final(self).wf(),
            final(self).buf@ == old(self).buf@,
            old(self).pos <= final(self).pos,
            match r {
                Ok(nt) => dec_named(d, old(self).buf@, old(self).pos as int) matches Ok(p) && p.0.0
                    == nt.0@ && p.0.1 == nt.1@ && final(self).pos == old(self).pos + p.1 && old(
                    self,
                ).pos < final(self).pos,
                Err(e) => dec_named(d, old(self).buf@, old(self).pos as int) == Err::<
                    ((Seq<char>, TagView), int),
                    _,
                >(e),
            },
        decreases self.buf@.len() - self.pos, 0int, 0nat,
    {
        match self.read_u8() {
            Err(e) => Err(e),
            Ok(code) => {
                if code == 0 {
                    Ok((String::new(), Tag::Empty))
                } else if !code_is_valid(code) {
                    Err(DecodeError::UnknownTagType(code))
                } else {
                    match self.read_string(d) {
                        Err(e) => Err(e),
                        Ok(name) => {
                            match self.decode_payload(d, code) {
                                Ok(t) => Ok((name, t)),
                                Err(e) => Err(e),
                            }
                        },
                    }
                }
            },
        }
    }

    /// Named tags repeated until an end marker, accumulated into `acc`
    /// last-write-wins.
    #[verifier::rlimit(100)]
    fn decode_entries(&mut self, d: NbtEndian, acc: &mut Vec<(String, Tag)>) -> (r: Result<
        (),
        DecodeError,
    >)
        requires
            old(self).wf(),
        ensures
            final(self).wf(),
            final(self).buf@ == old(self).buf@,
            old(self).pos <= final(self).pos,
            match r {
                Ok(_) => dec_entries(
                    d,
                    old(self).buf@,
                    old(self).pos as int,
                    entry_views(old(acc)@),
                ) matches Ok(p) && entry_views(final(acc)@) == p.0 && final(self).pos == old(
                    self,
                ).pos + p.1 && old(self).pos < final(self).pos,
                Err(e) => dec_entries(
                    d,
                    old(self).buf@,
                    old(self).pos as int,
                    entry_views(old(acc)@),
                ) == Err::<(Seq<(Seq<char>, TagView)>, int), _>(e),
            },
        decreases self.buf@.len() - self.pos, 1int, 0nat,
    {
        match self.decode_named(d) {
            Err(e) => Err(e),
            Ok((name, t)) => {
                match t {
                    Tag::Empty => Ok(()),
                    _ => {
                        upsert_entry(acc, name, t);
                        match self.decode_entries(d, acc) {
                            Ok(_) => Ok(()),
                            Err(e) => Err(e),
                        }
                    },
                }
            },
        }
    }

    /// Exactly `n` nameless payloads of element type `ecode`, pushed
    /// onto `elems` in order.
    #[verifier::rlimit(100)]
    fn decode_elems(&mut self, d: NbtEndian, ecode: u8, n: u32, elems: &mut Vec<Tag>) -> (r: Result<
        (),
        DecodeError,
    >)
        requires
            old(self).wf(),
            ecode != 0,
        ensures
            final(self).wf(),
            final(self).buf@ == old(self).buf@,
            old(self).pos <= final(self).pos,
            match r {
                Ok(_) => dec_elems(
                    d,
                    old(self).buf@,
                    old(self).pos as int,
                    ecode,
                    n as nat,
                ) matches Ok(p) && list_views(final(elems)@) == list_views(old(elems)@) + p.0
                    && final(self).pos == old(self).pos + p.1,
                Err(e) => dec_elems(d, old(self).buf@, old(self).pos as int, ecode, n as nat)
                    == Err::<(Seq<TagView>, int), _>(e),
            },
        decreases self.buf@.len() - self.pos, 3int, n,
    {
        if n == 0 {
            proof {
                assert(list_views(elems@) =~= list_views(elems@) + Seq::<TagView>::empty());
            }
            Ok(())
        } else {
            match self.decode_payload(d, ecode) {
                Err(e) => Err(e),
                Ok(t) => {
                    let ghost mid = list_views(elems@).push(tag_view(t));
                    elems.push(t);
                    proof {
                        assert(elems@.subrange(0, elems@.len() - 1) =~= old(elems)@);
                        assert(list_views(elems@) == mid);
                    }
                    match self.decode_elems(d, ecode, n - 1, elems) {
                        Err(e) => Err(e),
                        Ok(_) => {
                            proof {
                                let p = dec_elems(
                                    d,
                                    old(self).buf@,
                                    old(self).pos as int,
                                    ecode,
                                    n as nat,
                                )->Ok_0;
                                assert(list_views(final(elems)@) =~= list_views(old(elems)@)
                                    + p.0);
                            }
                            Ok(())
                        },
                    }
                },
            }
        }
    }

    /// A list payload: the element-type byte, the count, then that many
    /// nameless elements.
    #[verifier::rlimit(100)]
    fn decode_list(&mut self, d: NbtEndian) -> (r: Result<Tag, DecodeError>)
        requires
            old(self).wf(),
        ensures
            final(self).wf(),
            final(self).buf@ == old(self).buf@,
            old(self).pos <= final(self).pos,
            match r {
                Ok(t) => dec_payload(d, old(self).buf@, old(self).pos as int, 9) matches Ok(p)
                    && p.0 == t@ && final(self).pos == old(self).pos + p.1 && old(self).pos
                    < final(self).pos,
                Err(e) => dec_payload(d, old(self).buf@, old(self).pos as int, 9) == Err::<
                    (TagView, int),
                    _,
                >(e),
            },
        decreases self.buf@.len() - self.pos, 2int, 0nat,
    {
        match self.read_u8() {
            Err(e) => Err(e),
            Ok(ecode) => {
                match self.read_i32(d) {
                    Err(e) => Err(e),
                    Ok(count) => {
                        if count < 0 {
                            Err(DecodeError::InvalidListLength(count))
                        } else if count == 0 || ecode == 0 {
                            let elems: Vec<Tag> = Vec::new();
                            proof {
                                assert(list_views(elems@) =~= Seq::<TagView>::empty());
                            }
                            Ok(Tag::List(elems))
                        } else {
                            let mut elems: Vec<Tag> = Vec::new();
                            proof {
                                assert(list_views(elems@) =~= Seq::<TagView>::empty());
                            }
                            match self.decode_elems(d, ecode, count as u32, &mut elems) {
                                Err(e) => Err(e),
                                Ok(_) => {
                                    proof {
                                        assert(Seq::<TagView>::empty() + list_views(elems@)
                                            =~= list_views(elems@));
                                    }
                                    Ok(Tag::List(elems))
                                },
                            }
                        }
                    },
                }
            },
        }
    }

    /// A primitive payload: one value of the width and encoding the type
    /// byte picks.
    #[verifier::rlimit(100)]
    fn decode_prim(&mut self, d: NbtEndian, code: u8) -> (r: Result<Tag, DecodeError>)
        requires
            old(self).wf(),
            1 <= code <= 6 || code == 8,
        ensures
            final(self).wf(),
            final(self).buf@ == old(self).buf@,
            old(self).pos <= final(self).pos,
            match r {
                Ok(t) => dec_payload(d, old(self).buf@, old(self).pos as int, code) matches Ok(p)
                    && p.0 == t@ && final(self).pos == old(self).pos + p.1 && old(self).pos
                    < final(self).pos,
                Err(e) => dec_payload(d, old(self).buf@, old(self).pos as int, code) == Err::<
                    (TagView, int),
                    _,
                >(e),
            },
    {
        if code == 1 {
            proof {
                assert(pow256(0) == 1);
                assert(pow256(1) == 0x100);
            }
            match self.read_u8() {
                Ok(v) => Ok(Tag::Byte(to_i8(v))),
                Err(e) => Err(e),
            }
        } else if code == 2 {
            match self.read_i16(d) {
                Ok(v) => Ok(Tag::Int16(v)),
                Err(e) => Err(e),
            }
        } else if code == 3 {
            match self.read_i32(d) {
                Ok(v) => Ok(Tag::Int32(v)),
                Err(e) => Err(e),
            }
        } else if code == 4 {
            match self.read_i64(d) {
                Ok(v) => Ok(Tag::Int64(v)),
                Err(e) => Err(e),
            }
        } else if code == 5 {
            match self.read_f32_bits(d) {
                Ok(v) => Ok(Tag::Float32(v)),
                Err(e) => Err(e),
            }
        } else if code == 6 {
            match self.read_f64_bits(d) {
                Ok(v) => Ok(Tag::Float64(v)),
                Err(e) => Err(e),
            }
        } else {
            match self.read_string(d) {
                Ok(s) => Ok(Tag::String(s)),
                Err(e) => Err(e),
            }
        }
    }

    /// The payload of a tag whose type byte was `code`.
    #[verifier::rlimit(100)]
    pub fn decode_payload(&mut self, d: NbtEndian, code: u8) -> (r: Result<Tag, DecodeError>)
        requires
            old(self).wf(),
        ensures
            final(self).wf(),
            final(self).buf@ == old(self).buf@,
            old(self).pos <= final(self).pos,
            match r {
                Ok(t) => dec_payload(d, old(self).buf@, old(self).pos as int, code) matches Ok(p)
                    && p.0 == t@ && final(self).pos == old(self).pos + p.1 && (code != 0 ==> old(
                    self,
                ).pos < final(self).pos),
                Err(e) => dec_payload(d, old(self).buf@, old(self).pos as int, code) == Err::<
                    (TagView, int),
                    _,
                >(e),
            },
        decreases self.buf@.len() - self.pos, 2int, 1nat,
    {
        if code == 0 {
            Ok(Tag::Empty)
        } else if code <= 6 || code == 8 {
            self.decode_prim(d, code)
        } else if code == 9 {
            self.decode_list(d)
        } else if code == 10 {
            let mut entries: Vec<(String, Tag)> = Vec::new();
            proof {
                assert(entry_views(entries@) =~= Seq::<(Seq<char>, TagView)>::empty());
            }
            match self.decode_entries(d, &mut entries) {
                Ok(_) => Ok(Tag::Compound(entries)),
                Err(e) => Err(e),
            }
        } else {
            Err(DecodeError::UnknownTagType(code))
        }
    }
}

/// Decode a whole buffer under the chosen header mode and dialect: the
/// optional 8-byte header (two little-endian signed 32-bit integers,
/// whatever the dialect), then one named root tag. The result is exactly
/// what `spec_decode` says of the buffer, error included; trailing bytes
/// after the root tag are ignored.
pub fn decode(data: &Vec<u8>, header: NbtHeader, endian: NbtEndian) -> (r: Result<
    (String, Tag, Option<(i32, i32)>),
    DecodeError,
>)
    ensures
        match r {
            Ok(v) => spec_decode(data@, header, endian) matches Ok(p) && p.0 == v.0@ && p.1 == v.1@
                && (match (p.2, v.2) {
                    (Some(h), Some(e)) => h.0 == e.0 as int && h.1 == e.1 as int,
                    (None, None) => true,
                    _ => false,
                }),
            Err(e) => spec_decode(data@, header, endian) == Err::<
                (Seq<char>, TagView, Option<(int, int)>),
                _,
            >(e),
        },
{
    let mut c = Cursor::new(data);
    let hdr: Option<(i32, i32)> = match header {
        NbtHeader::NoHeader => None,
        _ => {
            if data.len() < 8 {
                return Err(DecodeError::UnexpectedEof);
            }
            let first = match c.read_i32(NbtEndian::Little) {
                Ok(v) => v,
                Err(_) => {
                    return Err(DecodeError::UnexpectedEof);
                },
            };
            let second = match c.read_i32(NbtEndian::Little) {
                Ok(v) => v,
                Err(_) => {
                    return Err(DecodeError::UnexpectedEof);
                },
            };
            Some((first, second))
        },
    };
    match c.decode_named(endian) {
        Ok((name, t)) => Ok((name, t, hdr)),
        Err(e) => Err(e),
    }
}

} // verus!
