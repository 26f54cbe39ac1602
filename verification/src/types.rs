//! The data model: dialects, header modes, decoded tags and decode errors.

use vstd::prelude::*;
use vstd::utf8::encode_utf8;

verus! {

broadcast use vstd::seq::group_seq_axioms, vstd::std_specs::vec::group_vec_axioms;

/// Byte-order / encoding dialect of the tag stream.
///
/// `Little` and `Big` read every multi-byte value as plain fixed-width
/// little- resp. big-endian integers. `LittleNetwork` keeps 16-bit values
/// and float bit patterns little-endian but reads 32- and 64-bit integer
/// payloads and list counts as zig-zag encoded LEB128 varints, and string
/// lengths as unsigned LEB128 varints.
#[derive(Debug, Clone, Copy, PartialEq, Eq, Structural)]
pub enum NbtEndian {
    Little,
    LittleNetwork,
    Big,
}

/// Which fixed 8-byte preamble, if any, stands before the tag stream.
///
/// Both header flavours are two little-endian signed 32-bit integers,
/// whatever the body dialect; they differ only in what the caller takes
/// the two numbers to mean.
#[derive(Debug, Clone, Copy, PartialEq, Eq, Structural)]
pub enum NbtHeader {
    NoHeader,
    Normal,
    LevelDat,
}

/// Why a decode failed.
#[derive(Debug, Clone, Copy, PartialEq, Eq, Structural)]
pub enum DecodeError {
    /// Fewer bytes remained than a read required.
    UnexpectedEof,
    /// A string's bytes were not valid UTF-8.
    InvalidUtf8,
    /// A type byte outside the recognized set, carrying that byte.
    UnknownTagType(u8),
    /// A negative list count, carrying that count.
    InvalidListLength(i32),
}

/// One decoded NBT node.
///
/// `Float32` and `Float64` hold the raw IEEE-754 bit patterns read from
/// the wire; a consumer that wants floating-point values reinterprets the
/// bits itself. `Compound` keeps its entries in insertion order and its
/// names are unique (a duplicate name on the wire overwrites the earlier
/// entry in place). `Empty` is the end-marker sentinel.
#[derive(Debug, PartialEq, Eq)]
pub enum Tag {
    Byte(i8),
    Int16(i16),
    Int32(i32),
    Int64(i64),
    Float32(u32),
    Float64(u64),
    String(String),
    List(Vec<Tag>),
    Compound(Vec<(String, Tag)>),
    Empty,
}

/// The mathematical model of a `Tag`: strings become character sequences,
/// vectors become sequences.
#[verifier::ext_equal]
pub enum TagView {
    Byte(i8),
    Int16(i16),
    Int32(i32),
    Int64(i64),
    Float32(u32),
    Float64(u64),
    String(Seq<char>),
    List(Seq<TagView>),
    Compound(Seq<(Seq<char>, TagView)>),
    Empty,
}

/// The model of one tag.
pub open spec fn tag_view(t: Tag) -> TagView
    decreases t, 1int,
    via tag_view_decreases
{
    match t {
        Tag::Byte(v) => TagView::Byte(v),
        Tag::Int16(v) => TagView::Int16(v),
        Tag::Int32(v) => TagView::Int32(v),
        Tag::Int64(v) => TagView::Int64(v),
        Tag::Float32(v) => TagView::Float32(v),
        Tag::Float64(v) => TagView::Float64(v),
        Tag::String(s) => TagView::String(s@),
        Tag::List(v) => TagView::List(list_views(v@)),
        Tag::Compound(v) => TagView::Compound(entry_views(v@)),
        Tag::Empty => TagView::Empty,
    }
}

/// The models of a sequence of list elements.
pub open spec fn list_views(s: Seq<Tag>) -> Seq<TagView>
    decreases s, 0int,
{
    if s.len() == 0 {
        Seq::empty()
    } else {
        list_views(s.subrange(0, s.len() - 1)).push(tag_view(s[s.len() - 1]))
    }
}

/// The models of a sequence of compound entries.
pub open spec fn entry_views(s: Seq<(String, Tag)>) -> Seq<(Seq<char>, TagView)>
    decreases s, 0int,
{
    if s.len() == 0 {
        Seq::empty()
    } else {
        entry_views(s.subrange(0, s.len() - 1)).push(
            (s[s.len() - 1].0@, tag_view(s[s.len() - 1].1)),
        )
    }
}

#[via_fn]
proof fn tag_view_decreases(t: Tag) {
    match t {
        Tag::List(v) => {
            assert(decreases_to!(t => v));
            assert(decreases_to!(v => v@));
        },
        Tag::Compound(v) => {
            assert(decreases_to!(t => v));
            assert(decreases_to!(v => v@));
        },
        _ => {},
    }
}

impl View for Tag {
    type V = TagView;

    open spec fn view(&self) -> TagView {
        tag_view(*self)
    }
}

/// The wire code of each tag kind; 0 is the end marker.
pub open spec fn type_code(t: TagView) -> u8 {
    match t {
        TagView::Empty => 0,
        TagView::Byte(_) => 1,
        TagView::Int16(_) => 2,
        TagView::Int32(_) => 3,
        TagView::Int64(_) => 4,
        TagView::Float32(_) => 5,
        TagView::Float64(_) => 6,
        TagView::String(_) => 8,
        TagView::List(_) => 9,
        TagView::Compound(_) => 10,
    }
}

/// The set of type bytes the decoder recognizes. 7 is not among them:
/// this tag set has no byte-array kind.
pub open spec fn valid_type_code(c: u8) -> bool {
    c == 0 || c == 1 || c == 2 || c == 3 || c == 4 || c == 5 || c == 6 || c == 8 || c == 9
        || c == 10
}

/// Well-formedness of a tag tree: every string (tag payload or compound
/// name) fits a 16-bit length prefix once UTF-8 encoded, every list is
/// homogeneous, holds no end markers and fits a signed 32-bit count, and
/// every compound has pairwise distinct names and no end-marker entries.
/// Exactly the trees the wire format can carry in every dialect.
pub open spec fn wf_tag(t: TagView) -> bool
    decreases t,
{
    match t {
        TagView::String(s) => encode_utf8(s).len() <= 0xFFFF,
        TagView::List(elems) => {
            &&& elems.len() <= 0x7FFF_FFFF
            &&& forall|i: int| 0 <= i < elems.len() ==> wf_tag(#[trigger] elems[i])
            &&& forall|i: int|
                0 <= i < elems.len() ==> type_code(#[trigger] elems[i]) == type_code(elems[0])
            &&& elems.len() > 0 ==> type_code(elems[0]) != 0
        },
        TagView::Compound(entries) => {
            &&& forall|i: int| 0 <= i < entries.len() ==> wf_tag(#[trigger] entries[i].1)
            &&& forall|i: int|
                0 <= i < entries.len() ==> type_code(#[trigger] entries[i].1) != 0
            &&& forall|i: int|
                0 <= i < entries.len() ==> encode_utf8(#[trigger] entries[i].0).len() <= 0xFFFF
            &&& forall|i: int, j: int|
                0 <= i < entries.len() && 0 <= j < entries.len() && i != j
                    ==> entries[i].0 != entries[j].0
        },
        _ => true,
    }
}

/// Well-formedness of a named tag as it stands in the stream: the name
/// fits a 16-bit length prefix, the tag is well formed, and only an
/// unnamed tree may be the bare end marker.
pub open spec fn wf_named(name: Seq<char>, t: TagView) -> bool {
    &&& encode_utf8(name).len() <= 0xFFFF
    &&& wf_tag(t)
    &&& t is Empty ==> name.len() == 0
}

} // verus!
