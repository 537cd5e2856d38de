//! Typed blobmsg builder and parser. A blobmsg attribute is an extended blob
//! attribute whose payload starts with a name header: a big-endian 16-bit
//! name length, the name, a NUL byte and zero padding to a multiple of four.
//! `BlobmsgBuf` wraps a `BlobBuf` whose outermost attribute has the table
//! type, so consumers that parse the buffer see it as a top-level table.

use vstd::prelude::*;
use vstd::slice::slice_subrange;

use crate::blob::attr::{
    attr_bytes_valid, attr_data, attrs_of, decode_attr, hdr_extended, hdr_id, hdr_raw_len, msg_hdr_len, payload_of, walks_whole, lemma_attr_roundtrip, lemma_pad4, pad4,
    spec_pad4, zeros, AttrView, BlobAttr, BlobIter, MAX_RAW_LEN,
};
use crate::blob::{add_all, added, add_child, close_innermost, frame_ok, frame_walk, frames_valid, lemma_add_then_walk, grows, lemma_close_then_walk, lemma_grows_add, push_all, push_zeros, stack_bytes, BlobBuf, BlobError};
use crate::endian::{
    be16, be32, be64, from_be16, from_be32, from_be64, lemma_be16_roundtrip,
    lemma_be32_roundtrip, lemma_be64_roundtrip, read_be16, read_be32, read_be64, to_be16,
    to_be32, to_be64,
};
use crate::blob::attr::{encode_all, lemma_encode_then_walk};

verus! {

/// The blobmsg value types, in the order of their wire codes (0 to 8).
/// `Int8` also carries booleans.
#[derive(Clone, Copy, Debug, PartialEq, Eq, Structural)]
pub enum BlobmsgType {
    Unspec,
    Array,
    Table,
    String,
    Int64,
    Int32,
    Int16,
    Int8,
    Double,
}

/// Wire code of a type.
pub open spec fn type_code(t: BlobmsgType) -> nat {
    match t {
        BlobmsgType::Unspec => 0,
        BlobmsgType::Array => 1,
        BlobmsgType::Table => 2,
        BlobmsgType::String => 3,
        BlobmsgType::Int64 => 4,
        BlobmsgType::Int32 => 5,
        BlobmsgType::Int16 => 6,
        BlobmsgType::Int8 => 7,
        BlobmsgType::Double => 8,
    }
}

impl BlobmsgType {
    /// The type whose wire code is `v`, if any.
    pub fn from_raw(v: u32) -> (r: Option<Self>)
        ensures
            r matches Some(t) ==> type_code(t) == v,
            r is None <==> v > 8,
    {
        match v {
            0 => Some(BlobmsgType::Unspec),
            1 => Some(BlobmsgType::Array),
            2 => Some(BlobmsgType::Table),
            3 => Some(BlobmsgType::String),
            4 => Some(BlobmsgType::Int64),
            5 => Some(BlobmsgType::Int32),
            6 => Some(BlobmsgType::Int16),
            7 => Some(BlobmsgType::Int8),
            8 => Some(BlobmsgType::Double),
            _ => None,
        }
    }

    /// The wire code of this type.
    pub fn to_raw(self) -> (r: u32)
        ensures
            r == type_code(self),
    {
        match self {
            BlobmsgType::Unspec => 0,
            BlobmsgType::Array => 1,
            BlobmsgType::Table => 2,
            BlobmsgType::String => 3,
            BlobmsgType::Int64 => 4,
            BlobmsgType::Int32 => 5,
            BlobmsgType::Int16 => 6,
            BlobmsgType::Int8 => 7,
            BlobmsgType::Double => 8,
        }
    }
}

/// The name header written for `name`.
pub open spec fn name_header(name: Seq<u8>) -> Seq<u8> {
    be16(name.len() as u16) + name + seq![0u8] + zeros((msg_hdr_len(name.len()) - (name.len() + 3)) as nat)
}

/// The attribute written for a field of type `t`, named `name`, holding `payload`.
pub open spec fn msg_field(t: BlobmsgType, name: Seq<u8>, payload: Seq<u8>) -> AttrView {
    AttrView { id: type_code(t), extended: true, data: name_header(name) + payload }
}

/// Name of the blobmsg attribute encoded at the start of `b`; empty for a
/// non-extended attribute or a malformed name header.
pub open spec fn msg_name(b: Seq<u8>) -> Seq<u8> {
    let d = attr_data(b);
    if !hdr_extended(b) || d.len() < 2 {
        Seq::empty()
    } else {
        let nl = from_be16(d) as int;
        if 2 + nl + 1 > d.len() || d[2 + nl] != 0 {
            Seq::empty()
        } else {
            d.subrange(2, 2 + nl)
        }
    }
}

/// Payload after the name header of the attribute encoded at the start of
/// `b`; the whole payload for a non-extended attribute.
pub open spec fn msg_payload(b: Seq<u8>) -> Seq<u8> {
    payload_of(hdr_extended(b), attr_data(b))
}

/// The type code of `b` is that of `t`.
pub open spec fn has_type(b: Seq<u8>, t: BlobmsgType) -> bool {
    hdr_id(b) == type_code(t)
}

/// Decoding a field gives back its type, name and payload.
pub proof fn lemma_field_roundtrip(t: BlobmsgType, name: Seq<u8>, payload: Seq<u8>, rest: Seq<u8>)
    requires
        name.len() < 65536,
        msg_field(t, name, payload).fits(),
    ensures
        has_type(msg_field(t, name, payload).bytes() + rest, t),
        hdr_extended(msg_field(t, name, payload).bytes() + rest),
        msg_name(msg_field(t, name, payload).bytes() + rest) == name,
        msg_payload(msg_field(t, name, payload).bytes() + rest) == payload,
{
    let f = msg_field(t, name, payload);
    let b = f.bytes() + rest;
    lemma_attr_roundtrip(f, rest);
    let d = attr_data(b);
    assert(d == name_header(name) + payload);
    lemma_be16_roundtrip(name.len() as u16);
    lemma_pad4(2 + name.len() + 1);
    let h = name_header(name);
    assert(h.len() == msg_hdr_len(name.len()));
    assert(d.subrange(0, 2) =~= be16(name.len() as u16));
    assert(from_be16(d) == from_be16(be16(name.len() as u16)));
    assert(from_be16(d) as nat == name.len());
    assert(d[2 + name.len() as int] == 0);
    assert(d.subrange(2, 2 + name.len() as int) =~= name);
    if h.len() < d.len() {
        assert(d.subrange(h.len() as int, d.len() as int) =~= payload);
    } else {
        assert(payload.len() == 0);
    }
}


/// `after` is `before` with the field added, exactly when the name fits the
/// 16-bit name length and the buffer has room; otherwise `r` is `Err(Oom)`
/// and nothing changed.
pub open spec fn field_added(
    before: Seq<AttrView>,
    after: Seq<AttrView>,
    t: BlobmsgType,
    name: Seq<u8>,
    payload: Seq<u8>,
    r: Result<(), BlobError>,
) -> bool {
    if name.len() < 65536 {
        &&& added(before, after, msg_field(t, name, payload), r)
        &&& r is Ok ==> field_decodes(msg_field(t, name, payload).bytes(), t, name, payload)
    } else {
        r == Err::<(), BlobError>(BlobError::Oom) && after == before
    }
}

/// The field `b` decodes to type `t`, name `name` and payload `payload`,
/// and is extended.
pub open spec fn field_decodes(b: Seq<u8>, t: BlobmsgType, name: Seq<u8>, payload: Seq<u8>) -> bool {
    &&& has_type(b, t)
    &&& hdr_extended(b)
    &&& msg_name(b) == name
    &&& msg_payload(b) == payload
}

/// The name header for `name`.
fn make_name_header(name: &[u8]) -> (r: Vec<u8>)
    requires
        name@.len() < 65536,
    ensures
        r@ == name_header(name@),
{
    let mut h = to_be16(name.len() as u16);
    push_all(&mut h, name);
    h.push(0u8);
    let total = pad4(name.len() + 3);
    push_zeros(&mut h, total - (name.len() + 3));
    proof {
        assert(h@ =~= name_header(name@));
    }
    h
}

/// A nested field's container, freshly opened with its name header, can be
/// held by a buffer, and holds no children yet.
pub proof fn lemma_name_header_frame(t: BlobmsgType, name: Seq<u8>)
    requires
        name.len() < 65536,
    ensures
        frame_ok(AttrView { id: type_code(t), extended: true, data: name_header(name) }),
        payload_of(true, name_header(name)) == Seq::<u8>::empty(),
{
    let h = name_header(name);
    lemma_be16_roundtrip(name.len() as u16);
    lemma_pad4(2 + name.len() + 1);
    assert(h.subrange(0, 2) =~= be16(name.len() as u16));
    assert(h[0] == be16(name.len() as u16)[0] && h[1] == be16(name.len() as u16)[1]);
    assert(from_be16(h) == from_be16(be16(name.len() as u16)));
    assert(h.len() == msg_hdr_len(name.len()));
    assert(payload_of(true, h) =~= Seq::<u8>::empty());
    assert(walks_whole(Seq::<u8>::empty()));
}

/// A blobmsg builder: a `BlobBuf` whose outermost attribute is a table.
pub struct BlobmsgBuf(BlobBuf);

impl View for BlobmsgBuf {
    type V = Seq<AttrView>;

    closed spec fn view(&self) -> Seq<AttrView> {
        self.0@
    }
}

impl BlobmsgBuf {
    pub closed spec fn wf(&self) -> bool {
        &&& self.0.wf()
        &&& self.0@[0].id == type_code(BlobmsgType::Table)
    }

    /// A well-formed buffer holds a valid stack of open containers whose
    /// outermost one is a table.
    pub proof fn lemma_wf(&self)
        requires
            self.wf(),
        ensures
            frames_valid(self@),
            self@[0].id == type_code(BlobmsgType::Table),
    {
        self.0.lemma_wf();
    }

    /// An empty buffer whose outermost attribute is a table.
    pub fn new() -> (r: Result<Self, BlobError>)
        ensures
            r matches Ok(b) && b.wf() && b@ == seq![
                AttrView { id: type_code(BlobmsgType::Table), extended: false, data: Seq::empty() },
            ],
    {
        Ok(BlobmsgBuf(BlobBuf::with_root_id(2)))
    }

    /// The buffer's bytes.
    pub fn as_ptr(&self) -> (r: &[u8])
        requires
            self.wf(),
        ensures
            r@ == stack_bytes(self@),
    {
        self.0.as_ptr()
    }

    /// The underlying blob buffer.
    pub fn into_inner(self) -> (r: BlobBuf)
        requires
            self.wf(),
        ensures
            r.wf(),
            r@ == self@,
            r@[0].id == type_code(BlobmsgType::Table),
    {
        self.0
    }

    fn add_field(&mut self, ty: BlobmsgType, name: &[u8], data: &[u8]) -> (r: Result<(), BlobError>)
        requires
            old(self).wf(),
        ensures
            final(self).wf(),
            grows(old(self)@, final(self)@),
            field_added(old(self)@, final(self)@, ty, name@, data@, r),
    {
        proof {
            old(self).0.lemma_wf();
            lemma_grows_add(old(self)@, msg_field(ty, name@, data@));
        }
        if name.len() > 65535 {
            return Err(BlobError::Oom);
        }
        let mut all = make_name_header(name);
        push_all(&mut all, data);
        let r = self.0.put(ty.to_raw(), true, all.as_slice());
        proof {
            if r is Ok {
                let f = msg_field(ty, name@, data@);
                lemma_field_roundtrip(ty, name@, data@, Seq::empty());
                assert(f.bytes() + Seq::<u8>::empty() =~= f.bytes());
            }
        }
        r
    }

    /// Adds a string field: the bytes of `value` followed by a NUL byte.
    pub fn add_string(&mut self, name: &[u8], value: &[u8]) -> (r: Result<(), BlobError>)
        requires
            old(self).wf(),
        ensures
            final(self).wf(),
            grows(old(self)@, final(self)@),
            field_added(old(self)@, final(self)@, BlobmsgType::String, name@, value@.push(0u8), r),
    {
        let mut data = vstd::slice::slice_to_vec(value);
        data.push(0u8);
        self.add_field(BlobmsgType::String, name, data.as_slice())
    }

    pub fn add_u8(&mut self, name: &[u8], value: u8) -> (r: Result<(), BlobError>)
        requires
            old(self).wf(),
        ensures
            final(self).wf(),
            grows(old(self)@, final(self)@),
            field_added(old(self)@, final(self)@, BlobmsgType::Int8, name@, seq![value], r),
    {
        let mut data: Vec<u8> = Vec::new();
        data.push(value);
        proof { assert(data@ =~= seq![value]); }
        self.add_field(BlobmsgType::Int8, name, data.as_slice())
    }

    pub fn add_u16(&mut self, name: &[u8], value: u16) -> (r: Result<(), BlobError>)
        requires
            old(self).wf(),
        ensures
            final(self).wf(),
            grows(old(self)@, final(self)@),
            field_added(old(self)@, final(self)@, BlobmsgType::Int16, name@, be16(value), r),
    {
        let data = to_be16(value);
        self.add_field(BlobmsgType::Int16, name, data.as_slice())
    }

    pub fn add_u32(&mut self, name: &[u8], value: u32) -> (r: Result<(), BlobError>)
        requires
            old(self).wf(),
        ensures
            final(self).wf(),
            grows(old(self)@, final(self)@),
            field_added(old(self)@, final(self)@, BlobmsgType::Int32, name@, be32(value), r),
    {
        let data = to_be32(value);
        self.add_field(BlobmsgType::Int32, name, data.as_slice())
    }

    pub fn add_u64(&mut self, name: &[u8], value: u64) -> (r: Result<(), BlobError>)
        requires
            old(self).wf(),
        ensures
            final(self).wf(),
            grows(old(self)@, final(self)@),
            field_added(old(self)@, final(self)@, BlobmsgType::Int64, name@, be64(value), r),
    {
        let data = to_be64(value);
        self.add_field(BlobmsgType::Int64, name, data.as_slice())
    }

    pub fn add_i8(&mut self, name: &[u8], value: i8) -> (r: Result<(), BlobError>)
        requires
            old(self).wf(),
        ensures
            final(self).wf(),
            grows(old(self)@, final(self)@),
            field_added(old(self)@, final(self)@, BlobmsgType::Int8, name@, seq![value as u8], r),
    {
        self.add_u8(name, value as u8)
    }

    pub fn add_i16(&mut self, name: &[u8], value: i16) -> (r: Result<(), BlobError>)
        requires
            old(self).wf(),
        ensures
            final(self).wf(),
            grows(old(self)@, final(self)@),
            field_added(old(self)@, final(self)@, BlobmsgType::Int16, name@, be16(value as u16), r),
    {
        self.add_u16(name, value as u16)
    }

    pub fn add_i32(&mut self, name: &[u8], value: i32) -> (r: Result<(), BlobError>)
        requires
            old(self).wf(),
        ensures
            final(self).wf(),
            grows(old(self)@, final(self)@),
            field_added(old(self)@, final(self)@, BlobmsgType::Int32, name@, be32(value as u32), r),
    {
        self.add_u32(name, value as u32)
    }

    pub fn add_i64(&mut self, name: &[u8], value: i64) -> (r: Result<(), BlobError>)
        requires
            old(self).wf(),
        ensures
            final(self).wf(),
            grows(old(self)@, final(self)@),
            field_added(old(self)@, final(self)@, BlobmsgType::Int64, name@, be64(value as u64), r),
    {
        self.add_u64(name, value as u64)
    }

    /// Adds a `Double` field holding the IEEE-754 bit pattern `bits`.
    pub fn add_double_bits(&mut self, name: &[u8], bits: u64) -> (r: Result<(), BlobError>)
        requires
            old(self).wf(),
        ensures
            final(self).wf(),
            grows(old(self)@, final(self)@),
            field_added(old(self)@, final(self)@, BlobmsgType::Double, name@, be64(bits), r),
    {
        let data = to_be64(bits);
        self.add_field(BlobmsgType::Double, name, data.as_slice())
    }

    /// Adds a boolean as an `Int8` field holding 1 or 0.
    pub fn add_bool(&mut self, name: &[u8], value: bool) -> (r: Result<(), BlobError>)
        requires
            old(self).wf(),
        ensures
            final(self).wf(),
            grows(old(self)@, final(self)@),
            field_added(old(self)@, final(self)@, BlobmsgType::Int8, name@, seq![if value { 1u8 } else { 0u8 }], r),
    {
        self.add_u8(name, if value { 1u8 } else { 0u8 })
    }

    fn open_nested<F>(&mut self, name: &[u8], array: bool, f: F) -> (r: Result<(), BlobError>)
        where
            F: FnOnce(&mut BlobmsgBuf) -> Result<(), BlobError>,
        requires
            old(self).wf(),
            forall|b: &mut BlobmsgBuf| (*b).wf() ==> call_requires(f, (b,)),
            forall|b: &mut BlobmsgBuf, x: Result<(), BlobError>|
                (*b).wf() && call_ensures(f, (b,), x) ==> final(b).wf() && grows((*b)@, final(b)@),
        ensures
            final(self).wf(),
            grows(old(self)@, final(self)@),
            nested_fails(old(self)@, name@) ==> r == Err::<(), BlobError>(BlobError::Oom) && final(self)@ == old(self)@,
            !nested_fails(old(self)@, name@) ==> exists|b: &mut BlobmsgBuf|
                {
                    &&& (*b).wf()
                    &&& (*b)@ == nested_opened(old(self)@, if array { BlobmsgType::Array } else { BlobmsgType::Table }, name@)
                    &&& call_ensures(f, (b,), r)
                    &&& final(self)@ == close_innermost(final(b)@)
                    &&& attrs_of(frame_walk(final(self)@.last()))
                        == attrs_of(frame_walk(old(self)@.last())).push(final(b)@.last().bytes())
                    &&& has_type(final(b)@.last().bytes(), if array { BlobmsgType::Array } else { BlobmsgType::Table })
                    &&& hdr_extended(final(b)@.last().bytes())
                    &&& msg_name(final(b)@.last().bytes()) == name@
                    &&& msg_payload(final(b)@.last().bytes()) == frame_walk(final(b)@.last())
                },
    {
        proof {
            old(self).0.lemma_wf();
            lemma_grows_add(old(self)@, msg_field(BlobmsgType::Table, name@, Seq::empty()));
        }
        if name.len() > 65535 {
            return Err(BlobError::Oom);
        }
        let hdr = make_name_header(name);
        let ty = if array { BlobmsgType::Array } else { BlobmsgType::Table };
        proof {
            lemma_name_header_frame(ty, name@);
        }
        match self.0.open_frame(ty.to_raw(), true, hdr.as_slice()) {
            Ok(()) => {},
            Err(e) => return Err(e),
        }
        assert(self.wf());
        let result = f(self);
        assert(self.wf());
        proof {
            self.0.lemma_wf();
            lemma_nested_field_then_walk(old(self)@, ty, name@, self@);
        }
        self.0.close_frame();
        result
    }

    /// Adds an array field named `name` and calls `f` to add its elements.
    /// Fails with `Oom`, without calling `f`, where the name does not fit the
    /// 16-bit name length or the buffer has no room for the array's header.
    pub fn add_array<F>(&mut self, name: &[u8], f: F) -> (r: Result<(), BlobError>)
        where
            F: FnOnce(&mut BlobmsgBuf) -> Result<(), BlobError>,
        requires
            old(self).wf(),
            forall|b: &mut BlobmsgBuf| (*b).wf() ==> call_requires(f, (b,)),
            forall|b: &mut BlobmsgBuf, x: Result<(), BlobError>|
                (*b).wf() && call_ensures(f, (b,), x) ==> final(b).wf() && grows((*b)@, final(b)@),
        ensures
            final(self).wf(),
            grows(old(self)@, final(self)@),
            nested_fails(old(self)@, name@) ==> r == Err::<(), BlobError>(BlobError::Oom) && final(self)@ == old(self)@,
            !nested_fails(old(self)@, name@) ==> exists|b: &mut BlobmsgBuf|
                {
                    &&& (*b).wf()
                    &&& (*b)@ == nested_opened(old(self)@, BlobmsgType::Array, name@)
                    &&& call_ensures(f, (b,), r)
                    &&& final(self)@ == close_innermost(final(b)@)
                    &&& attrs_of(frame_walk(final(self)@.last()))
                        == attrs_of(frame_walk(old(self)@.last())).push(final(b)@.last().bytes())
                    &&& has_type(final(b)@.last().bytes(), BlobmsgType::Array)
                    &&& hdr_extended(final(b)@.last().bytes())
                    &&& msg_name(final(b)@.last().bytes()) == name@
                    &&& msg_payload(final(b)@.last().bytes()) == frame_walk(final(b)@.last())
                },
    {
        self.open_nested(name, true, f)
    }

    /// Adds a table field named `name` and calls `f` to add its fields.
    /// Fails as `add_array` does.
    pub fn add_table<F>(&mut self, name: &[u8], f: F) -> (r: Result<(), BlobError>)
        where
            F: FnOnce(&mut BlobmsgBuf) -> Result<(), BlobError>,
        requires
            old(self).wf(),
            forall|b: &mut BlobmsgBuf| (*b).wf() ==> call_requires(f, (b,)),
            forall|b: &mut BlobmsgBuf, x: Result<(), BlobError>|
                (*b).wf() && call_ensures(f, (b,), x) ==> final(b).wf() && grows((*b)@, final(b)@),
        ensures
            final(self).wf(),
            grows(old(self)@, final(self)@),
            nested_fails(old(self)@, name@) ==> r == Err::<(), BlobError>(BlobError::Oom) && final(self)@ == old(self)@,
            !nested_fails(old(self)@, name@) ==> exists|b: &mut BlobmsgBuf|
                {
                    &&& (*b).wf()
                    &&& (*b)@ == nested_opened(old(self)@, BlobmsgType::Table, name@)
                    &&& call_ensures(f, (b,), r)
                    &&& final(self)@ == close_innermost(final(b)@)
                    &&& attrs_of(frame_walk(final(self)@.last()))
                        == attrs_of(frame_walk(old(self)@.last())).push(final(b)@.last().bytes())
                    &&& has_type(final(b)@.last().bytes(), BlobmsgType::Table)
                    &&& hdr_extended(final(b)@.last().bytes())
                    &&& msg_name(final(b)@.last().bytes()) == name@
                    &&& msg_payload(final(b)@.last().bytes()) == frame_walk(final(b)@.last())
                },
    {
        self.open_nested(name, false, f)
    }

    /// Adds copies of the fields of `src`, in the order a walk over its
    /// payload yields them, each re-encoded from its id, extended flag and
    /// payload. Stops with `Oom` at the first field the buffer has no room
    /// for, the fields before it having been added.
    pub fn add_fields_from(&mut self, src: BlobmsgAttr) -> (r: Result<(), BlobError>)
        requires
            old(self).wf(),
        ensures
            final(self).wf(),
            ({
                let items = attrs_of(msg_payload(src@)).map_values(|a: Seq<u8>| decode_attr(a));
                &&& r is Ok ==> final(self)@ == add_all(old(self)@, items)
                &&& r is Err ==> r == Err::<(), BlobError>(BlobError::Oom) && exists|k: int|
                    0 <= k < items.len() && final(self)@ == add_all(old(self)@, items.take(k))
                        && stack_bytes(final(self)@).len() + items[k].bytes().len() > MAX_RAW_LEN
            }),
    {
        let ghost items = attrs_of(msg_payload(src@)).map_values(|a: Seq<u8>| decode_attr(a));
        let mut it = src.iter();
        let ghost mut done: int = 0;
        proof {
            assert(items.take(0) =~= Seq::<AttrView>::empty());
        }
        loop
            invariant
                self.wf(),
                0 <= done <= items.len(),
                items == attrs_of(msg_payload(src@)).map_values(|a: Seq<u8>| decode_attr(a)),
                attrs_of(msg_payload(src@)) == attrs_of(msg_payload(src@)).take(done) + attrs_of(it@),
                self@ == add_all(old(self)@, items.take(done)),
            decreases it@.len(),
        {
            let ghost rem = it@;
            match it.next() {
                None => {
                    assert(attrs_of(rem) =~= Seq::<Seq<u8>>::empty());
                    assert(done == items.len());
                    assert(items.take(done) =~= items);
                    return Ok(());
                },
                Some(a) => {
                    assert(attrs_of(rem) =~= seq![a@] + attrs_of(it@));
                    let ghost walked = attrs_of(msg_payload(src@));
                    assert(walked[done] == a@) by {
                        assert((walked.take(done) + attrs_of(rem))[done] == attrs_of(rem)[0]);
                    }
                    let b = a.raw();
                    let id = b.id();
                    let ext = b.is_extended();
                    let data = b.data();
                    proof {
                        let child = AttrView { id: (id % 128) as nat, extended: ext, data: data@ };
                        assert(child == items[done]);
                    }
                    match self.0.put(id, ext, data) {
                        Ok(()) => {
                            proof {
                                assert(items.take(done + 1).drop_last() =~= items.take(done));
                                assert(items.take(done + 1).last() == items[done]);
                                assert(walked.take(done + 1) + attrs_of(it@) =~= walked.take(done) + attrs_of(rem));
                                done = done + 1;
                            }
                        },
                        Err(e) => {
                            return Err(e);
                        },
                    }
                },
            }
        }
    }

    /// Borrowed view of the buffer's outermost table.
    pub fn root(&self) -> (r: BlobmsgAttr<'_>)
        requires
            self.wf(),
        ensures
            r@ == stack_bytes(self@).subrange(0, crate::blob::root_raw_len(self@) as int),
            has_type(r@, BlobmsgType::Table),
            !hdr_extended(r@),
            self@.len() == 1 ==> r@ == self@[0].open_bytes(),
            self@.len() == 1 ==> msg_payload(r@) == frame_walk(self@[0]),
    {
        BlobmsgAttr::from_blob(self.0.root())
    }
}

/// Opening a nested field named `name` fails with `Oom` exactly where the
/// name does not fit the 16-bit name length or the buffer has no room for
/// the field's header.
pub open spec fn nested_fails(before: Seq<AttrView>, name: Seq<u8>) -> bool {
    name.len() >= 65536 || stack_bytes(before).len() + 4 + msg_hdr_len(name.len()) > MAX_RAW_LEN
}

/// The stack of open containers once a nested field of type `t` named `name`
/// is opened.
pub open spec fn nested_opened(before: Seq<AttrView>, t: BlobmsgType, name: Seq<u8>) -> Seq<AttrView> {
    before.push(AttrView { id: type_code(t), extended: true, data: name_header(name) })
}

/// Walk law for fields: adding a field to a buffer's innermost open
/// container keeps the buffer valid, and the walk of that container yields
/// what it yielded before, then exactly one more attribute: extended, of
/// type `t`, named `name`, holding `payload`.
pub proof fn lemma_add_field_then_walk(fs: Seq<AttrView>, t: BlobmsgType, name: Seq<u8>, payload: Seq<u8>)
    requires
        frames_valid(fs),
        name.len() < 65536,
        msg_field(t, name, payload).fits(),
        stack_bytes(fs).len() + msg_field(t, name, payload).bytes().len() <= MAX_RAW_LEN,
    ensures
        ({
            let b = msg_field(t, name, payload).bytes();
            &&& frames_valid(add_child(fs, msg_field(t, name, payload)))
            &&& grows(fs, add_child(fs, msg_field(t, name, payload)))
            &&& attrs_of(frame_walk(add_child(fs, msg_field(t, name, payload)).last())) == attrs_of(frame_walk(fs.last())).push(b)
            &&& has_type(b, t)
            &&& hdr_extended(b)
            &&& msg_name(b) == name
            &&& msg_payload(b) == payload
        }),
{
    let f = msg_field(t, name, payload);
    lemma_add_then_walk(fs, f);
    lemma_field_roundtrip(t, name, payload, Seq::empty());
    assert(f.bytes() + Seq::<u8>::empty() =~= f.bytes());
}

/// Walk law for nested fields: a table or array field opened inside the
/// innermost container of `before`, grown while open into the innermost
/// container of `after`, and then closed, stands in `before`'s innermost
/// container as one more attribute: extended, of type `t`, named `name`,
/// whose children are exactly what was added while it was open.
pub proof fn lemma_nested_field_then_walk(before: Seq<AttrView>, t: BlobmsgType, name: Seq<u8>, after: Seq<AttrView>)
    requires
        frames_valid(before),
        frames_valid(after),
        name.len() < 65536,
        grows(nested_opened(before, t, name), after),
    ensures
        ({
            let c = after.last().bytes();
            &&& close_innermost(after) == add_child(before, after.last())
            &&& frames_valid(close_innermost(after))
            &&& grows(before, close_innermost(after))
            &&& attrs_of(frame_walk(close_innermost(after).last())) == attrs_of(frame_walk(before.last())).push(c)
            &&& has_type(c, t)
            &&& hdr_extended(c)
            &&& msg_name(c) == name
            &&& msg_payload(c) == frame_walk(after.last())
            &&& walks_whole(msg_payload(c))
        }),
{
    let nh = name_header(name);
    let nf = AttrView { id: type_code(t), extended: true, data: nh };
    lemma_close_then_walk(before, nf, after);
    let c = after.last().bytes();
    let d = after.last().data;
    assert(attr_data(c) == d);
    lemma_be16_roundtrip(name.len() as u16);
    lemma_pad4(2 + name.len() + 1);
    assert(nh.len() == msg_hdr_len(name.len()));
    assert(d.subrange(0, nh.len() as int) == nh);
    assert(d[0] == nh[0] && d[1] == nh[1]) by {
        assert(d.subrange(0, nh.len() as int)[0] == d[0]);
        assert(d.subrange(0, nh.len() as int)[1] == d[1]);
    }
    assert(nh.subrange(0, 2) =~= be16(name.len() as u16));
    assert(from_be16(d) == from_be16(be16(name.len() as u16)));
    assert(d[2 + name.len() as int] == nh[2 + name.len() as int]) by {
        assert(d.subrange(0, nh.len() as int)[2 + name.len() as int] == d[2 + name.len() as int]);
    }
    assert(d.subrange(2, 2 + name.len() as int) =~= name) by {
        assert forall|i: int| 0 <= i < name.len() implies d.subrange(2, 2 + name.len() as int)[i] == name[i] by {
            assert(d.subrange(0, nh.len() as int)[2 + i] == d[2 + i]);
            assert(nh[2 + i] == name[i]);
        }
    }
}

/// Every field the builder writes passes the parser's checks: a name that
/// fits the 16-bit name length and a payload that suits the type.
pub proof fn lemma_field_passes_checks(t: BlobmsgType, name: Seq<u8>, payload: Seq<u8>)
    requires
        name.len() < 65536,
        msg_field(t, name, payload).fits(),
        payload_ok(type_code(t), payload),
    ensures
        msg_attr_ok(msg_field(t, name, payload).bytes()),
{
    let f = msg_field(t, name, payload);
    let b = f.bytes();
    lemma_field_roundtrip(t, name, payload, Seq::empty());
    lemma_attr_roundtrip(f, Seq::empty());
    assert(b + Seq::<u8>::empty() =~= b);
    assert(hdr_raw_len(b) >= 4);
    assert(hdr_id(b) == type_code(t));
    assert(msg_payload(b) == payload);
    assert(payload_ok(hdr_id(b), msg_payload(b)));
    lemma_name_header_ok(name, payload, attr_data(b));
}

proof fn lemma_name_header_ok(name: Seq<u8>, payload: Seq<u8>, d: Seq<u8>)
    requires
        name.len() < 65536,
        d == name_header(name) + payload,
    ensures
        d.len() >= 2,
        msg_hdr_len(from_be16(d) as nat) <= d.len(),
        d[2 + from_be16(d) as int] == 0,
{
    lemma_be16_roundtrip(name.len() as u16);
    lemma_pad4(2 + name.len() + 1);
    assert(d.subrange(0, 2) =~= be16(name.len() as u16));
    assert(from_be16(d) == from_be16(be16(name.len() as u16)));
    assert(d[2 + name.len() as int] == 0);
}

/// A table built from fields that pass the checks parses without error, and
/// each policy gets the first of those fields that answers it.
pub proof fn lemma_parse_built(policies: Seq<(Seq<u8>, BlobmsgType)>, fields: Seq<AttrView>)
    requires
        fields.len() > 0,
        forall|i: int| 0 <= i < fields.len() ==> #[trigger] fields[i].fits() && msg_attr_ok(fields[i].bytes()),
    ensures
        parse_outcome(policies, encode_all(fields)) == Ok::<Seq<Option<Seq<u8>>>, BlobError>(Seq::new(
            policies.len(),
            |i: int| first_match(fields.map_values(|a: AttrView| a.bytes()), policies[i].0, policies[i].1),
        )),
{
    let walked = fields.map_values(|a: AttrView| a.bytes());
    assert forall|i: int| 0 <= i < fields.len() implies #[trigger] fields[i].fits() by {}
    lemma_encode_then_walk(fields, Seq::empty());
    assert(encode_all(fields) + Seq::<u8>::empty() =~= encode_all(fields));
    assert(attrs_of(Seq::<u8>::empty()) =~= Seq::<Seq<u8>>::empty());
    assert(attrs_of(encode_all(fields)) =~= walked);
    let last = fields.last();
    assert(fields[fields.len() - 1].fits());
    lemma_attr_roundtrip(last, Seq::empty());
    assert(encode_all(fields).len() > 0);
    assert forall|j: int| 0 <= j < walked.len() implies msg_attr_ok(#[trigger] walked[j]) by {
        assert(fields[j].fits() && msg_attr_ok(fields[j].bytes()));
    }
}

/// A string written by `add_string` reads back through `as_str`.
pub proof fn lemma_string_roundtrip(name: Seq<u8>, value: Seq<u8>)
    requires
        name.len() < 65536,
        msg_field(BlobmsgType::String, name, value.push(0u8)).fits(),
    ensures
        ({
            let b = msg_field(BlobmsgType::String, name, value.push(0u8)).bytes();
            &&& has_type(b, BlobmsgType::String)
            &&& msg_name(b) == name
            &&& msg_payload(b).len() >= 1 && msg_payload(b).last() == 0
            &&& msg_payload(b).drop_last() == value
        }),
{
    let b = msg_field(BlobmsgType::String, name, value.push(0u8)).bytes();
    lemma_field_roundtrip(BlobmsgType::String, name, value.push(0u8), Seq::empty());
    assert(b + Seq::<u8>::empty() =~= b);
    assert(value.push(0u8).drop_last() =~= value);
}

/// A byte written by `add_u8`, `add_i8` or `add_bool` reads back through
/// `as_u8`, `as_i8` and `as_bool`.
pub proof fn lemma_u8_roundtrip(name: Seq<u8>, v: u8)
    requires
        name.len() < 65536,
        msg_field(BlobmsgType::Int8, name, seq![v]).fits(),
    ensures
        ({
            let b = msg_field(BlobmsgType::Int8, name, seq![v]).bytes();
            &&& has_type(b, BlobmsgType::Int8)
            &&& msg_name(b) == name
            &&& msg_payload(b).len() >= 1
            &&& msg_payload(b)[0] == v
            &&& (msg_payload(b)[0] as i8) as u8 == v
        }),
{
    let b = msg_field(BlobmsgType::Int8, name, seq![v]).bytes();
    lemma_field_roundtrip(BlobmsgType::Int8, name, seq![v], Seq::empty());
    assert(b + Seq::<u8>::empty() =~= b);
    assert((v as i8) as u8 == v) by (bit_vector);
}

/// A value written by `add_u16` or `add_i16` reads back through `as_u16`
/// and `as_i16`.
pub proof fn lemma_u16_roundtrip(name: Seq<u8>, v: u16)
    requires
        name.len() < 65536,
        msg_field(BlobmsgType::Int16, name, be16(v)).fits(),
    ensures
        ({
            let b = msg_field(BlobmsgType::Int16, name, be16(v)).bytes();
            &&& has_type(b, BlobmsgType::Int16)
            &&& msg_name(b) == name
            &&& msg_payload(b).len() >= 2
            &&& from_be16(msg_payload(b)) == v
            &&& ((v as i16) as u16) as i16 == v as i16
        }),
{
    let b = msg_field(BlobmsgType::Int16, name, be16(v)).bytes();
    lemma_field_roundtrip(BlobmsgType::Int16, name, be16(v), Seq::empty());
    assert(b + Seq::<u8>::empty() =~= b);
    lemma_be16_roundtrip(v);
    assert(((v as i16) as u16) as i16 == v as i16) by (bit_vector);
}

/// A value written by `add_u32` or `add_i32` reads back through `as_u32`
/// and `as_i32`.
pub proof fn lemma_u32_roundtrip(name: Seq<u8>, v: u32)
    requires
        name.len() < 65536,
        msg_field(BlobmsgType::Int32, name, be32(v)).fits(),
    ensures
        ({
            let b = msg_field(BlobmsgType::Int32, name, be32(v)).bytes();
            &&& has_type(b, BlobmsgType::Int32)
            &&& msg_name(b) == name
            &&& msg_payload(b).len() >= 4
            &&& from_be32(msg_payload(b)) == v
        }),
{
    let b = msg_field(BlobmsgType::Int32, name, be32(v)).bytes();
    lemma_field_roundtrip(BlobmsgType::Int32, name, be32(v), Seq::empty());
    assert(b + Seq::<u8>::empty() =~= b);
    lemma_be32_roundtrip(v);
}

/// A value written by `add_u64`, `add_i64` or `add_double_bits` reads back
/// through `as_u64`, `as_i64` and `as_double_bits`.
pub proof fn lemma_u64_roundtrip(name: Seq<u8>, t: BlobmsgType, v: u64)
    requires
        t == BlobmsgType::Int64 || t == BlobmsgType::Double,
        name.len() < 65536,
        msg_field(t, name, be64(v)).fits(),
    ensures
        ({
            let b = msg_field(t, name, be64(v)).bytes();
            &&& has_type(b, t)
            &&& msg_name(b) == name
            &&& msg_payload(b).len() >= 8
            &&& from_be64(msg_payload(b)) == v
        }),
{
    let b = msg_field(t, name, be64(v)).bytes();
    lemma_field_roundtrip(t, name, be64(v), Seq::empty());
    assert(b + Seq::<u8>::empty() =~= b);
    lemma_be64_roundtrip(v);
}

/// Signed values survive the round trip through their unsigned encoding.
pub proof fn lemma_signed_casts(a: i8, b: i16, c: i32, d: i64)
    ensures
        (a as u8) as i8 == a,
        (b as u16) as i16 == b,
        (c as u32) as i32 == c,
        (d as u64) as i64 == d,
{
    assert((a as u8) as i8 == a) by (bit_vector);
    assert((b as u16) as i16 == b) by (bit_vector);
    assert((c as u32) as i32 == c) by (bit_vector);
    assert((d as u64) as i64 == d) by (bit_vector);
}

/// Typed view of a blobmsg-extended attribute, or of the (non-extended)
/// outermost table of a `BlobmsgBuf`.
#[derive(Clone, Copy)]
pub struct BlobmsgAttr<'a> {
    inner: BlobAttr<'a>,
}

impl<'a> View for BlobmsgAttr<'a> {
    type V = Seq<u8>;

    closed spec fn view(&self) -> Seq<u8> {
        self.inner@
    }
}

impl<'a> BlobmsgAttr<'a> {
    /// View a blob attribute as a blobmsg attribute.
    pub fn from_blob(inner: BlobAttr<'a>) -> (r: Self)
        ensures
            r@ == inner@,
    {
        BlobmsgAttr { inner }
    }

    /// The attribute as a plain blob attribute.
    pub fn raw(&self) -> (r: BlobAttr<'a>)
        ensures
            r@ == self@,
    {
        self.inner
    }

    /// The attribute's type, if its id is a blobmsg type code.
    pub fn type_id(&self) -> (r: Option<BlobmsgType>)
        ensures
            r matches Some(t) ==> has_type(self@, t),
            r is None <==> hdr_id(self@) > 8,
    {
        BlobmsgType::from_raw(self.inner.id())
    }

    /// Field name. Empty for a non-extended attribute (notably the
    /// outermost table) and for a malformed name header.
    pub fn name(&self) -> (r: &'a [u8])
        ensures
            r@ == msg_name(self@),
    {
        let data = self.inner.data();
        if !self.inner.is_extended() || data.len() < 2 {
            return slice_subrange(data, 0, 0);
        }
        let namelen = read_be16(data) as usize;
        let end = 2 + namelen + 1;
        if end > data.len() || data[2 + namelen] != 0 {
            return slice_subrange(data, 0, 0);
        }
        slice_subrange(data, 2, 2 + namelen)
    }

    /// Bytes after the name header. For a non-extended attribute this is the
    /// whole payload.
    pub fn payload(&self) -> (r: &'a [u8])
        ensures
            r@ == msg_payload(self@),
            r@.len() < MAX_RAW_LEN,
    {
        let data = self.inner.data();
        if !self.inner.is_extended() || data.len() < 2 {
            return data;
        }
        let namelen = read_be16(data) as usize;
        let hdr_len = pad4(2 + namelen + 1);
        if hdr_len >= data.len() {
            return slice_subrange(data, 0, 0);
        }
        slice_subrange(data, hdr_len, data.len())
    }

    /// The string a `String` field holds: its payload without the final NUL.
    pub fn as_str(&self) -> (r: Option<&'a [u8]>)
        ensures
            match r {
                Some(s) => has_type(self@, BlobmsgType::String) && msg_payload(self@).len() >= 1
                    && msg_payload(self@).last() == 0 && s@ == msg_payload(self@).drop_last(),
                None => !(has_type(self@, BlobmsgType::String) && msg_payload(self@).len() >= 1
                    && msg_payload(self@).last() == 0),
            },
    {
        if self.inner.id() != 3 {
            return None;
        }
        let p = self.payload();
        if p.len() == 0 || p[p.len() - 1] != 0 {
            return None;
        }
        Some(slice_subrange(p, 0, p.len() - 1))
    }

    /// The byte an `Int8` field holds.
    pub fn as_u8(&self) -> (r: Option<u8>)
        ensures
            r == (if has_type(self@, BlobmsgType::Int8) && msg_payload(self@).len() >= 1 {
                Some(msg_payload(self@)[0])
            } else {
                None::<u8>
            }),
    {
        if self.inner.id() != 7 {
            return None;
        }
        let p = self.payload();
        if p.len() < 1 {
            return None;
        }
        Some(p[0])
    }

    /// The big-endian value an `Int16` field holds.
    pub fn as_u16(&self) -> (r: Option<u16>)
        ensures
            r == (if has_type(self@, BlobmsgType::Int16) && msg_payload(self@).len() >= 2 {
                Some(from_be16(msg_payload(self@)))
            } else {
                None::<u16>
            }),
    {
        if self.inner.id() != 6 {
            return None;
        }
        let p = self.payload();
        if p.len() < 2 {
            return None;
        }
        Some(read_be16(p))
    }

    /// The big-endian value an `Int32` field holds.
    pub fn as_u32(&self) -> (r: Option<u32>)
        ensures
            r == (if has_type(self@, BlobmsgType::Int32) && msg_payload(self@).len() >= 4 {
                Some(from_be32(msg_payload(self@)))
            } else {
                None::<u32>
            }),
    {
        if self.inner.id() != 5 {
            return None;
        }
        let p = self.payload();
        if p.len() < 4 {
            return None;
        }
        Some(read_be32(p))
    }

    /// The big-endian value an `Int64` field holds.
    pub fn as_u64(&self) -> (r: Option<u64>)
        ensures
            r == (if has_type(self@, BlobmsgType::Int64) && msg_payload(self@).len() >= 8 {
                Some(from_be64(msg_payload(self@)))
            } else {
                None::<u64>
            }),
    {
        if self.inner.id() != 4 {
            return None;
        }
        let p = self.payload();
        if p.len() < 8 {
            return None;
        }
        Some(read_be64(p))
    }

    /// The IEEE-754 bit pattern a `Double` field holds (big-endian).
    pub fn as_double_bits(&self) -> (r: Option<u64>)
        ensures
            r == (if has_type(self@, BlobmsgType::Double) && msg_payload(self@).len() >= 8 {
                Some(from_be64(msg_payload(self@)))
            } else {
                None::<u64>
            }),
    {
        if self.inner.id() != 8 {
            return None;
        }
        let p = self.payload();
        if p.len() < 8 {
            return None;
        }
        Some(read_be64(p))
    }

    /// An `Int8` field read as a boolean: any non-zero byte is `true`.
    pub fn as_bool(&self) -> (r: Option<bool>)
        ensures
            r == (if has_type(self@, BlobmsgType::Int8) && msg_payload(self@).len() >= 1 {
                Some(msg_payload(self@)[0] != 0)
            } else {
                None::<bool>
            }),
    {
        match self.as_u8() {
            Some(v) => Some(v != 0),
            None => None,
        }
    }

    pub fn as_i8(&self) -> (r: Option<i8>)
        ensures
            r == (if has_type(self@, BlobmsgType::Int8) && msg_payload(self@).len() >= 1 {
                Some(msg_payload(self@)[0] as i8)
            } else {
                None::<i8>
            }),
    {
        match self.as_u8() {
            Some(v) => Some(v as i8),
            None => None,
        }
    }

    pub fn as_i16(&self) -> (r: Option<i16>)
        ensures
            r == (if has_type(self@, BlobmsgType::Int16) && msg_payload(self@).len() >= 2 {
                Some(from_be16(msg_payload(self@)) as i16)
            } else {
                None::<i16>
            }),
    {
        match self.as_u16() {
            Some(v) => Some(v as i16),
            None => None,
        }
    }

    pub fn as_i32(&self) -> (r: Option<i32>)
        ensures
            r == (if has_type(self@, BlobmsgType::Int32) && msg_payload(self@).len() >= 4 {
                Some(from_be32(msg_payload(self@)) as i32)
            } else {
                None::<i32>
            }),
    {
        match self.as_u32() {
            Some(v) => Some(v as i32),
            None => None,
        }
    }

    pub fn as_i64(&self) -> (r: Option<i64>)
        ensures
            r == (if has_type(self@, BlobmsgType::Int64) && msg_payload(self@).len() >= 8 {
                Some(from_be64(msg_payload(self@)) as i64)
            } else {
                None::<i64>
            }),
    {
        match self.as_u64() {
            Some(v) => Some(v as i64),
            None => None,
        }
    }

    fn iter_if(&self, expected: BlobmsgType) -> (r: Option<BlobmsgIter<'a>>)
        ensures
            match r {
                Some(it) => has_type(self@, expected) && it@ == msg_payload(self@),
                None => !has_type(self@, expected),
            },
    {
        if self.inner.id() == expected.to_raw() {
            Some(self.iter())
        } else {
            None
        }
    }

    /// The children of a table. The outermost table of a `BlobmsgBuf` has
    /// the table type but is not extended; this works for either.
    pub fn as_table(&self) -> (r: Option<BlobmsgIter<'a>>)
        ensures
            match r {
                Some(it) => has_type(self@, BlobmsgType::Table) && it@ == msg_payload(self@),
                None => !has_type(self@, BlobmsgType::Table),
            },
    {
        self.iter_if(BlobmsgType::Table)
    }

    /// The elements of an array.
    pub fn as_array(&self) -> (r: Option<BlobmsgIter<'a>>)
        ensures
            match r {
                Some(it) => has_type(self@, BlobmsgType::Array) && it@ == msg_payload(self@),
                None => !has_type(self@, BlobmsgType::Array),
            },
    {
        self.iter_if(BlobmsgType::Array)
    }

    /// Walk the child fields in the payload.
    pub fn iter(&self) -> (r: BlobmsgIter<'a>)
        ensures
            r@ == msg_payload(self@),
    {
        BlobmsgIter { inner: BlobIter::from_bytes(self.payload()) }
    }
}

/// Walk over blobmsg child attributes.
pub struct BlobmsgIter<'a> {
    inner: BlobIter<'a>,
}

impl<'a> View for BlobmsgIter<'a> {
    type V = Seq<u8>;

    closed spec fn view(&self) -> Seq<u8> {
        self.inner@
    }
}

impl<'a> BlobmsgIter<'a> {
    pub fn next(&mut self) -> (r: Option<BlobmsgAttr<'a>>)
        ensures
            match crate::blob::attr::next_attr_len(old(self)@) {
                None => r is None && final(self)@ == old(self)@,
                Some(n) => r matches Some(a) && a@ == old(self)@.subrange(0, n as int)
                    && final(self)@ == old(self)@.subrange(n as int, old(self)@.len() as int),
            },
            r matches Some(a) ==> attr_bytes_valid(a@),
    {
        match self.inner.next() {
            Some(a) => Some(BlobmsgAttr::from_blob(a)),
            None => None,
        }
    }

    /// All the attributes the walk still yields, in order.
    pub fn collect(self) -> (r: Vec<BlobmsgAttr<'a>>)
        ensures
            r@.map_values(|a: BlobmsgAttr<'a>| a@) == attrs_of(self@),
    {
        let mut it = self;
        let mut out: Vec<BlobmsgAttr<'a>> = Vec::new();
        loop
            invariant
                out@.map_values(|a: BlobmsgAttr<'a>| a@) + attrs_of(it@) == attrs_of(self@),
            decreases it@.len(),
        {
            match it.next() {
                None => {
                    assert(out@.map_values(|a: BlobmsgAttr<'a>| a@) =~= attrs_of(self@));
                    return out;
                },
                Some(a) => {
                    let ghost old_out = out@;
                    out.push(a);
                    assert(out@.map_values(|a: BlobmsgAttr<'a>| a@)
                        =~= old_out.map_values(|a: BlobmsgAttr<'a>| a@) + seq![a@]);
                },
            }
        }
    }
}


/// The name header of an extended attribute is whole: its length, the name
/// and the NUL fit in the payload, padding included, and the NUL is there.
pub open spec fn name_ok(a: Seq<u8>) -> bool {
    !hdr_extended(a) || {
        let d = attr_data(a);
        &&& d.len() >= 2
        &&& msg_hdr_len(from_be16(d) as nat) <= d.len()
        &&& d[2 + from_be16(d) as int] == 0
    }
}

/// The payload `p` suits the type with code `code`: integers have exactly
/// their width, doubles at least eight bytes, strings end with a NUL.
pub open spec fn payload_ok(code: nat, p: Seq<u8>) -> bool {
    if code == 3 {
        p.len() >= 1 && p.last() == 0
    } else if code == 4 {
        p.len() == 8
    } else if code == 5 {
        p.len() == 4
    } else if code == 6 {
        p.len() == 2
    } else if code == 7 {
        p.len() == 1
    } else if code == 8 {
        p.len() >= 8
    } else {
        true
    }
}

/// The checks the parser makes of each attribute it walks over.
pub open spec fn msg_attr_ok(a: Seq<u8>) -> bool {
    &&& hdr_raw_len(a) >= 4
    &&& name_ok(a)
    &&& hdr_id(a) <= 8
    &&& payload_ok(hdr_id(a), msg_payload(a))
}

/// The attribute answers the policy `(name, t)`: it is extended, has type
/// `t` (any type where `t` is `Unspec`) and is named `name`, a name shorter
/// than 256 bytes.
pub open spec fn policy_matches(a: Seq<u8>, name: Seq<u8>, t: BlobmsgType) -> bool {
    &&& hdr_extended(a)
    &&& (t == BlobmsgType::Unspec || has_type(a, t))
    &&& name.len() < 256
    &&& msg_name(a) == name
}

/// The first of `attrs` that answers the policy `(name, t)`.
pub open spec fn first_match(attrs: Seq<Seq<u8>>, name: Seq<u8>, t: BlobmsgType) -> Option<Seq<u8>>
    decreases attrs.len(),
{
    if attrs.len() == 0 {
        None
    } else if policy_matches(attrs[0], name, t) {
        Some(attrs[0])
    } else {
        first_match(attrs.drop_first(), name, t)
    }
}

/// What parsing `payload` against `policies` gives: `ParseFailed(-22)` for
/// an empty payload, `ParseFailed(-1)` where an attribute the walk reaches
/// fails the checks, and otherwise, for each policy in order, the first
/// attribute that answers it.
pub open spec fn parse_outcome(policies: Seq<(Seq<u8>, BlobmsgType)>, payload: Seq<u8>) -> Result<
    Seq<Option<Seq<u8>>>,
    BlobError,
> {
    let attrs = attrs_of(payload);
    if payload.len() == 0 {
        Err(BlobError::ParseFailed(-22i32))
    } else if exists|j: int| 0 <= j < attrs.len() && !msg_attr_ok(#[trigger] attrs[j]) {
        Err(BlobError::ParseFailed(-1i32))
    } else {
        Ok(Seq::new(policies.len(), |i: int| first_match(attrs, policies[i].0, policies[i].1)))
    }
}

pub open spec fn attr_opt_view<'a>(o: Option<BlobmsgAttr<'a>>) -> Option<Seq<u8>> {
    match o {
        Some(a) => Some(a@),
        None => None,
    }
}

/// A parse result, each found field taken by its bytes.
pub open spec fn parse_result_view<'a>(r: Result<Vec<Option<BlobmsgAttr<'a>>>, BlobError>) -> Result<
    Seq<Option<Seq<u8>>>,
    BlobError,
> {
    match r {
        Ok(v) => Ok(v@.map_values(|o: Option<BlobmsgAttr<'a>>| attr_opt_view(o))),
        Err(e) => Err(e),
    }
}

proof fn lemma_first_match_push(attrs: Seq<Seq<u8>>, a: Seq<u8>, name: Seq<u8>, t: BlobmsgType)
    ensures
        first_match(attrs.push(a), name, t) == (match first_match(attrs, name, t) {
            Some(x) => Some(x),
            None => if policy_matches(a, name, t) { Some(a) } else { None },
        }),
    decreases attrs.len(),
{
    let ap = attrs.push(a);
    if attrs.len() > 0 {
        assert(ap[0] == attrs[0]);
        assert(ap.drop_first() =~= attrs.drop_first().push(a));
        lemma_first_match_push(attrs.drop_first(), a, name, t);
        assert(first_match(ap.drop_first(), name, t) == first_match(attrs.drop_first().push(a), name, t));
    } else {
        assert(ap[0] == a);
        assert(ap.drop_first() =~= Seq::<Seq<u8>>::empty());
        assert(first_match(ap.drop_first(), name, t) is None);
    }
}

/// `a` and `b` hold the same bytes.
fn bytes_eq(a: &[u8], b: &[u8]) -> (r: bool)
    ensures
        r == (a@ == b@),
{
    if a.len() != b.len() {
        return false;
    }
    let mut i: usize = 0;
    while i < a.len()
        invariant
            a@.len() == b@.len(),
            i <= a@.len(),
            a@.subrange(0, i as int) == b@.subrange(0, i as int),
        decreases a@.len() - i,
    {
        if a[i] != b[i] {
            assert(a@[i as int] != b@[i as int]);
            return false;
        }
        i = i + 1;
        assert(a@.subrange(0, i as int) =~= a@.subrange(0, i - 1 as int).push(a@[i - 1]));
        assert(b@.subrange(0, i as int) =~= b@.subrange(0, i - 1 as int).push(b@[i - 1]));
    }
    assert(a@ =~= a@.subrange(0, i as int));
    assert(b@ =~= b@.subrange(0, i as int));
    true
}

/// The checks the parser makes of `a`.
pub(crate) fn check_attr(a: BlobAttr) -> (r: bool)
    ensures
        r == msg_attr_ok(a@),
{
    if a.raw_len() < 4 {
        return false;
    }
    let d = a.data();
    if a.is_extended() {
        if d.len() < 2 {
            return false;
        }
        let namelen = read_be16(d) as usize;
        let hdr_len = pad4(2 + namelen + 1);
        proof {
            lemma_pad4((2 + namelen + 1) as nat);
        }
        if hdr_len > d.len() {
            return false;
        }
        if d[2 + namelen] != 0 {
            return false;
        }
    }
    let id = a.id();
    if id > 8 {
        return false;
    }
    let p = BlobmsgAttr::from_blob(a).payload();
    if id == 3 {
        p.len() >= 1 && p[p.len() - 1] == 0
    } else if id == 4 {
        p.len() == 8
    } else if id == 5 {
        p.len() == 4
    } else if id == 6 {
        p.len() == 2
    } else if id == 7 {
        p.len() == 1
    } else if id == 8 {
        p.len() >= 8
    } else {
        true
    }
}

struct Policy<'p> {
    name: &'p [u8],
    ty: BlobmsgType,
}

/// Builder for a fixed-shape parser. Insertion order is preserved in the
/// output of `parse`, so callers can pattern-match on the returned vector.
pub struct BlobmsgParser<'p> {
    policies: Vec<Policy<'p>>,
}

impl<'p> View for BlobmsgParser<'p> {
    type V = Seq<(Seq<u8>, BlobmsgType)>;

    closed spec fn view(&self) -> Seq<(Seq<u8>, BlobmsgType)> {
        self.policies@.map_values(|p: Policy<'p>| (p.name@, p.ty))
    }
}

impl<'p> BlobmsgParser<'p> {
    pub fn new() -> (r: Self)
        ensures
            r@ == Seq::<(Seq<u8>, BlobmsgType)>::empty(),
    {
        let r = BlobmsgParser { policies: Vec::new() };
        assert(r@ =~= Seq::<(Seq<u8>, BlobmsgType)>::empty());
        r
    }

    /// Adds a policy: the field named `name` of type `ty` (any type where
    /// `ty` is `Unspec`).
    pub fn field(&mut self, name: &'p [u8], ty: BlobmsgType) -> (r: &mut Self)
        ensures
            (*r)@ == old(self)@.push((name@, ty)),
            *final(self) == *final(r),
    {
        let ghost old_pol = self.policies@;
        self.policies.push(Policy { name, ty });
        assert(self@ =~= old(self)@.push((name@, ty)));
        self
    }

    /// For each policy, in the order they were added, the first field of
    /// `src`'s payload that answers it, if any.
    pub fn parse<'a>(&self, src: BlobmsgAttr<'a>) -> (r: Result<Vec<Option<BlobmsgAttr<'a>>>, BlobError>)
        ensures
            parse_result_view(r) == parse_outcome(self@, msg_payload(src@)),
    {
        let payload = src.payload();
        if payload.len() == 0 {
            return Err(BlobError::ParseFailed(-22));
        }
        let n = self.policies.len();
        let ghost pol = self@;
        let mut tb: Vec<Option<BlobmsgAttr<'a>>> = Vec::new();
        let mut k: usize = 0;
        while k < n
            invariant
                k <= n,
                n == self.policies@.len(),
                tb@.len() == k,
                forall|i: int| 0 <= i < k ==> tb@[i] is None,
            decreases n - k,
        {
            tb.push(None);
            k = k + 1;
        }
        let mut it = BlobIter::from_bytes(payload);
        let ghost mut done: Seq<Seq<u8>> = Seq::empty();
        loop
            invariant
                n == self.policies@.len(),
                pol == self@,
                pol.len() == n,
                tb@.len() == n,
                payload@ == msg_payload(src@),
                payload@.len() > 0,
                attrs_of(payload@) == done + attrs_of(it@),
                forall|j: int| 0 <= j < done.len() ==> msg_attr_ok(#[trigger] done[j]),
                forall|i: int| 0 <= i < n ==> #[trigger] attr_opt_view(tb@[i]) == first_match(done, pol[i].0, pol[i].1),
            decreases it@.len(),
        {
            let ghost rem = it@;
            match it.next() {
                None => {
                    assert(attrs_of(rem) =~= Seq::<Seq<u8>>::empty());
                    assert(done =~= attrs_of(payload@));
                    assert(!exists|j: int| 0 <= j < done.len() && !msg_attr_ok(#[trigger] done[j]));
                    proof {
                        let s = Seq::new(pol.len(), |i: int| first_match(done, pol[i].0, pol[i].1));
                        assert(tb@.map_values(|o: Option<BlobmsgAttr<'a>>| attr_opt_view(o)) =~= s);
                    }
                    return Ok(tb);
                },
                Some(a) => {
                    assert(attrs_of(rem) =~= seq![a@] + attrs_of(it@));
                    assert(attrs_of(payload@) =~= done.push(a@) + attrs_of(it@));
                    if !check_attr(a) {
                        assert(attrs_of(payload@)[done.len() as int] == a@);
                        assert(!msg_attr_ok(attrs_of(payload@)[done.len() as int]));
                        return Err(BlobError::ParseFailed(-1));
                    }
                    let m = BlobmsgAttr::from_blob(a);
                    let ext = a.is_extended();
                    let mut i: usize = 0;
                    while i < n
                        invariant
                            i <= n,
                            n == self.policies@.len(),
                            pol == self@,
                            pol.len() == n,
                            tb@.len() == n,
                            m@ == a@,
                            ext == hdr_extended(a@),
                            forall|x: int| 0 <= x < i ==> #[trigger] attr_opt_view(tb@[x]) == first_match(done.push(a@), pol[x].0, pol[x].1),
                            forall|x: int| i <= x < n ==> #[trigger] attr_opt_view(tb@[x]) == first_match(done, pol[x].0, pol[x].1),
                        decreases n - i,
                    {
                        let p = &self.policies[i];
                        proof {
                            lemma_first_match_push(done, a@, pol[i as int].0, pol[i as int].1);
                            assert(pol[i as int] == (p.name@, p.ty));
                        }
                        let free = tb[i].is_none();
                        let type_fits = p.ty == BlobmsgType::Unspec || a.id() == p.ty.to_raw();
                        let matched = ext && type_fits && p.name.len() < 256 && bytes_eq(m.name(), p.name);
                        proof {
                            assert(matched == policy_matches(a@, pol[i as int].0, pol[i as int].1));
                            assert(attr_opt_view(tb@[i as int]) == first_match(done, pol[i as int].0, pol[i as int].1));
                            assert(free == (first_match(done, pol[i as int].0, pol[i as int].1) is None));
                        }
                        if free && matched {
                            tb[i] = Some(m);
                        }
                        assert(attr_opt_view(tb@[i as int]) == first_match(done.push(a@), pol[i as int].0, pol[i as int].1));
                        i = i + 1;
                    }
                    proof {
                        done = done.push(a@);
                    }
                },
            }
        }
    }
}

impl<'p> Default for BlobmsgParser<'p> {
    fn default() -> (r: Self)
        ensures
            r@ == Seq::<(Seq<u8>, BlobmsgType)>::empty(),
    {
        Self::new()
    }
}

/// The wire codes of the blobmsg types, as libubox numbers them
/// (`BLOBMSG_TYPE_UNSPEC` = 0 up to `BLOBMSG_TYPE_DOUBLE` = 8).
pub proof fn lemma_wire_codes()
    ensures
        type_code(BlobmsgType::Unspec) == 0,
        type_code(BlobmsgType::Array) == 1,
        type_code(BlobmsgType::Table) == 2,
        type_code(BlobmsgType::String) == 3,
        type_code(BlobmsgType::Int64) == 4,
        type_code(BlobmsgType::Int32) == 5,
        type_code(BlobmsgType::Int16) == 6,
        type_code(BlobmsgType::Int8) == 7,
        type_code(BlobmsgType::Double) == 8,
{
}

/// The first byte of every field the builder writes is the extended flag
/// `0x80` plus the type's wire code: `0x80` for an untyped field, `0x81` an
/// array, `0x82` a table, `0x83` a string, `0x84` a 64-bit, `0x85` a 32-bit,
/// `0x86` a 16-bit and `0x87` an 8-bit integer (or boolean), `0x88` a double.
pub proof fn lemma_field_first_byte(name: Seq<u8>, payload: Seq<u8>)
    ensures
        msg_field(BlobmsgType::Unspec, name, payload).bytes()[0] == 0x80u8,
        msg_field(BlobmsgType::Array, name, payload).bytes()[0] == 0x81u8,
        msg_field(BlobmsgType::Table, name, payload).bytes()[0] == 0x82u8,
        msg_field(BlobmsgType::String, name, payload).bytes()[0] == 0x83u8,
        msg_field(BlobmsgType::Int64, name, payload).bytes()[0] == 0x84u8,
        msg_field(BlobmsgType::Int32, name, payload).bytes()[0] == 0x85u8,
        msg_field(BlobmsgType::Int16, name, payload).bytes()[0] == 0x86u8,
        msg_field(BlobmsgType::Int8, name, payload).bytes()[0] == 0x87u8,
        msg_field(BlobmsgType::Double, name, payload).bytes()[0] == 0x88u8,
{
}

/// The payloads the typed adders write suit their types, so the parser
/// accepts them: one byte for an 8-bit integer or boolean, two, four and
/// eight big-endian bytes for the wider integers, eight for a double, and
/// a NUL-terminated string.
pub proof fn lemma_adder_payloads_ok(b: u8, h: u16, w: u32, d: u64, s: Seq<u8>)
    ensures
        payload_ok(type_code(BlobmsgType::Int8), seq![b]),
        payload_ok(type_code(BlobmsgType::Int16), be16(h)),
        payload_ok(type_code(BlobmsgType::Int32), be32(w)),
        payload_ok(type_code(BlobmsgType::Int64), be64(d)),
        payload_ok(type_code(BlobmsgType::Double), be64(d)),
        payload_ok(type_code(BlobmsgType::String), s.push(0u8)),
{
}

/// A field the builder writes, named `name` (shorter than 256 bytes) and of
/// type `t`, answers the policy `(name, t)` and the policy `(name, Unspec)`.
/// It answers no policy of another name, and no policy of another type
/// unless that type is `Unspec`.
pub proof fn lemma_field_answers_policy(t: BlobmsgType, name: Seq<u8>, payload: Seq<u8>, other: Seq<u8>, t2: BlobmsgType)
    requires
        name.len() < 256,
        msg_field(t, name, payload).fits(),
    ensures
        policy_matches(msg_field(t, name, payload).bytes(), name, t),
        policy_matches(msg_field(t, name, payload).bytes(), name, BlobmsgType::Unspec),
        other != name ==> !policy_matches(msg_field(t, name, payload).bytes(), other, t2),
        t2 != t && t2 != BlobmsgType::Unspec ==> !policy_matches(msg_field(t, name, payload).bytes(), name, t2),
{
    let b = msg_field(t, name, payload).bytes();
    lemma_field_roundtrip(t, name, payload, Seq::empty());
    assert(b + Seq::<u8>::empty() =~= b);
}

proof fn lemma_first_match_at(attrs: Seq<Seq<u8>>, k: int, name: Seq<u8>, t: BlobmsgType)
    requires
        0 <= k < attrs.len(),
        policy_matches(attrs[k], name, t),
        forall|j: int| 0 <= j < k ==> !policy_matches(#[trigger] attrs[j], name, t),
    ensures
        first_match(attrs, name, t) == Some(attrs[k]),
    decreases k,
{
    if k > 0 {
        assert(!policy_matches(attrs[0], name, t));
        assert forall|j: int| 0 <= j < k - 1 implies !policy_matches(#[trigger] attrs.drop_first()[j], name, t) by {
            assert(attrs.drop_first()[j] == attrs[j + 1]);
        }
        lemma_first_match_at(attrs.drop_first(), k - 1, name, t);
    }
}

/// Parsing a table the builder wrote finds each field by its name: where
/// field `k` is named `n` (shorter than 256 bytes) and has type `t`, and no
/// earlier field is named `n`, the policy `(n, t)` gets exactly that field.
pub proof fn lemma_parse_finds_field(
    policies: Seq<(Seq<u8>, BlobmsgType)>,
    fields: Seq<AttrView>,
    i: int,
    k: int,
    payload: Seq<u8>,
)
    requires
        forall|j: int| 0 <= j < fields.len() ==> #[trigger] fields[j].fits() && msg_attr_ok(fields[j].bytes()),
        0 <= i < policies.len(),
        0 <= k < fields.len(),
        policies[i].0.len() < 256,
        fields[k] == msg_field(policies[i].1, policies[i].0, payload),
        forall|j: int| 0 <= j < k ==> msg_name(#[trigger] fields[j].bytes()) != policies[i].0,
    ensures
        parse_outcome(policies, encode_all(fields)) matches Ok(found) && found.len() == policies.len()
            && found[i] == Some(fields[k].bytes()),
{
    let (n, t) = policies[i];
    lemma_parse_built(policies, fields);
    let walked = fields.map_values(|a: AttrView| a.bytes());
    lemma_field_answers_policy(t, n, payload, n, t);
    assert forall|j: int| 0 <= j < k implies !policy_matches(#[trigger] walked[j], n, t) by {
        assert(walked[j] == fields[j].bytes());
    }
    lemma_first_match_at(walked, k, n, t);
}

} // verus!
