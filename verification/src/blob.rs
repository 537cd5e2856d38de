use vstd::prelude::*;

use crate::endian::{be16, be32, be64, to_be16, to_be32, to_be64};
use attr::{
    hdr_extended, hdr_id, attr_data, attrs_of, decode_attr, encode_all, header_bytes, header_whole, lemma_attr_roundtrip,
    lemma_payload_of_append, lemma_walk_push, payload_of, walks_whole,
    lemma_encode_then_walk, lemma_header_decode, lemma_pad4, pad4, spec_pad4, zeros, AttrView,
    BlobAttr, HDR_SIZE, MAX_RAW_LEN,
};

pub mod attr;

verus! {

/// Errors reported while building or parsing a buffer.
#[derive(Debug, PartialEq, Eq, Structural)]
pub enum BlobError {
    /// The buffer could not be set up.
    InitFailed(i32),
    /// The buffer cannot grow: the attribute would take it past the largest
    /// total length a header's 24-bit length field can record. The buffer is
    /// left as it was.
    Oom,
    /// A blobmsg payload was rejected by the parser.
    ParseFailed(i32),
    /// JSON text could not be turned into fields.
    JsonParse,
}

/// Bytes of an attribute whose container is still open: its header records
/// its own payload, plus four bytes for the header of a nested container
/// that is open inside it (when it is not the innermost one).
pub open spec fn frame_bytes(f: AttrView, innermost: bool) -> Seq<u8> {
    header_bytes(f.id, f.extended, (if innermost { 4nat } else { 8nat }) + f.data.len()) + f.data
}

/// Bytes of the open containers `fs`, none of them innermost.
#[verifier::opaque]
pub open spec fn prefix_bytes(fs: Seq<AttrView>) -> Seq<u8>
    decreases fs.len(),
{
    if fs.len() == 0 {
        Seq::empty()
    } else {
        prefix_bytes(fs.drop_last()) + frame_bytes(fs.last(), false)
    }
}

/// Bytes of a buffer whose open containers, outermost first, are `fs`.
pub open spec fn stack_bytes(fs: Seq<AttrView>) -> Seq<u8> {
    prefix_bytes(fs.drop_last()) + frame_bytes(fs.last(), true)
}

/// The part of an open container's payload that holds its children.
pub open spec fn frame_walk(f: AttrView) -> Seq<u8> {
    payload_of(f.extended, f.data)
}

/// An open container the buffer can hold: a seven-bit id, a payload of
/// whole four-byte words whose name header (if extended) is whole, and
/// children that are whole attribute encodings.
pub open spec fn frame_ok(f: AttrView) -> bool {
    &&& f.id < 128
    &&& f.data.len() % 4 == 0
    &&& header_whole(f.extended, f.data)
    &&& walks_whole(frame_walk(f))
}

/// A stack of open containers that a buffer can hold; the outermost one is
/// not extended.
pub open spec fn frames_valid(fs: Seq<AttrView>) -> bool {
    &&& fs.len() >= 1
    &&& !fs[0].extended
    &&& forall|i: int| 0 <= i < fs.len() ==> frame_ok(#[trigger] fs[i])
    &&& stack_bytes(fs).len() <= MAX_RAW_LEN
}

/// `fs` after `child` is added to the innermost open container.
pub open spec fn add_child(fs: Seq<AttrView>, child: AttrView) -> Seq<AttrView> {
    fs.update(
        fs.len() - 1,
        AttrView { id: fs.last().id, extended: fs.last().extended, data: fs.last().data + child.bytes() },
    )
}

/// `fs` after the innermost open container is closed into its parent.
pub open spec fn close_innermost(fs: Seq<AttrView>) -> Seq<AttrView> {
    let p = fs[fs.len() - 2];
    fs.drop_last().update(
        fs.len() - 2,
        AttrView { id: p.id, extended: p.extended, data: p.data + fs.last().open_bytes() },
    )
}

/// `new` is `old` with bytes appended to its innermost open container and
/// nothing else changed: what every public operation does to a buffer.
pub open spec fn grows(old: Seq<AttrView>, new: Seq<AttrView>) -> bool {
    &&& old.len() == new.len()
    &&& old.len() >= 1
    &&& forall|i: int| 0 <= i < old.len() - 1 ==> #[trigger] new[i] == old[i]
    &&& new.last().id == old.last().id
    &&& new.last().extended == old.last().extended
    &&& old.last().data.len() <= new.last().data.len()
    &&& new.last().data.subrange(0, old.last().data.len() as int) == old.last().data
}

/// `after` is `before` with `child` added to the innermost open container,
/// and `r` is `Ok`, exactly when the buffer has room for `child`: a walk of
/// that container then yields what it yielded before and then `child`,
/// which decodes to the id, extended flag and payload that were added.
/// Otherwise `r` is `Err(Oom)` and nothing changed.
pub open spec fn added(before: Seq<AttrView>, after: Seq<AttrView>, child: AttrView, r: Result<(), BlobError>) -> bool {
    if stack_bytes(before).len() + child.bytes().len() <= MAX_RAW_LEN {
        &&& r is Ok
        &&& after == add_child(before, child)
        &&& attrs_of(frame_walk(after.last())) == attrs_of(frame_walk(before.last())).push(child.bytes())
        &&& decode_attr(child.bytes()) == child
    } else {
        r == Err::<(), BlobError>(BlobError::Oom) && after == before
    }
}

/// Total length of the outermost attribute as its header records it.
pub open spec fn root_raw_len(fs: Seq<AttrView>) -> nat {
    (if fs.len() == 1 { 4nat } else { 8nat }) + fs[0].data.len()
}

/// Owned buffer holding one outermost attribute, into which attributes are
/// added and containers nested. Its view is the stack of open containers,
/// outermost first: for each, its id, extended flag and the bytes written
/// into it so far (the encodings of its closed children).
pub struct BlobBuf {
    buf: Vec<u8>,
    heads: Vec<usize>,
    frames: Ghost<Seq<AttrView>>,
}

impl View for BlobBuf {
    type V = Seq<AttrView>;

    closed spec fn view(&self) -> Seq<AttrView> {
        self.frames@
    }
}

proof fn lemma_prefix_take(fs: Seq<AttrView>, i: int)
    requires
        0 <= i < fs.len(),
    ensures
        prefix_bytes(fs.take(i + 1)) == prefix_bytes(fs.take(i)) + frame_bytes(fs[i], false),
{
    reveal(prefix_bytes);
    assert(fs.take(i + 1).drop_last() =~= fs.take(i));
}

/// `b` with the length in the header at `at` replaced by `raw_len`.
pub open spec fn relabel(b: Seq<u8>, at: int, raw_len: nat) -> Seq<u8> {
    b.update(at + 1, (raw_len / 65536) as u8).update(at + 2, ((raw_len / 256) % 256) as u8).update(
        at + 3,
        (raw_len % 256) as u8,
    )
}

/// Replacing the length in a header leaves the bytes around it.
proof fn lemma_relabel(p: Seq<u8>, id: nat, ext: bool, r0: nat, r1: nat, c: Seq<u8>)
    ensures
        relabel(p + header_bytes(id, ext, r0) + c, p.len() as int, r1) == p + header_bytes(id, ext, r1) + c,
{
    assert(relabel(p + header_bytes(id, ext, r0) + c, p.len() as int, r1) =~= p + header_bytes(id, ext, r1) + c);
}

/// The offsets of the open containers' headers.
pub open spec fn heads_match(heads: Seq<usize>, fs: Seq<AttrView>) -> bool {
    &&& heads.len() == fs.len()
    &&& forall|i: int| 0 <= i < heads.len() ==> #[trigger] heads[i] == prefix_bytes(fs.take(i)).len()
}

/// Pushes the header for `id`, `extended` and total length `raw_len`.
fn push_header(buf: &mut Vec<u8>, id: u32, extended: bool, raw_len: usize)
    requires
        id < 128,
        raw_len <= MAX_RAW_LEN,
    ensures
        final(buf)@ == old(buf)@ + header_bytes(id as nat, extended, raw_len as nat),
{
    let first: u32 = if extended { id + 128 } else { id };
    buf.push(first as u8);
    buf.push((raw_len / 65536) as u8);
    buf.push(((raw_len / 256) % 256) as u8);
    buf.push((raw_len % 256) as u8);
    assert(final(buf)@ =~= old(buf)@ + header_bytes(id as nat, extended, raw_len as nat));
}

/// Rewrites the length in the header at `at`.
fn set_raw_len(buf: &mut Vec<u8>, at: usize, raw_len: usize)
    requires
        at + 4 <= old(buf)@.len(),
        raw_len <= MAX_RAW_LEN,
    ensures
        final(buf)@ == relabel(old(buf)@, at as int, raw_len as nat),
{
    let len: usize = buf.len();
    assert(at + 3 < len);
    let (i1, i2, i3) = (at + 1, at + 2, at + 3);
    buf[i1] = (raw_len / 65536) as u8;
    buf[i2] = ((raw_len / 256) % 256) as u8;
    buf[i3] = (raw_len % 256) as u8;
}

/// Pushes `data` byte by byte.
pub(crate) fn push_all(buf: &mut Vec<u8>, data: &[u8])
    ensures
        final(buf)@ == old(buf)@ + data@,
{
    let mut i: usize = 0;
    while i < data.len()
        invariant
            i <= data@.len(),
            buf@ == old(buf)@ + data@.subrange(0, i as int),
        decreases data@.len() - i,
    {
        buf.push(data[i]);
        i = i + 1;
        assert(buf@ =~= old(buf)@ + data@.subrange(0, i as int));
    }
    assert(data@.subrange(0, data@.len() as int) =~= data@);
}

/// Pushes `n` zero bytes.
pub(crate) fn push_zeros(buf: &mut Vec<u8>, n: usize)
    ensures
        final(buf)@ == old(buf)@ + zeros(n as nat),
{
    let mut i: usize = 0;
    while i < n
        invariant
            i <= n,
            buf@ == old(buf)@ + zeros(i as nat),
        decreases n - i,
    {
        buf.push(0u8);
        i = i + 1;
        assert(buf@ =~= old(buf)@ + zeros(i as nat));
    }
}

impl BlobBuf {
    /// The buffer's bytes match its stack of open containers.
    pub closed spec fn wf(&self) -> bool {
        &&& frames_valid(self.frames@)
        &&& self.buf@ == stack_bytes(self.frames@)
        &&& heads_match(self.heads@, self.frames@)
    }

    /// A well-formed buffer holds a valid stack of open containers.
    pub proof fn lemma_wf(&self)
        requires
            self.wf(),
        ensures
            frames_valid(self@),
    {
    }

    /// An empty buffer whose outermost attribute has id `0`.
    pub fn new() -> (r: Result<Self, BlobError>)
        ensures
            r matches Ok(b) && b.wf() && b@ == seq![AttrView { id: 0, extended: false, data: Seq::empty() }],
    {
        Ok(Self::with_root_id(0))
    }

    /// An empty buffer whose outermost attribute has id `id % 128` (the
    /// header keeps seven bits of it).
    pub(crate) fn with_root_id(id: u32) -> (r: Self)
        ensures
            r.wf(),
            r@ == seq![AttrView { id: (id % 128) as nat, extended: false, data: Seq::empty() }],
    {
        let mut buf: Vec<u8> = Vec::new();
        push_header(&mut buf, id % 128, false, HDR_SIZE);
        let mut heads: Vec<usize> = Vec::new();
        heads.push(0);
        let ghost fs = seq![AttrView { id: (id % 128) as nat, extended: false, data: Seq::empty() }];
        proof {
            reveal(prefix_bytes);
            assert(fs.drop_last() =~= Seq::<AttrView>::empty());
            assert(fs.take(0) =~= Seq::<AttrView>::empty());
            assert(buf@ =~= stack_bytes(fs));
        }
        BlobBuf { buf, heads, frames: Ghost(fs) }
    }

    /// The buffer's bytes: the outermost attribute, followed, while
    /// containers are open, by their headers and contents.
    pub fn as_ptr(&self) -> (r: &[u8])
        requires
            self.wf(),
        ensures
            r@ == stack_bytes(self@),
    {
        self.buf.as_slice()
    }

    /// Adds an attribute with id `id % 128`, extended flag `extended` and
    /// payload `data` to the innermost open container.
    pub(crate) fn put(&mut self, id: u32, extended: bool, data: &[u8]) -> (r: Result<(), BlobError>)
        requires
            old(self).wf(),
        ensures
            final(self).wf(),
            grows(old(self)@, final(self)@),
            ({
                let child = AttrView { id: (id % 128) as nat, extended, data: data@ };
                if stack_bytes(old(self)@).len() + child.bytes().len() <= MAX_RAW_LEN {
                    &&& r is Ok
                    &&& final(self)@ == add_child(old(self)@, child)
                    &&& attrs_of(frame_walk(final(self)@.last())) == attrs_of(frame_walk(old(self)@.last())).push(child.bytes())
                    &&& decode_attr(child.bytes()) == child
                } else {
                    r == Err::<(), BlobError>(BlobError::Oom) && final(self)@ == old(self)@
                }
            }),
    {
        let ghost fs = self.frames@;
        let ghost child = AttrView { id: (id % 128) as nat, extended, data: data@ };
        proof {
            lemma_pad4(4 + data@.len());
            lemma_grows_add(fs, child);
        }
        if data.len() > MAX_RAW_LEN - HDR_SIZE {
            return Err(BlobError::Oom);
        }
        let need = pad4(HDR_SIZE + data.len());
        proof {
            lemma_child_len(child);
        }
        if self.buf.len() + need > MAX_RAW_LEN {
            return Err(BlobError::Oom);
        }
        let k = self.heads.len() - 1;
        let top = self.heads[k];
        proof {
            lemma_head_offset(fs, self.heads@, k as int);
        }
        let new_len = self.buf.len() - top + need;
        proof {
            lemma_put_step(fs, self.heads@, child, new_len as nat);
        }
        set_raw_len(&mut self.buf, top, new_len);
        let ghost relabeled = self.buf@;
        push_header(&mut self.buf, id % 128, extended, HDR_SIZE + data.len());
        push_all(&mut self.buf, data);
        push_zeros(&mut self.buf, need - HDR_SIZE - data.len());
        proof {
            assert(self.buf@ =~= relabeled + child.bytes());
        }
        self.frames = Ghost(add_child(fs, child));
        proof {
            lemma_add_then_walk(fs, child);
        }
        Ok(())
    }

    /// Opens a container with id `id % 128`, extended flag `extended`, whose
    /// payload starts with `prefix`, inside the innermost open container.
    pub(crate) fn open_frame(&mut self, id: u32, extended: bool, prefix: &[u8]) -> (r: Result<(), BlobError>)
        requires
            old(self).wf(),
            frame_ok(AttrView { id: (id % 128) as nat, extended, data: prefix@ }),
        ensures
            final(self).wf(),
            if stack_bytes(old(self)@).len() + 4 + prefix@.len() <= MAX_RAW_LEN {
                r is Ok && final(self)@ == old(self)@.push(
                    AttrView { id: (id % 128) as nat, extended, data: prefix@ },
                )
            } else {
                r == Err::<(), BlobError>(BlobError::Oom) && final(self)@ == old(self)@
            },
    {
        let ghost fs = self.frames@;
        if prefix.len() > MAX_RAW_LEN - HDR_SIZE || self.buf.len() > MAX_RAW_LEN - HDR_SIZE
            - prefix.len() {
            return Err(BlobError::Oom);
        }
        let k = self.heads.len() - 1;
        let top = self.heads[k];
        proof {
            lemma_head_offset(fs, self.heads@, k as int);
        }
        let new_len = self.buf.len() - top + HDR_SIZE;
        let ghost nf = AttrView { id: (id % 128) as nat, extended, data: prefix@ };
        proof {
            lemma_open_step(fs, self.heads@, nf, new_len as nat);
        }
        set_raw_len(&mut self.buf, top, new_len);
        let at = self.buf.len();
        push_header(&mut self.buf, id % 128, extended, HDR_SIZE + prefix.len());
        push_all(&mut self.buf, prefix);
        self.heads.push(at);
        proof {
            assert(self.buf@ =~= prefix_bytes(fs) + frame_bytes(nf, true));
        }
        self.frames = Ghost(fs.push(nf));
        Ok(())
    }

    /// Closes the innermost open container into its parent.
    pub(crate) fn close_frame(&mut self)
        requires
            old(self).wf(),
            old(self)@.len() >= 2,
        ensures
            final(self).wf(),
            final(self)@ == close_innermost(old(self)@),
    {
        let ghost fs = self.frames@;
        let k = self.heads.len() - 1;
        let parent = self.heads[k - 1];
        proof {
            lemma_head_offset(fs, self.heads@, k - 1);
        }
        let new_len = self.buf.len() - parent;
        proof {
            lemma_close_step(fs, self.heads@, new_len as nat);
        }
        set_raw_len(&mut self.buf, parent, new_len);
        self.heads.pop();
        proof {
            assert(self.heads@ =~= old(self).heads@.drop_last());
        }
        self.frames = Ghost(close_innermost(fs));
    }

    /// Adds an attribute with id `id % 128` and payload `data`. Fails with
    /// `Oom`, leaving the buffer as it was, where the attribute would take the
    /// buffer past the largest length a header can record.
    pub fn add_bytes(&mut self, id: u32, data: &[u8]) -> (r: Result<(), BlobError>)
        requires
            old(self).wf(),
        ensures
            final(self).wf(),
            grows(old(self)@, final(self)@),
            added(old(self)@, final(self)@, AttrView { id: (id % 128) as nat, extended: false, data: data@ }, r),
    {
        self.put(id, false, data)
    }

    /// Adds a string attribute: the bytes of `s` followed by a NUL byte.
    pub fn add_string(&mut self, id: u32, s: &[u8]) -> (r: Result<(), BlobError>)
        requires
            old(self).wf(),
        ensures
            final(self).wf(),
            grows(old(self)@, final(self)@),
            added(old(self)@, final(self)@, AttrView { id: (id % 128) as nat, extended: false, data: s@.push(0u8) }, r),
    {
        let mut data = vstd::slice::slice_to_vec(s);
        data.push(0u8);
        self.put(id, false, data.as_slice())
    }

    pub fn add_u8(&mut self, id: u32, value: u8) -> (r: Result<(), BlobError>)
        requires
            old(self).wf(),
        ensures
            final(self).wf(),
            grows(old(self)@, final(self)@),
            added(old(self)@, final(self)@, AttrView { id: (id % 128) as nat, extended: false, data: seq![value] }, r),
    {
        let mut data: Vec<u8> = Vec::new();
        data.push(value);
        proof { assert(data@ =~= seq![value]); }
        self.put(id, false, data.as_slice())
    }

    pub fn add_u16(&mut self, id: u32, value: u16) -> (r: Result<(), BlobError>)
        requires
            old(self).wf(),
        ensures
            final(self).wf(),
            grows(old(self)@, final(self)@),
            added(old(self)@, final(self)@, AttrView { id: (id % 128) as nat, extended: false, data: be16(value) }, r),
    {
        let data = to_be16(value);
        self.put(id, false, data.as_slice())
    }

    pub fn add_u32(&mut self, id: u32, value: u32) -> (r: Result<(), BlobError>)
        requires
            old(self).wf(),
        ensures
            final(self).wf(),
            grows(old(self)@, final(self)@),
            added(old(self)@, final(self)@, AttrView { id: (id % 128) as nat, extended: false, data: be32(value) }, r),
    {
        let data = to_be32(value);
        self.put(id, false, data.as_slice())
    }

    pub fn add_u64(&mut self, id: u32, value: u64) -> (r: Result<(), BlobError>)
        requires
            old(self).wf(),
        ensures
            final(self).wf(),
            grows(old(self)@, final(self)@),
            added(old(self)@, final(self)@, AttrView { id: (id % 128) as nat, extended: false, data: be64(value) }, r),
    {
        let data = to_be64(value);
        self.put(id, false, data.as_slice())
    }

    pub fn add_i8(&mut self, id: u32, value: i8) -> (r: Result<(), BlobError>)
        requires
            old(self).wf(),
        ensures
            final(self).wf(),
            grows(old(self)@, final(self)@),
            added(old(self)@, final(self)@, AttrView { id: (id % 128) as nat, extended: false, data: seq![value as u8] }, r),
    {
        self.add_u8(id, value as u8)
    }

    pub fn add_i16(&mut self, id: u32, value: i16) -> (r: Result<(), BlobError>)
        requires
            old(self).wf(),
        ensures
            final(self).wf(),
            grows(old(self)@, final(self)@),
            added(old(self)@, final(self)@, AttrView { id: (id % 128) as nat, extended: false, data: be16(value as u16) }, r),
    {
        self.add_u16(id, value as u16)
    }

    pub fn add_i32(&mut self, id: u32, value: i32) -> (r: Result<(), BlobError>)
        requires
            old(self).wf(),
        ensures
            final(self).wf(),
            grows(old(self)@, final(self)@),
            added(old(self)@, final(self)@, AttrView { id: (id % 128) as nat, extended: false, data: be32(value as u32) }, r),
    {
        self.add_u32(id, value as u32)
    }

    pub fn add_i64(&mut self, id: u32, value: i64) -> (r: Result<(), BlobError>)
        requires
            old(self).wf(),
        ensures
            final(self).wf(),
            grows(old(self)@, final(self)@),
            added(old(self)@, final(self)@, AttrView { id: (id % 128) as nat, extended: false, data: be64(value as u64) }, r),
    {
        self.add_u64(id, value as u64)
    }

    /// Opens a nested container with id `id % 128`, calls `f` to populate
    /// it, then closes it and hands back what `f` returned. Fails with `Oom`,
    /// without calling `f`, where even the container's header would take the
    /// buffer past the largest length a header can record.
    pub fn nest<F, R>(&mut self, id: u32, f: F) -> (r: Result<R, BlobError>)
        where
            F: FnOnce(&mut BlobBuf) -> Result<R, BlobError>,
        requires
            old(self).wf(),
            forall|b: &mut BlobBuf| (*b).wf() ==> call_requires(f, (b,)),
            forall|b: &mut BlobBuf, x: Result<R, BlobError>|
                (*b).wf() && call_ensures(f, (b,), x) ==> final(b).wf() && grows((*b)@, final(b)@),
        ensures
            final(self).wf(),
            grows(old(self)@, final(self)@),
            stack_bytes(old(self)@).len() + 4 > MAX_RAW_LEN ==> r == Err::<R, BlobError>(BlobError::Oom)
                && final(self)@ == old(self)@,
            stack_bytes(old(self)@).len() + 4 <= MAX_RAW_LEN ==> exists|b: &mut BlobBuf|
                {
                    &&& (*b).wf()
                    &&& (*b)@ == old(self)@.push(AttrView { id: (id % 128) as nat, extended: false, data: Seq::empty() })
                    &&& call_ensures(f, (b,), r)
                    &&& final(self)@ == close_innermost(final(b)@)
                    &&& attrs_of(frame_walk(final(self)@.last()))
                        == attrs_of(frame_walk(old(self)@.last())).push(final(b)@.last().bytes())
                    &&& decode_attr(final(b)@.last().bytes()) == final(b)@.last()
                    &&& final(b)@.last().id == id % 128
                    &&& !final(b)@.last().extended
                },
    {
        let empty: Vec<u8> = Vec::new();
        proof {
            assert(empty@ =~= Seq::<u8>::empty());
            lemma_grows_add(old(self)@, AttrView { id: 0, extended: false, data: Seq::empty() });
        }
        match self.open_frame(id, false, empty.as_slice()) {
            Ok(()) => {},
            Err(e) => return Err(e),
        }
        let result = f(self);
        proof {
            old(self).lemma_wf();
            self.lemma_wf();
            lemma_close_then_walk(old(self)@, AttrView { id: (id % 128) as nat, extended: false, data: Seq::empty() }, self@);
        }
        self.close_frame();
        result
    }

    /// Borrowed view of the buffer's outermost attribute.
    pub fn root(&self) -> (r: BlobAttr<'_>)
        requires
            self.wf(),
        ensures
            r@ == stack_bytes(self@).subrange(0, root_raw_len(self@) as int),
            hdr_id(r@) == self@[0].id,
            !hdr_extended(r@),
            self@.len() == 1 ==> r@ == self@[0].open_bytes(),
            self@.len() == 1 ==> attr_data(r@) == frame_walk(self@[0]),
    {
        let ghost fs = self.frames@;
        proof {
            let f0 = fs[0];
            assert(f0.id < 128);
            if fs.len() == 1 {
                reveal(prefix_bytes);
                assert(fs.drop_last() =~= Seq::<AttrView>::empty());
            } else {
                lemma_prefix_shape(fs.drop_last());
            }
            lemma_header_decode(f0.id, f0.extended, root_raw_len(fs));
            assert(self.buf@.subrange(0, 4) =~= header_bytes(f0.id, f0.extended, root_raw_len(fs)));
        }
        let raw = attr::header_raw_len(self.buf.as_slice());
        let bytes = vstd::slice::slice_subrange(self.buf.as_slice(), 0, raw);
        proof {
            assert(bytes@.subrange(0, 4) =~= self.buf@.subrange(0, 4));
            assert(bytes@[0] == self.buf@[0]);
            assert(frame_ok(fs[0]));
            if fs.len() == 1 {
                assert(bytes@ =~= fs[0].open_bytes());
                assert(attr_data(bytes@) =~= fs[0].data);
            }
        }
        BlobAttr::from_valid(bytes)
    }
}

proof fn lemma_child_len(child: AttrView)
    requires
        4 + child.data.len() <= MAX_RAW_LEN,
    ensures
        child.bytes().len() == spec_pad4(4 + child.data.len()),
        child.bytes().len() % 4 == 0,
{
    lemma_pad4(4 + child.data.len());
}

proof fn lemma_stack_split(fs: Seq<AttrView>)
    requires
        fs.len() >= 1,
    ensures
        stack_bytes(fs) == prefix_bytes(fs.drop_last()) + header_bytes(fs.last().id, fs.last().extended, 4 + fs.last().data.len()) + fs.last().data,
{
    assert(stack_bytes(fs) =~= prefix_bytes(fs.drop_last()) + header_bytes(fs.last().id, fs.last().extended, 4 + fs.last().data.len()) + fs.last().data);
}

/// The header of an open container lies within the buffer, at the length
/// of the bytes before it.
proof fn lemma_head_offset(fs: Seq<AttrView>, heads: Seq<usize>, i: int)
    requires
        frames_valid(fs),
        heads_match(heads, fs),
        0 <= i < fs.len(),
    ensures
        heads[i] == prefix_bytes(fs.take(i)).len(),
        heads[i] + 4 <= stack_bytes(fs).len(),
        i == fs.len() - 1 ==> heads[i] == prefix_bytes(fs.drop_last()).len(),
        i == fs.len() - 2 ==> heads[i] == prefix_bytes(fs.drop_last().drop_last()).len(),
    decreases fs.len() - i,
{
    assert(heads[i] == prefix_bytes(fs.take(i)).len());
    if i == fs.len() - 1 {
        assert(fs.take(i) =~= fs.drop_last());
        lemma_stack_split(fs);
    } else {
        lemma_head_offset(fs, heads, i + 1);
        lemma_prefix_take(fs, i);
        assert(fs.take(i + 1) =~= fs.take(i + 1));
        if i == fs.len() - 2 {
            assert(fs.take(i) =~= fs.drop_last().drop_last());
        }
    }
}

/// Adding a child rewrites the innermost header and appends the child.
proof fn lemma_put_bytes(fs: Seq<AttrView>, child: AttrView, h: nat, new_len: nat)
    requires
        fs.len() >= 1,
        h == prefix_bytes(fs.drop_last()).len(),
        new_len == 4 + fs.last().data.len() + child.bytes().len(),
    ensures
        relabel(stack_bytes(fs), h as int, new_len) + child.bytes() == stack_bytes(add_child(fs, child)),
{
    let nfs = add_child(fs, child);
    let t = fs.last();
    let p = prefix_bytes(fs.drop_last());
    lemma_stack_split(fs);
    lemma_relabel(p, t.id, t.extended, 4 + t.data.len(), new_len, t.data);
    let nt = nfs.last();
    assert(nfs.drop_last() =~= fs.drop_last());
    lemma_stack_split(nfs);
    assert(nt.data =~= t.data + child.bytes());
    assert(p + header_bytes(t.id, t.extended, new_len) + t.data + child.bytes()
        =~= p + header_bytes(nt.id, nt.extended, 4 + nt.data.len()) + nt.data);
}

/// Offsets stay right when the containers before each offset are unchanged.
proof fn lemma_heads_same_prefix(heads: Seq<usize>, fs: Seq<AttrView>, nfs: Seq<AttrView>)
    requires
        heads_match(heads, fs),
        nfs.len() >= heads.len(),
        forall|i: int| 0 <= i < heads.len() ==> #[trigger] nfs.take(i) == fs.take(i),
    ensures
        forall|i: int| 0 <= i < heads.len() ==> #[trigger] heads[i] == prefix_bytes(nfs.take(i)).len(),
{
    assert forall|i: int| 0 <= i < heads.len() implies #[trigger] heads[i] == prefix_bytes(nfs.take(i)).len() by {
        assert(nfs.take(i) == fs.take(i));
    }
}

proof fn lemma_aligned_sum(a: nat, b: nat)
    requires
        a % 4 == 0,
        b % 4 == 0,
    ensures
        (a + b) % 4 == 0,
{
    assert((a + b) % 4 == 0) by (nonlinear_arith)
        requires
            a % 4 == 0,
            b % 4 == 0,
    ;
}

/// Adding a child that fits to an open container keeps it valid and adds
/// the child's encoding to its walk.
pub proof fn lemma_frame_add(f: AttrView, c: AttrView)
    requires
        frame_ok(f),
        c.fits(),
    ensures
        frame_ok(AttrView { id: f.id, extended: f.extended, data: f.data + c.bytes() }),
        attrs_of(frame_walk(AttrView { id: f.id, extended: f.extended, data: f.data + c.bytes() }))
            == attrs_of(frame_walk(f)).push(c.bytes()),
{
    let g = AttrView { id: f.id, extended: f.extended, data: f.data + c.bytes() };
    lemma_child_len(c);
    lemma_aligned_sum(f.data.len(), c.bytes().len());
    lemma_payload_of_append(f.extended, f.data, c.bytes());
    lemma_walk_push(frame_walk(f), c);
}

proof fn lemma_put_valid(fs: Seq<AttrView>, child: AttrView)
    requires
        frames_valid(fs),
        child.fits(),
        stack_bytes(add_child(fs, child)).len() <= MAX_RAW_LEN,
    ensures
        frames_valid(add_child(fs, child)),
{
    let k = fs.len() - 1;
    let nfs = add_child(fs, child);
    assert(frame_ok(fs[k]));
    lemma_frame_add(fs[k], child);
    assert(nfs[k] == AttrView { id: fs[k].id, extended: fs[k].extended, data: fs[k].data + child.bytes() });
    assert forall|i: int| 0 <= i < nfs.len() implies frame_ok(#[trigger] nfs[i]) by {
        if i < k {
            assert(nfs[i] == fs[i]);
        }
    }
}

proof fn lemma_put_step(fs: Seq<AttrView>, heads: Seq<usize>, child: AttrView, new_len: nat)
    requires
        frames_valid(fs),
        heads_match(heads, fs),
        child.id < 128,
        4 + child.data.len() <= MAX_RAW_LEN,
        stack_bytes(fs).len() + child.bytes().len() <= MAX_RAW_LEN,
        heads[fs.len() - 1] + 4 <= stack_bytes(fs).len(),
        heads[fs.len() - 1] == prefix_bytes(fs.drop_last()).len(),
        new_len == stack_bytes(fs).len() - heads[fs.len() - 1] + child.bytes().len(),
    ensures
        new_len <= MAX_RAW_LEN,
        relabel(stack_bytes(fs), heads[fs.len() - 1] as int, new_len) + child.bytes() == stack_bytes(add_child(fs, child)),
        frames_valid(add_child(fs, child)),
        heads_match(heads, add_child(fs, child)),
{
    let k = fs.len() - 1;
    let nfs = add_child(fs, child);
    lemma_child_len(child);
    lemma_stack_split(fs);
    lemma_put_bytes(fs, child, heads[k] as nat, new_len);
    lemma_put_valid(fs, child);
    assert forall|i: int| 0 <= i < heads.len() implies #[trigger] nfs.take(i) == fs.take(i) by {
        assert(nfs.take(i) =~= fs.take(i));
    }
    lemma_heads_same_prefix(heads, fs, nfs);
}

/// Opening a container rewrites the innermost header and appends the new
/// container's header and prefix.
proof fn lemma_open_step(fs: Seq<AttrView>, heads: Seq<usize>, nf: AttrView, new_len: nat)
    requires
        frames_valid(fs),
        heads_match(heads, fs),
        heads[fs.len() - 1] + 4 <= stack_bytes(fs).len(),
        heads[fs.len() - 1] == prefix_bytes(fs.drop_last()).len(),
        frame_ok(nf),
        stack_bytes(fs).len() + 4 + nf.data.len() <= MAX_RAW_LEN,
        new_len == stack_bytes(fs).len() - heads[fs.len() - 1] + 4,
    ensures
        new_len <= MAX_RAW_LEN,
        relabel(stack_bytes(fs), heads[fs.len() - 1] as int, new_len) == prefix_bytes(fs),
        stack_bytes(fs.push(nf)) == prefix_bytes(fs) + frame_bytes(nf, true),
        frames_valid(fs.push(nf)),
        heads_match(heads.push(stack_bytes(fs).len() as usize), fs.push(nf)),
{
    reveal(prefix_bytes);
    let k = fs.len() - 1;
    let nfs = fs.push(nf);
    let t = fs.last();
    let p = prefix_bytes(fs.drop_last());
    assert(t == fs[k]);
    assert(frame_ok(t));
    lemma_stack_split(fs);
    lemma_relabel(p, t.id, t.extended, 4 + t.data.len(), new_len, t.data);
    assert(nfs.drop_last() =~= fs);
    assert(stack_bytes(nfs).len() == stack_bytes(fs).len() + 4 + nf.data.len());
    assert(nfs[0] == fs[0]);
    assert forall|i: int| 0 <= i < nfs.len() implies frame_ok(#[trigger] nfs[i]) by {
        if i < fs.len() {
            assert(nfs[i] == fs[i]);
        }
    }
    let nheads = heads.push(stack_bytes(fs).len() as usize);
    assert forall|i: int| 0 <= i < nheads.len() implies #[trigger] nheads[i] == prefix_bytes(nfs.take(i)).len() by {
        if i < fs.len() {
            assert(nfs.take(i) =~= fs.take(i));
        } else {
            assert(nfs.take(i) =~= fs);
        }
    }
}

proof fn lemma_close_bytes(fs: Seq<AttrView>, h: nat, new_len: nat)
    requires
        fs.len() >= 2,
        h == prefix_bytes(fs.drop_last().drop_last()).len(),
        new_len == stack_bytes(fs).len() - h,
    ensures
        relabel(stack_bytes(fs), h as int, new_len) == stack_bytes(close_innermost(fs)),
{
    reveal(prefix_bytes);
    let k = fs.len() - 1;
    let q = fs.drop_last();
    let p = prefix_bytes(q.drop_last());
    let pf = fs[k - 1];
    let t = fs.last();
    let nfs = close_innermost(fs);
    assert(q.last() == pf);
    let rest = pf.data + frame_bytes(t, true);
    assert(stack_bytes(fs) =~= p + header_bytes(pf.id, pf.extended, 8 + pf.data.len()) + rest);
    lemma_relabel(p, pf.id, pf.extended, 8 + pf.data.len(), new_len, rest);
    let np = nfs.last();
    assert(nfs.drop_last() =~= q.drop_last());
    assert(np.data =~= rest);
    lemma_stack_split(nfs);
    assert(p + header_bytes(pf.id, pf.extended, new_len) + rest =~= stack_bytes(nfs));
}

/// The innermost open container of a valid stack is a child that fits, and
/// its encoding needs no padding.
pub proof fn lemma_closed_is_child(fs: Seq<AttrView>)
    requires
        frames_valid(fs),
    ensures
        fs.last().fits(),
        fs.last().bytes() == fs.last().open_bytes(),
{
    let t = fs.last();
    assert(frame_ok(fs[fs.len() - 1]));
    lemma_stack_split(fs);
    lemma_pad4(4 + t.data.len());
    assert(spec_pad4(4 + t.data.len()) == 4 + t.data.len()) by {
        assert((4 + t.data.len()) % 4 == 0) by (nonlinear_arith)
            requires t.data.len() % 4 == 0;
    }
    assert(t.bytes() =~= t.open_bytes());
}

/// Closing the innermost container rewrites its parent's header.
proof fn lemma_close_step(fs: Seq<AttrView>, heads: Seq<usize>, new_len: nat)
    requires
        frames_valid(fs),
        heads_match(heads, fs),
        fs.len() >= 2,
        heads[fs.len() - 2] + 4 <= stack_bytes(fs).len(),
        heads[fs.len() - 2] == prefix_bytes(fs.drop_last().drop_last()).len(),
        new_len == stack_bytes(fs).len() - heads[fs.len() - 2],
    ensures
        new_len <= MAX_RAW_LEN,
        relabel(stack_bytes(fs), heads[fs.len() - 2] as int, new_len) == stack_bytes(close_innermost(fs)),
        frames_valid(close_innermost(fs)),
        heads_match(heads.drop_last(), close_innermost(fs)),
{
    let k = fs.len() - 1;
    let nfs = close_innermost(fs);
    lemma_close_bytes(fs, heads[k - 1] as nat, new_len);
    assert(frame_ok(fs[k - 1]));
    assert(frame_ok(fs[k]));
    lemma_closed_is_child(fs);
    lemma_frame_add(fs[k - 1], fs[k]);
    assert(nfs[k - 1] == AttrView { id: fs[k - 1].id, extended: fs[k - 1].extended, data: fs[k - 1].data + fs[k].bytes() });
    assert(nfs[0].extended == fs[0].extended);
    assert forall|i: int| 0 <= i < nfs.len() implies frame_ok(#[trigger] nfs[i]) by {
        if i < nfs.len() - 1 {
            assert(nfs[i] == fs[i]);
        }
    }
    let nheads = heads.drop_last();
    assert forall|i: int| 0 <= i < nheads.len() implies #[trigger] nfs.take(i) == fs.take(i) by {
        assert(nfs.take(i) =~= fs.take(i));
    }
    assert(heads_match(nheads, fs.drop_last())) by {
        assert forall|i: int| 0 <= i < nheads.len() implies #[trigger] nheads[i] == prefix_bytes(fs.drop_last().take(i)).len() by {
            assert(fs.drop_last().take(i) =~= fs.take(i));
            assert(nheads[i] == heads[i]);
        }
    }
    assert forall|i: int| 0 <= i < nheads.len() implies #[trigger] nfs.take(i) == fs.drop_last().take(i) by {
        assert(nfs.take(i) =~= fs.drop_last().take(i));
    }
    lemma_heads_same_prefix(nheads, fs.drop_last(), nfs);
}

/// The first open container's bytes lead the bytes of a non-empty stack.
proof fn lemma_prefix_shape(fs: Seq<AttrView>)
    requires
        fs.len() >= 1,
    ensures
        prefix_bytes(fs) == frame_bytes(fs[0], false) + prefix_bytes(fs.drop_first()),
    decreases fs.len(),
{
    reveal(prefix_bytes);
    if fs.len() == 1 {
        assert(fs.drop_last() =~= Seq::<AttrView>::empty());
        assert(fs.drop_first() =~= Seq::<AttrView>::empty());
    } else {
        lemma_prefix_shape(fs.drop_last());
        assert(fs.drop_last().drop_first() =~= fs.drop_first().drop_last());
    }
}

/// `fs` after each of `items`, in order, is added to the innermost open
/// container.
pub open spec fn add_all(fs: Seq<AttrView>, items: Seq<AttrView>) -> Seq<AttrView>
    decreases items.len(),
{
    if items.len() == 0 {
        fs
    } else {
        add_child(add_all(fs, items.drop_last()), items.last())
    }
}

/// Encodings of attributes that fit take a multiple of four bytes.
pub proof fn lemma_encode_all_aligned(items: Seq<AttrView>)
    requires
        forall|i: int| 0 <= i < items.len() ==> #[trigger] items[i].fits(),
    ensures
        encode_all(items).len() % 4 == 0,
    decreases items.len(),
{
    if items.len() > 0 {
        let a = items.last();
        assert(items[items.len() - 1].fits());
        assert forall|i: int| 0 <= i < items.drop_last().len() implies #[trigger] items.drop_last()[i].fits() by {
            assert(items.drop_last()[i] == items[i]);
        }
        lemma_encode_all_aligned(items.drop_last());
        lemma_child_len(a);
        lemma_aligned_sum(encode_all(items.drop_last()).len(), a.bytes().len());
    }
}

/// Adding attributes one after another appends their encodings, in order,
/// to the innermost open container and leaves the other containers alone.
pub proof fn lemma_add_all(fs: Seq<AttrView>, items: Seq<AttrView>)
    requires
        fs.len() >= 1,
    ensures
        add_all(fs, items) == fs.update(
            fs.len() - 1,
            AttrView { id: fs.last().id, extended: fs.last().extended, data: fs.last().data + encode_all(items) },
        ),
    decreases items.len(),
{
    if items.len() == 0 {
        assert(fs.last().data + encode_all(items) =~= fs.last().data);
        assert(fs.update(fs.len() - 1, fs.last()) =~= fs);
    } else {
        lemma_add_all(fs, items.drop_last());
        let prev = add_all(fs, items.drop_last());
        assert(prev.last().data + items.last().bytes() =~= fs.last().data + encode_all(items));
        assert(add_all(fs, items) =~= fs.update(
            fs.len() - 1,
            AttrView { id: fs.last().id, extended: fs.last().extended, data: fs.last().data + encode_all(items) },
        ));
    }
}

/// Read-back: walking the outermost attribute of a buffer that started
/// empty and had `items` added yields exactly those attributes, in order,
/// each decoding to the id, extended flag and payload that was added.
pub proof fn lemma_read_back(root: AttrView, items: Seq<AttrView>)
    requires
        root.data.len() == 0,
        root.id < 128,
        forall|i: int| 0 <= i < items.len() ==> #[trigger] items[i].fits(),
        4 + encode_all(items).len() <= MAX_RAW_LEN,
    ensures
        add_all(seq![root], items) == seq![AttrView { id: root.id, extended: root.extended, data: encode_all(items) }],
        attrs_of(attr_data(add_all(seq![root], items)[0].open_bytes())) == items.map_values(|a: AttrView| a.bytes()),
        forall|i: int| 0 <= i < items.len() ==> decode_attr(#[trigger] items[i].bytes()) == items[i],
{
    lemma_add_all(seq![root], items);
    assert(root.data + encode_all(items) =~= encode_all(items));
    let r = AttrView { id: root.id, extended: root.extended, data: encode_all(items) };
    assert(add_all(seq![root], items) =~= seq![r]);
    lemma_header_decode(r.id, r.extended, 4 + r.data.len());
    assert(r.open_bytes().subrange(0, 4) =~= header_bytes(r.id, r.extended, 4 + r.data.len()));
    assert(attr_data(r.open_bytes()) =~= encode_all(items));
    lemma_encode_then_walk(items, Seq::empty());
    assert(encode_all(items) + Seq::<u8>::empty() =~= encode_all(items));
    assert(attrs_of(Seq::<u8>::empty()) =~= Seq::<Seq<u8>>::empty());
    assert(items.map_values(|a: AttrView| a.bytes()) + Seq::<Seq<u8>>::empty() =~= items.map_values(|a: AttrView| a.bytes()));
    assert forall|i: int| 0 <= i < items.len() implies decode_attr(#[trigger] items[i].bytes()) == items[i] by {
        lemma_attr_roundtrip(items[i], Seq::empty());
        assert(items[i].bytes() + Seq::<u8>::empty() =~= items[i].bytes());
    }
}

/// A container that is opened with payload `prefix`, has `items` added and
/// is closed stands in its parent as a single attribute whose payload is
/// `prefix` followed by the encodings of `items`.
pub proof fn lemma_nest_as_child(fs: Seq<AttrView>, id: nat, extended: bool, prefix: Seq<u8>, items: Seq<AttrView>)
    requires
        fs.len() >= 1,
        prefix.len() % 4 == 0,
        forall|i: int| 0 <= i < items.len() ==> #[trigger] items[i].fits(),
    ensures
        close_innermost(add_all(fs.push(AttrView { id, extended, data: prefix }), items)) == add_child(
            fs,
            AttrView { id, extended, data: prefix + encode_all(items) },
        ),
{
    let f = AttrView { id, extended, data: prefix };
    let g = AttrView { id, extended, data: prefix + encode_all(items) };
    lemma_add_all(fs.push(f), items);
    assert(add_all(fs.push(f), items) =~= fs.push(g));
    lemma_encode_all_aligned(items);
    lemma_aligned_sum(prefix.len(), encode_all(items).len());
    lemma_pad4(4 + g.data.len());
    assert(spec_pad4(4 + g.data.len()) == 4 + g.data.len()) by {
        assert((4 + g.data.len()) % 4 == 0) by (nonlinear_arith)
            requires g.data.len() % 4 == 0;
    }
    assert(g.bytes() =~= g.open_bytes());
    assert(close_innermost(fs.push(g)) =~= add_child(fs, g));
}

/// Adding a child only appends to the innermost open container.
pub proof fn lemma_grows_add(fs: Seq<AttrView>, child: AttrView)
    requires
        fs.len() >= 1,
    ensures
        grows(fs, add_child(fs, child)),
        grows(fs, fs),
{
    let nfs = add_child(fs, child);
    assert(nfs.last().data.subrange(0, fs.last().data.len() as int) =~= fs.last().data);
    assert(fs.last().data.subrange(0, fs.last().data.len() as int) =~= fs.last().data);
    assert forall|i: int| 0 <= i < fs.len() - 1 implies #[trigger] nfs[i] == fs[i] by {}
}

/// Walk law for adding: adding a child that fits to a buffer's innermost
/// open container keeps the buffer valid, and the walk of that container's
/// children yields what it yielded before, then exactly the child, which
/// decodes to the id, extended flag and payload that were added.
pub proof fn lemma_add_then_walk(fs: Seq<AttrView>, child: AttrView)
    requires
        frames_valid(fs),
        child.fits(),
        stack_bytes(fs).len() + child.bytes().len() <= MAX_RAW_LEN,
    ensures
        frames_valid(add_child(fs, child)),
        grows(fs, add_child(fs, child)),
        attrs_of(frame_walk(add_child(fs, child).last())) == attrs_of(frame_walk(fs.last())).push(child.bytes()),
        decode_attr(child.bytes()) == child,
{
    let k = fs.len() - 1;
    lemma_child_len(child);
    lemma_put_bytes(fs, child, prefix_bytes(fs.drop_last()).len(), 4 + fs.last().data.len() + child.bytes().len());
    assert(stack_bytes(add_child(fs, child)).len() == stack_bytes(fs).len() + child.bytes().len()) by {
        lemma_stack_split(fs);
        lemma_stack_split(add_child(fs, child));
        assert(add_child(fs, child).drop_last() =~= fs.drop_last());
    }
    lemma_put_valid(fs, child);
    lemma_grows_add(fs, child);
    assert(frame_ok(fs[k]));
    lemma_frame_add(fs[k], child);
    assert(add_child(fs, child).last() == AttrView { id: fs[k].id, extended: fs[k].extended, data: fs[k].data + child.bytes() });
    lemma_attr_roundtrip(child, Seq::empty());
    assert(child.bytes() + Seq::<u8>::empty() =~= child.bytes());
}

/// Walk law for nesting: a container opened as `nf` inside `before`,
/// grown while open into the innermost container of `after`, and then
/// closed, stands in `before`'s innermost container as one more child. That
/// child keeps `nf`'s id, extended flag and payload start, decodes to what
/// the container held, and its children are whole encodings.
pub proof fn lemma_close_then_walk(before: Seq<AttrView>, nf: AttrView, after: Seq<AttrView>)
    requires
        frames_valid(before),
        frames_valid(after),
        grows(before.push(nf), after),
    ensures
        close_innermost(after) == add_child(before, after.last()),
        frames_valid(close_innermost(after)),
        grows(before, close_innermost(after)),
        after.last().id == nf.id,
        after.last().extended == nf.extended,
        after.last().data.subrange(0, nf.data.len() as int) == nf.data,
        attrs_of(frame_walk(close_innermost(after).last())) == attrs_of(frame_walk(before.last())).push(after.last().bytes()),
        decode_attr(after.last().bytes()) == after.last(),
        walks_whole(frame_walk(after.last())),
{
    let k = before.len() as int;
    let c = after.last();
    assert(after[k - 1] == before.push(nf)[k - 1]);
    assert(after[k - 1] == before[k - 1]);
    assert forall|i: int| 0 <= i < k - 1 implies after[i] == before[i] by {
        assert(after[i] == before.push(nf)[i]);
    }
    lemma_closed_is_child(after);
    assert(close_innermost(after) =~= add_child(before, c));
    assert(frame_ok(after[k]));
    lemma_stack_split(after);
    assert(stack_bytes(before).len() + c.bytes().len() <= MAX_RAW_LEN) by {
        reveal(prefix_bytes);
        assert(after.drop_last() =~= before);
        lemma_stack_split(before);
    }
    lemma_add_then_walk(before, c);
}


} // verus!
