use vstd::prelude::*;
use vstd::slice::slice_subrange;

use crate::endian::from_be16;

verus! {

/// Size of the attribute header: one big-endian word holding a 7-bit id,
/// the extended flag and a 24-bit total length.
pub const HDR_SIZE: usize = 4;

/// Largest total length the 24-bit length field can record.
pub const MAX_RAW_LEN: usize = 0x00ff_ffff;

/// `n` rounded up to the next multiple of four.
pub open spec fn spec_pad4(n: nat) -> nat {
    (n + 3) / 4 * 4
}

/// Attribute id stored in a header.
pub open spec fn hdr_id(b: Seq<u8>) -> nat {
    (b[0] % 128) as nat
}

/// Extended flag stored in a header.
pub open spec fn hdr_extended(b: Seq<u8>) -> bool {
    b[0] >= 128
}

/// Total length (header included, padding excluded) stored in a header.
pub open spec fn hdr_raw_len(b: Seq<u8>) -> nat {
    (b[1] as nat) * 65536 + (b[2] as nat) * 256 + (b[3] as nat)
}

/// Payload length of the attribute encoded at the start of `b`.
pub open spec fn attr_len(b: Seq<u8>) -> nat {
    if hdr_raw_len(b) <= 4 { 0 } else { (hdr_raw_len(b) - 4) as nat }
}

/// Payload of the attribute encoded at the start of `b`.
pub open spec fn attr_data(b: Seq<u8>) -> Seq<u8> {
    b.subrange(4, 4 + attr_len(b) as int)
}

/// The four header bytes for `id`, `extended` and total length `raw_len`.
pub open spec fn header_bytes(id: nat, extended: bool, raw_len: nat) -> Seq<u8> {
    seq![
        (if extended { id + 128 } else { id }) as u8,
        (raw_len / 65536) as u8,
        ((raw_len / 256) % 256) as u8,
        (raw_len % 256) as u8,
    ]
}

pub open spec fn zeros(n: nat) -> Seq<u8> {
    Seq::new(n, |i: int| 0u8)
}

/// Abstract attribute: id, extended flag and payload.
pub struct AttrView {
    pub id: nat,
    pub extended: bool,
    pub data: Seq<u8>,
}

impl AttrView {
    /// The attribute can be encoded: its id fits in seven bits and its
    /// total length in the 24-bit length field.
    pub open spec fn fits(self) -> bool {
        &&& self.id < 128
        &&& 4 + self.data.len() <= MAX_RAW_LEN
    }

    /// Header and payload, without padding.
    pub open spec fn open_bytes(self) -> Seq<u8> {
        header_bytes(self.id, self.extended, 4 + self.data.len()) + self.data
    }

    /// Header, payload and zero padding up to a multiple of four.
    pub open spec fn bytes(self) -> Seq<u8> {
        self.open_bytes() + zeros((spec_pad4(4 + self.data.len()) - 4 - self.data.len()) as nat)
    }
}

/// What the attribute encoded at the start of `b` holds.
pub open spec fn decode_attr(b: Seq<u8>) -> AttrView {
    AttrView { id: hdr_id(b), extended: hdr_extended(b), data: attr_data(b) }
}

/// Concatenated encodings of `items`.
pub open spec fn encode_all(items: Seq<AttrView>) -> Seq<u8>
    decreases items.len(),
{
    if items.len() == 0 {
        Seq::empty()
    } else {
        encode_all(items.drop_last()) + items.last().bytes()
    }
}

/// Length of the next attribute a walk over `rem` yields, padding included,
/// or `None` where the walk stops.
pub open spec fn next_attr_len(rem: Seq<u8>) -> Option<nat> {
    if rem.len() < 4 {
        None
    } else {
        let pad = spec_pad4(hdr_raw_len(rem));
        if pad < 4 || pad > rem.len() {
            None
        } else {
            Some(pad)
        }
    }
}

/// The attributes (each with its padding) that a walk over `rem` yields.
pub open spec fn attrs_of(rem: Seq<u8>) -> Seq<Seq<u8>>
    decreases rem.len(),
{
    match next_attr_len(rem) {
        None => Seq::empty(),
        Some(n) => seq![rem.subrange(0, n as int)] + attrs_of(rem.subrange(n as int, rem.len() as int)),
    }
}

/// Length of a blobmsg name header for a name of `namelen` bytes: the
/// 16-bit length, the name and its NUL, padded to a multiple of four.
pub open spec fn msg_hdr_len(namelen: nat) -> nat {
    spec_pad4(2 + namelen + 1)
}

/// The part of an attribute's payload `d` that holds its children: all of
/// it for a plain attribute, the bytes after the name header for an
/// extended one.
pub open spec fn payload_of(extended: bool, d: Seq<u8>) -> Seq<u8> {
    if !extended || d.len() < 2 {
        d
    } else {
        let hl = msg_hdr_len(from_be16(d) as nat);
        if hl >= d.len() {
            Seq::empty()
        } else {
            d.subrange(hl as int, d.len() as int)
        }
    }
}

/// The name header of an extended payload `d` lies wholly within it.
pub open spec fn header_whole(extended: bool, d: Seq<u8>) -> bool {
    !extended || (d.len() >= 2 && msg_hdr_len(from_be16(d) as nat) <= d.len())
}

/// A walk over `s` consumes it entirely: `s` is a sequence of whole
/// attribute encodings.
pub open spec fn walks_whole(s: Seq<u8>) -> bool
    decreases s.len(),
{
    if s.len() == 0 {
        true
    } else {
        match next_attr_len(s) {
            None => false,
            Some(n) => walks_whole(s.subrange(n as int, s.len() as int)),
        }
    }
}

/// Appending to a payload whose name header is whole appends to the part
/// that holds the children.
pub proof fn lemma_payload_of_append(extended: bool, d: Seq<u8>, x: Seq<u8>)
    requires
        header_whole(extended, d),
    ensures
        header_whole(extended, d + x),
        payload_of(extended, d + x) == payload_of(extended, d) + x,
{
    if extended {
        let dx = d + x;
        assert(dx.subrange(0, 2) =~= d.subrange(0, 2));
        assert(dx[0] == d[0] && dx[1] == d[1]);
        assert(from_be16(dx) == from_be16(d));
        let hl = msg_hdr_len(from_be16(d) as nat);
        if hl == d.len() {
            assert(payload_of(extended, d) =~= Seq::<u8>::empty());
            if x.len() == 0 {
                assert(payload_of(extended, dx) =~= Seq::<u8>::empty());
            } else {
                assert(payload_of(extended, dx) =~= x);
            }
        } else {
            assert(dx.subrange(hl as int, dx.len() as int) =~= d.subrange(hl as int, d.len() as int) + x);
        }
        assert(payload_of(extended, d + x) =~= payload_of(extended, d) + x);
    } else {
        assert(payload_of(extended, d + x) =~= payload_of(extended, d) + x);
    }
}

/// Walking a sequence of whole encodings followed by anything yields their
/// attributes, then the walk of what follows.
pub proof fn lemma_walk_append(s: Seq<u8>, t: Seq<u8>)
    requires
        walks_whole(s),
    ensures
        attrs_of(s + t) == attrs_of(s) + attrs_of(t),
        walks_whole(t) ==> walks_whole(s + t),
    decreases s.len(),
{
    if s.len() == 0 {
        assert(s + t =~= t);
        assert(attrs_of(s) =~= Seq::<Seq<u8>>::empty());
        assert(attrs_of(s) + attrs_of(t) =~= attrs_of(t));
    } else {
        let n = next_attr_len(s).unwrap();
        let st = s + t;
        assert(st.subrange(0, 4) =~= s.subrange(0, 4));
        assert(st[1] == s[1] && st[2] == s[2] && st[3] == s[3]);
        assert(next_attr_len(st) == Some(n));
        let rest = s.subrange(n as int, s.len() as int);
        lemma_walk_append(rest, t);
        assert(st.subrange(0, n as int) =~= s.subrange(0, n as int));
        assert(st.subrange(n as int, st.len() as int) =~= rest + t);
        assert(attrs_of(st) =~= attrs_of(s) + attrs_of(t));
    }
}

/// One whole encoding appended to whole encodings keeps them whole and adds
/// it to their walk.
pub proof fn lemma_walk_push(s: Seq<u8>, a: AttrView)
    requires
        walks_whole(s),
        a.fits(),
    ensures
        walks_whole(s + a.bytes()),
        attrs_of(s + a.bytes()) == attrs_of(s).push(a.bytes()),
{
    lemma_attr_roundtrip(a, Seq::empty());
    let b = a.bytes();
    assert(b + Seq::<u8>::empty() =~= b);
    assert(b.subrange(b.len() as int, b.len() as int) =~= Seq::<u8>::empty());
    assert(walks_whole(Seq::<u8>::empty()));
    assert(walks_whole(b));
    assert(attrs_of(Seq::<u8>::empty()) =~= Seq::<Seq<u8>>::empty());
    assert(attrs_of(b) =~= seq![b]);
    lemma_walk_append(s, b);
    assert(attrs_of(s) + seq![b] =~= attrs_of(s).push(b));
}

pub proof fn lemma_pad4(n: nat)
    ensures
        n <= spec_pad4(n) < n + 4,
        spec_pad4(n) % 4 == 0,
        n % 4 == 0 ==> spec_pad4(n) == n,
{
}

/// The header bytes decode to what was encoded.
pub proof fn lemma_header_decode(id: nat, extended: bool, raw_len: nat)
    requires
        id < 128,
        raw_len <= MAX_RAW_LEN,
    ensures
        hdr_id(header_bytes(id, extended, raw_len)) == id,
        hdr_extended(header_bytes(id, extended, raw_len)) == extended,
        hdr_raw_len(header_bytes(id, extended, raw_len)) == raw_len,
{
    let h = header_bytes(id, extended, raw_len);
    assert(h[1] as nat == raw_len / 65536);
    assert(h[2] as nat == (raw_len / 256) % 256);
    assert(h[3] as nat == raw_len % 256);
    assert((raw_len / 65536) * 65536 + ((raw_len / 256) % 256) * 256 + raw_len % 256 == raw_len)
        by (nonlinear_arith);
}

/// Decoding an encoded attribute, with anything after it, gives it back.
pub proof fn lemma_attr_roundtrip(a: AttrView, rest: Seq<u8>)
    requires
        a.fits(),
    ensures
        a.bytes().len() == spec_pad4(4 + a.data.len()),
        decode_attr(a.bytes() + rest) == a,
        hdr_raw_len(a.bytes() + rest) == 4 + a.data.len(),
        next_attr_len(a.bytes() + rest) == Some(a.bytes().len()),
        attrs_of(a.bytes() + rest) == seq![a.bytes()] + attrs_of(rest),
{
    lemma_pad4(4 + a.data.len());
    lemma_header_decode(a.id, a.extended, 4 + a.data.len());
    let b = a.bytes() + rest;
    let h = header_bytes(a.id, a.extended, 4 + a.data.len());
    assert(b.subrange(0, 4) =~= h);
    assert(hdr_raw_len(b) == hdr_raw_len(h));
    assert(hdr_id(b) == hdr_id(h));
    assert(hdr_extended(b) == hdr_extended(h));
    assert(attr_data(b) =~= a.data);
    let n = a.bytes().len();
    assert(b.subrange(0, n as int) =~= a.bytes());
    assert(b.subrange(n as int, b.len() as int) =~= rest);
}

/// Walking the encodings of well-formed attributes yields exactly those
/// attributes, in order.
pub proof fn lemma_encode_then_walk(items: Seq<AttrView>, rest: Seq<u8>)
    requires
        forall|i: int| 0 <= i < items.len() ==> #[trigger] items[i].fits(),
    ensures
        attrs_of(encode_all(items) + rest) == items.map_values(|a: AttrView| a.bytes()) + attrs_of(rest),
    decreases items.len(),
{
    if items.len() == 0 {
        assert(encode_all(items) + rest =~= rest);
        assert(items.map_values(|a: AttrView| a.bytes()) =~= Seq::<Seq<u8>>::empty());
    } else {
        let init = items.drop_last();
        let a = items.last();
        assert(a.fits());
        lemma_attr_roundtrip(a, rest);
        assert(encode_all(items) + rest =~= encode_all(init) + (a.bytes() + rest));
        lemma_encode_then_walk(init, a.bytes() + rest);
        assert(items.map_values(|a: AttrView| a.bytes())
            =~= init.map_values(|a: AttrView| a.bytes()) + seq![a.bytes()]);
    }
}


/// `n` rounded up to the next multiple of four.
pub(crate) fn pad4(n: usize) -> (r: usize)
    requires
        n + 3 <= usize::MAX,
    ensures
        r == spec_pad4(n as nat),
{
    (n + 3) / 4 * 4
}

/// Total length recorded in the header at the start of `b`.
pub(crate) fn header_raw_len(b: &[u8]) -> (r: usize)
    requires
        b@.len() >= 4,
    ensures
        r == hdr_raw_len(b@),
        r <= MAX_RAW_LEN,
{
    (b[1] as usize) * 65536 + (b[2] as usize) * 256 + (b[3] as usize)
}

/// Borrowed view of one encoded attribute: its header, payload and (for
/// attributes yielded by a walk) padding. The header layout is a big-endian
/// word holding a 7-bit id, the extended flag and a 24-bit total length.
#[derive(Clone, Copy)]
pub struct BlobAttr<'a> {
    bytes: &'a [u8],
}

impl<'a> View for BlobAttr<'a> {
    type V = Seq<u8>;

    closed spec fn view(&self) -> Seq<u8> {
        self.bytes@
    }
}

/// Bytes that can stand behind a `BlobAttr`: a whole header, and at least
/// as many bytes as the header's total length.
pub open spec fn attr_bytes_valid(b: Seq<u8>) -> bool {
    b.len() >= 4 && hdr_raw_len(b) <= b.len()
}

impl<'a> BlobAttr<'a> {
    #[verifier::type_invariant]
    spec fn inv(self) -> bool {
        attr_bytes_valid(self.bytes@)
    }

    /// View the attribute encoded at the start of `bytes`, if they hold a
    /// whole header and the length it declares.
    pub fn from_raw(bytes: &'a [u8]) -> (r: Option<Self>)
        ensures
            r is Some <==> attr_bytes_valid(bytes@),
            r matches Some(a) ==> a@ == bytes@,
    {
        if bytes.len() >= HDR_SIZE && header_raw_len(bytes) <= bytes.len() {
            Some(BlobAttr { bytes })
        } else {
            None
        }
    }

    pub(crate) fn from_valid(bytes: &'a [u8]) -> (r: Self)
        requires
            attr_bytes_valid(bytes@),
        ensures
            r@ == bytes@,
    {
        BlobAttr { bytes }
    }

    /// The bytes this attribute views.
    pub fn as_ptr(&self) -> (r: &'a [u8])
        ensures
            r@ == self@,
    {
        self.bytes
    }

    pub fn id(&self) -> (r: u32)
        ensures
            r == hdr_id(self@),
    {
        proof { use_type_invariant(self); }
        (self.bytes[0] % 128) as u32
    }

    pub fn is_extended(&self) -> (r: bool)
        ensures
            r == hdr_extended(self@),
    {
        proof { use_type_invariant(self); }
        self.bytes[0] >= 128
    }

    /// Total on-wire size including the 4-byte header (no padding).
    pub fn raw_len(&self) -> (r: usize)
        ensures
            r == hdr_raw_len(self@),
    {
        proof { use_type_invariant(self); }
        header_raw_len(self.bytes)
    }

    /// Padded total size including header (4-byte aligned).
    pub fn pad_len(&self) -> (r: usize)
        ensures
            r == spec_pad4(hdr_raw_len(self@)),
    {
        pad4(self.raw_len())
    }

    /// Length of `data()`.
    pub fn len(&self) -> (r: usize)
        ensures
            r == attr_len(self@),
    {
        let raw = self.raw_len();
        if raw >= HDR_SIZE { raw - HDR_SIZE } else { 0 }
    }

    pub fn is_empty(&self) -> (r: bool)
        ensures
            r == (attr_len(self@) == 0),
    {
        self.len() == 0
    }

    /// Payload bytes (after the 4-byte header). For blobmsg-extended
    /// attributes this still includes the inline name header.
    pub fn data(&self) -> (r: &'a [u8])
        ensures
            r@ == attr_data(self@),
            r@.len() == attr_len(self@),
            attr_len(self@) < MAX_RAW_LEN,
    {
        proof { use_type_invariant(self); }
        let len = self.len();
        slice_subrange(self.bytes, HDR_SIZE, HDR_SIZE + len)
    }

    /// Walk `self.data()` as a sequence of child attributes.
    pub fn iter(&self) -> (r: BlobIter<'a>)
        ensures
            r@ == attr_data(self@),
    {
        BlobIter::from_bytes(self.data())
    }
}

/// Walk over consecutive attributes. Stops (yields `None`) at a truncated or
/// malformed attribute rather than reading past the bytes it was given.
pub struct BlobIter<'a> {
    rem: &'a [u8],
}

impl<'a> View for BlobIter<'a> {
    type V = Seq<u8>;

    closed spec fn view(&self) -> Seq<u8> {
        self.rem@
    }
}

impl<'a> BlobIter<'a> {
    pub(crate) fn from_bytes(bytes: &'a [u8]) -> (r: Self)
        ensures
            r@ == bytes@,
    {
        BlobIter { rem: bytes }
    }

    /// The next attribute, with its padding; `None` where the remaining
    /// bytes do not start with a whole attribute.
    pub fn next(&mut self) -> (r: Option<BlobAttr<'a>>)
        ensures
            match next_attr_len(old(self)@) {
                None => r is None && final(self)@ == old(self)@,
                Some(n) => r matches Some(a) && a@ == old(self)@.subrange(0, n as int)
                    && final(self)@ == old(self)@.subrange(n as int, old(self)@.len() as int),
            },
            r matches Some(a) ==> attr_bytes_valid(a@),
    {
        if self.rem.len() < HDR_SIZE {
            return None;
        }
        let pad = pad4(header_raw_len(self.rem));
        if pad < HDR_SIZE || pad > self.rem.len() {
            return None;
        }
        let attr = BlobAttr::from_valid(slice_subrange(self.rem, 0, pad));
        self.rem = slice_subrange(self.rem, pad, self.rem.len());
        Some(attr)
    }

    /// All the attributes the walk still yields, in order.
    pub fn collect(self) -> (r: Vec<BlobAttr<'a>>)
        ensures
            r@.map_values(|a: BlobAttr<'a>| a@) == attrs_of(self@),
    {
        let mut it = self;
        let mut out: Vec<BlobAttr<'a>> = Vec::new();
        loop
            invariant
                out@.map_values(|a: BlobAttr<'a>| a@) + attrs_of(it@) == attrs_of(self@),
            decreases it@.len(),
        {
            let ghost before = it@;
            match it.next() {
                None => {
                    assert(out@.map_values(|a: BlobAttr<'a>| a@) =~= attrs_of(self@));
                    return out;
                },
                Some(a) => {
                    let ghost old_out = out@;
                    out.push(a);
                    assert(out@.map_values(|a: BlobAttr<'a>| a@)
                        =~= old_out.map_values(|a: BlobAttr<'a>| a@) + seq![a@]);
                },
            }
        }
    }
}

} // verus!
