//! JSON rendering of blobmsg attributes, in the layout of libubox's
//! formatter with indentation: one element per line, nested levels indented
//! by tabs, names quoted and followed by `": "`. Doubles are rendered by a
//! function the caller supplies, from their IEEE-754 bit pattern.

use vstd::prelude::*;

use crate::blob::attr::{
    attr_bytes_valid, attr_data, attr_len, hdr_id, hdr_raw_len, next_attr_len, BlobAttr, BlobIter,
    MAX_RAW_LEN,
};
use crate::blobmsg::{
    lemma_field_passes_checks, lemma_field_roundtrip, msg_attr_ok, msg_field, msg_name, msg_payload, payload_ok,
    type_code, BlobmsgAttr, BlobmsgBuf, BlobmsgType,
};
use crate::blob::attr::{lemma_attr_roundtrip, AttrView};
use crate::endian::{
    be16, be32, be64, from_be16, from_be32, from_be64, lemma_be16_roundtrip, lemma_be32_roundtrip,
    lemma_be64_roundtrip,
};

verus! {

/// Line break and indentation before an element at nesting `level`: a
/// newline and `level` tabs, at most twenty.
pub open spec fn sep(level: nat) -> Seq<u8> {
    let tabs: nat = if level > 20 { 20 } else { level };
    seq![10u8] + Seq::new(tabs, |i: int| 9u8)
}

/// `s` up to its first NUL byte.
pub open spec fn until_nul(s: Seq<u8>) -> Seq<u8>
    decreases s.len(),
{
    if s.len() == 0 {
        s
    } else if s[0] == 0 {
        Seq::empty()
    } else {
        seq![s[0]] + until_nul(s.drop_first())
    }
}

/// Lower-case hexadecimal digit for `d < 16`.
pub open spec fn hex_digit(d: u8) -> u8 {
    if d < 10 { (48 + d) as u8 } else { (87 + d) as u8 }
}

/// A byte inside a JSON string: backspace, newline, tab, carriage return,
/// quote and backslash escaped by a backslash, other control bytes as
/// `\u00XX`, anything else as it is.
pub open spec fn escape_byte(c: u8) -> Seq<u8> {
    if c == 8 {
        seq![92u8, 98u8]
    } else if c == 10 {
        seq![92u8, 110u8]
    } else if c == 9 {
        seq![92u8, 116u8]
    } else if c == 13 {
        seq![92u8, 114u8]
    } else if c == 34 || c == 92 {
        seq![92u8, c]
    } else if c < 32 {
        seq![92u8, 117u8, 48u8, 48u8, hex_digit(c / 16), hex_digit(c % 16)]
    } else {
        seq![c]
    }
}

pub open spec fn escape_all(s: Seq<u8>) -> Seq<u8>
    decreases s.len(),
{
    if s.len() == 0 {
        Seq::empty()
    } else {
        escape_byte(s[0]) + escape_all(s.drop_first())
    }
}

/// A quoted JSON string holding `s` up to its first NUL byte.
pub open spec fn json_string(s: Seq<u8>) -> Seq<u8> {
    seq![34u8] + escape_all(until_nul(s)) + seq![34u8]
}

/// Decimal digits of `n`.
pub open spec fn digits(n: nat) -> Seq<u8>
    decreases n,
{
    if n < 10 {
        seq![(48 + n) as u8]
    } else {
        digits(n / 10).push((48 + n % 10) as u8)
    }
}

/// `n` in decimal, with a leading minus sign where negative.
pub open spec fn decimal(n: int) -> Seq<u8> {
    if n < 0 {
        seq![45u8] + digits((-n) as nat)
    } else {
        digits(n as nat)
    }
}

pub open spec fn text_null() -> Seq<u8> {
    seq![110u8, 117u8, 108u8, 108u8]
}

pub open spec fn text_true() -> Seq<u8> {
    seq![116u8, 114u8, 117u8, 101u8]
}

pub open spec fn text_false() -> Seq<u8> {
    seq![102u8, 97u8, 108u8, 115u8, 101u8]
}

/// The JSON element for the attribute `a`, at nesting `level`: nothing where
/// `a` fails the parser's checks; else its quoted name and `": "` (unless
/// `without_name`, or the name is empty), then its value.
pub open spec fn json_elem(a: Seq<u8>, without_name: bool, level: nat, dbl: spec_fn(u64) -> Seq<u8>) -> Seq<u8>
    decreases a.len(), 0nat,
{
    if !msg_attr_ok(a) || !attr_bytes_valid(a) {
        Seq::empty()
    } else {
        let name = if !without_name && until_nul(msg_name(a)).len() > 0 {
            json_string(msg_name(a)) + seq![58u8, 32u8]
        } else {
            Seq::empty()
        };
        let p = msg_payload(a);
        let id = hdr_id(a);
        let value = if id == 0 {
            text_null()
        } else if id == 7 {
            if p[0] != 0 { text_true() } else { text_false() }
        } else if id == 6 {
            decimal(from_be16(p) as i16 as int)
        } else if id == 5 {
            decimal(from_be32(p) as i32 as int)
        } else if id == 4 {
            decimal(from_be64(p) as i64 as int)
        } else if id == 8 {
            dbl(from_be64(p))
        } else if id == 3 {
            json_string(p)
        } else {
            proof {
                lemma_payload_shorter(a);
            }
            json_list(p, id == 1, level, dbl)
        };
        name + value
    }
}

/// The elements for the attributes a walk over `rem` yields, separated by
/// commas and line breaks.
pub open spec fn json_items(rem: Seq<u8>, first: bool, array: bool, level: nat, dbl: spec_fn(u64) -> Seq<u8>) -> Seq<u8>
    decreases rem.len(), 1nat,
{
    match next_attr_len(rem) {
        None => Seq::empty(),
        Some(n) => {
            let lead = if first { Seq::empty() } else { seq![44u8] + sep(level) };
            lead + json_elem(rem.subrange(0, n as int), array, level, dbl) + json_items(
                rem.subrange(n as int, rem.len() as int),
                false,
                array,
                level,
                dbl,
            )
        },
    }
}

/// An array or object holding the attributes a walk over `p` yields, opened
/// at nesting `level`.
pub open spec fn json_list(p: Seq<u8>, array: bool, level: nat, dbl: spec_fn(u64) -> Seq<u8>) -> Seq<u8>
    decreases p.len(), 2nat,
{
    (if array { seq![91u8] } else { seq![123u8] }) + sep(level + 1) + json_items(p, true, array, level + 1, dbl)
        + sep(level) + (if array { seq![93u8] } else { seq![125u8] })
}

/// The JSON for the attribute `a`: an array where it is an extended array,
/// else an object, holding the fields of its payload.
pub open spec fn json_of(a: Seq<u8>, dbl: spec_fn(u64) -> Seq<u8>) -> Seq<u8> {
    json_list(msg_payload(a), hdr_extended_array(a), 0, dbl)
}

pub open spec fn hdr_extended_array(a: Seq<u8>) -> bool {
    crate::blob::attr::hdr_extended(a) && hdr_id(a) == 1
}

pub proof fn lemma_payload_shorter(a: Seq<u8>)
    requires
        attr_bytes_valid(a),
        hdr_raw_len(a) >= 4,
    ensures
        msg_payload(a).len() < a.len(),
{
    assert(attr_data(a).len() == attr_len(a));
}

/// `f` may be called on any bit pattern and gives the same bytes each time.
pub open spec fn double_fn_ok<F: Fn(u64) -> Vec<u8>>(f: F) -> bool {
    &&& forall|x: u64| call_requires(f, (x,))
    &&& forall|x: u64, y1: Vec<u8>, y2: Vec<u8>|
        call_ensures(f, (x,), y1) && call_ensures(f, (x,), y2) ==> y1@ == y2@
}

/// The bytes `f` gives for each bit pattern.
pub open spec fn dbl_of<F: Fn(u64) -> Vec<u8>>(f: F) -> spec_fn(u64) -> Seq<u8> {
    |x: u64| (choose|y: Vec<u8>| call_ensures(f, (x,), y))@
}

proof fn lemma_escape_push(a: Seq<u8>, c: u8)
    ensures
        escape_all(a.push(c)) == escape_all(a) + escape_byte(c),
    decreases a.len(),
{
    if a.len() == 0 {
        assert(a.push(c).drop_first() =~= Seq::<u8>::empty());
        assert(a.push(c)[0] == c);
        assert(escape_all(a.push(c).drop_first()) =~= Seq::<u8>::empty());
        assert(escape_all(a.push(c)) =~= escape_byte(c));
    } else {
        assert(a.push(c).drop_first() =~= a.drop_first().push(c));
        lemma_escape_push(a.drop_first(), c);
        assert(escape_all(a.push(c)) =~= escape_all(a) + escape_byte(c));
    }
}

proof fn lemma_until_nul(s: Seq<u8>, i: int)
    requires
        0 <= i <= s.len(),
        forall|j: int| 0 <= j < i ==> s[j] != 0,
        i == s.len() || s[i] == 0,
    ensures
        until_nul(s) == s.subrange(0, i),
    decreases s.len(),
{
    if s.len() == 0 {
        assert(s.subrange(0, i) =~= s);
    } else if i == 0 {
        assert(s.subrange(0, i) =~= Seq::<u8>::empty());
    } else {
        assert forall|j: int| 0 <= j < i - 1 implies s.drop_first()[j] != 0 by {
            assert(s.drop_first()[j] == s[j + 1]);
        }
        lemma_until_nul(s.drop_first(), i - 1);
        assert(s.subrange(0, i) =~= seq![s[0]] + s.drop_first().subrange(0, i - 1));
    }
}

fn push_escaped_byte(out: &mut Vec<u8>, c: u8)
    ensures
        final(out)@ == old(out)@ + escape_byte(c),
{
    if c == 8 {
        out.push(92u8);
        out.push(98u8);
    } else if c == 10 {
        out.push(92u8);
        out.push(110u8);
    } else if c == 9 {
        out.push(92u8);
        out.push(116u8);
    } else if c == 13 {
        out.push(92u8);
        out.push(114u8);
    } else if c == 34 || c == 92 {
        out.push(92u8);
        out.push(c);
    } else if c < 32 {
        out.push(92u8);
        out.push(117u8);
        out.push(48u8);
        out.push(48u8);
        let hi = c / 16;
        let lo = c % 16;
        out.push(if hi < 10 { 48 + hi } else { 87 + hi });
        out.push(if lo < 10 { 48 + lo } else { 87 + lo });
    } else {
        out.push(c);
    }
    assert(final(out)@ =~= old(out)@ + escape_byte(c));
}

/// Pushes the quoted JSON string for `s` up to its first NUL byte.
fn push_json_string(out: &mut Vec<u8>, s: &[u8])
    ensures
        final(out)@ == old(out)@ + json_string(s@),
{
    out.push(34u8);
    let ghost start = out@;
    let mut i: usize = 0;
    while i < s.len() && s[i] != 0
        invariant
            i <= s@.len(),
            forall|j: int| 0 <= j < i ==> s@[j] != 0,
            out@ == start + escape_all(s@.subrange(0, i as int)),
        decreases s@.len() - i,
    {
        proof {
            lemma_escape_push(s@.subrange(0, i as int), s@[i as int]);
            assert(s@.subrange(0, i as int).push(s@[i as int]) =~= s@.subrange(0, i + 1));
        }
        push_escaped_byte(out, s[i]);
        i = i + 1;
    }
    proof {
        lemma_until_nul(s@, i as int);
    }
    out.push(34u8);
    assert(final(out)@ =~= old(out)@ + json_string(s@));
}

fn push_digits(out: &mut Vec<u8>, n: u64)
    ensures
        final(out)@ == old(out)@ + digits(n as nat),
    decreases n,
{
    if n >= 10 {
        push_digits(out, n / 10);
    }
    out.push((48 + n % 10) as u8);
    proof {
        if n >= 10 {
            assert(final(out)@ =~= old(out)@ + digits(n as nat));
        } else {
            assert(final(out)@ =~= old(out)@ + digits(n as nat));
        }
    }
}

fn push_decimal(out: &mut Vec<u8>, v: i64)
    ensures
        final(out)@ == old(out)@ + decimal(v as int),
{
    if v < 0 {
        out.push(45u8);
        let m: u64 = (0i128 - (v as i128)) as u64;
        push_digits(out, m);
    } else {
        push_digits(out, v as u64);
    }
    assert(final(out)@ =~= old(out)@ + decimal(v as int));
}

fn push_sep(out: &mut Vec<u8>, level: usize)
    ensures
        final(out)@ == old(out)@ + sep(level as nat),
{
    out.push(10u8);
    let tabs: usize = if level > 20 { 20 } else { level };
    let mut i: usize = 0;
    while i < tabs
        invariant
            i <= tabs,
            out@ == old(out)@ + seq![10u8] + Seq::new(i as nat, |k: int| 9u8),
        decreases tabs - i,
    {
        out.push(9u8);
        i = i + 1;
        assert(out@ =~= old(out)@ + seq![10u8] + Seq::new(i as nat, |k: int| 9u8));
    }
    assert(final(out)@ =~= old(out)@ + sep(level as nat));
}

fn push_bytes(out: &mut Vec<u8>, b: &[u8])
    ensures
        final(out)@ == old(out)@ + b@,
{
    crate::blob::push_all(out, b);
}

fn call_double<F: Fn(u64) -> Vec<u8>>(f: &F, bits: u64) -> (r: Vec<u8>)
    requires
        double_fn_ok(*f),
    ensures
        r@ == dbl_of(*f)(bits),
{
    let r = f(bits);
    proof {
        assert(call_ensures(*f, (bits,), r));
        let c = choose|y: Vec<u8>| call_ensures(*f, (bits,), y);
        assert(call_ensures(*f, (bits,), c));
    }
    r
}

/// Pushes the JSON element for `a` at nesting `level`.
fn write_elem<F: Fn(u64) -> Vec<u8>>(out: &mut Vec<u8>, a: BlobAttr, without_name: bool, level: usize, f: &F)
    requires
        double_fn_ok(*f),
        attr_bytes_valid(a@),
        level + a@.len() <= MAX_RAW_LEN + 1,
    ensures
        final(out)@ == old(out)@ + json_elem(a@, without_name, level as nat, dbl_of(*f)),
    decreases a@.len(), 0nat,
{
    if !crate::blobmsg::check_attr(a) {
        assert(final(out)@ =~= old(out)@);
        return;
    }
    let m = BlobmsgAttr::from_blob(a);
    let name = m.name();
    let ghost mid = out@;
    if !without_name && name.len() > 0 && name[0] != 0 {
        push_json_string(out, name);
        out.push(58u8);
        out.push(32u8);
    }
    let ghost after_name = out@;
    proof {
        if name@.len() > 0 && name@[0] != 0 {
            assert(until_nul(name@) == seq![name@[0]] + until_nul(name@.drop_first()));
        } else if name@.len() > 0 {
            assert(until_nul(name@).len() == 0);
        }
        let nm = if !without_name && until_nul(msg_name(a@)).len() > 0 {
            json_string(msg_name(a@)) + seq![58u8, 32u8]
        } else {
            Seq::empty()
        };
        assert(after_name =~= mid + nm);
    }
    let p = m.payload();
    let id = a.id();
    if id == 0 {
        out.push(110u8);
        out.push(117u8);
        out.push(108u8);
        out.push(108u8);
    } else if id == 7 {
        if p[0] != 0 {
            out.push(116u8);
            out.push(114u8);
            out.push(117u8);
            out.push(101u8);
        } else {
            out.push(102u8);
            out.push(97u8);
            out.push(108u8);
            out.push(115u8);
            out.push(101u8);
        }
    } else if id == 6 {
        let v = crate::endian::read_be16(p) as i16;
        push_decimal(out, v as i64);
    } else if id == 5 {
        let v = crate::endian::read_be32(p) as i32;
        push_decimal(out, v as i64);
    } else if id == 4 {
        let v = crate::endian::read_be64(p) as i64;
        push_decimal(out, v);
    } else if id == 8 {
        let text = call_double(f, crate::endian::read_be64(p));
        push_bytes(out, text.as_slice());
    } else if id == 3 {
        push_json_string(out, p);
    } else {
        proof {
            lemma_payload_shorter(a@);
        }
        write_list(out, p, id == 1, level, f);
    }
    assert(final(out)@ =~= old(out)@ + json_elem(a@, without_name, level as nat, dbl_of(*f)));
}

/// Pushes the array or object holding the attributes of `p`, opened at
/// nesting `level`.
fn write_list<F: Fn(u64) -> Vec<u8>>(out: &mut Vec<u8>, p: &[u8], array: bool, level: usize, f: &F)
    requires
        double_fn_ok(*f),
        level + 1 + p@.len() <= MAX_RAW_LEN + 1,
    ensures
        final(out)@ == old(out)@ + json_list(p@, array, level as nat, dbl_of(*f)),
    decreases p@.len(), 2nat,
{
    out.push(if array { 91u8 } else { 123u8 });
    push_sep(out, level + 1);
    let ghost start = out@;
    let mut it = BlobIter::from_bytes(p);
    let mut first = true;
    loop
        invariant
            double_fn_ok(*f),
            level + 1 + p@.len() <= MAX_RAW_LEN + 1,
            it@.len() <= p@.len(),
            start + json_items(p@, true, array, (level + 1) as nat, dbl_of(*f)) == out@ + json_items(
                it@,
                first,
                array,
                (level + 1) as nat,
                dbl_of(*f),
            ),
        ensures
            start + json_items(p@, true, array, (level + 1) as nat, dbl_of(*f)) == out@,
        decreases it@.len(),
    {
        let ghost rem = it@;
        let ghost before = out@;
        match it.next() {
            None => {
                assert(json_items(rem, first, array, (level + 1) as nat, dbl_of(*f)) =~= Seq::<u8>::empty());
                assert(out@ + json_items(rem, first, array, (level + 1) as nat, dbl_of(*f)) =~= out@);
                break;
            },
            Some(a) => {
                let ghost was_first = first;
                if !first {
                    out.push(44u8);
                    push_sep(out, level + 1);
                }
                let ghost after_lead = out@;
                write_elem(out, a, array, level + 1, f);
                first = false;
                proof {
                    let lead = if was_first { Seq::<u8>::empty() } else { seq![44u8] + sep((level + 1) as nat) };
                    assert(after_lead =~= before + lead);
                    assert(json_items(rem, was_first, array, (level + 1) as nat, dbl_of(*f))
                        == lead + json_elem(a@, array, (level + 1) as nat, dbl_of(*f)) + json_items(
                            it@, false, array, (level + 1) as nat, dbl_of(*f)));
                    assert(out@ + json_items(it@, false, array, (level + 1) as nat, dbl_of(*f))
                        =~= before + json_items(rem, was_first, array, (level + 1) as nat, dbl_of(*f)));
                }
            },
        }
    }
    push_sep(out, level);
    out.push(if array { 93u8 } else { 125u8 });
    assert(final(out)@ =~= old(out)@ + json_list(p@, array, level as nat, dbl_of(*f)));
}

impl<'a> BlobmsgAttr<'a> {
    /// The JSON for this attribute: an array where it is an extended array,
    /// else an object, holding its fields, one per line and indented by
    /// tabs. A field that fails the parser's checks is left out. Doubles are
    /// rendered by `double_text` from their bit pattern.
    pub fn format_json<F: Fn(u64) -> Vec<u8>>(&self, double_text: F) -> (r: Vec<u8>)
        requires
            double_fn_ok(double_text),
        ensures
            r@ == json_of(self@, dbl_of(double_text)),
    {
        let mut out: Vec<u8> = Vec::new();
        let array = self.raw().is_extended() && self.raw().id() == 1;
        let p = self.payload();
        write_list(&mut out, p, array, 0, &double_text);
        assert(out@ =~= json_of(self@, dbl_of(double_text)));
        out
    }
}

impl BlobmsgBuf {
    /// The JSON for the buffer's outermost table.
    pub fn format_json<F: Fn(u64) -> Vec<u8>>(&self, double_text: F) -> (r: Vec<u8>)
        requires
            self.wf(),
            double_fn_ok(double_text),
        ensures
            r@ == json_of(
                crate::blob::stack_bytes(self@).subrange(0, crate::blob::root_raw_len(self@) as int),
                dbl_of(double_text),
            ),
    {
        self.root().format_json(double_text)
    }
}

/// The JSON literals, byte for byte: `null`, `true` and `false`.
pub proof fn lemma_json_literals()
    ensures
        text_null() == seq![110u8, 117u8, 108u8, 108u8],
        text_true() == seq![116u8, 114u8, 117u8, 101u8],
        text_false() == seq![102u8, 97u8, 108u8, 115u8, 101u8],
{
}

/// A list holding one attribute: the bracket (`[` for an array, `{` for an
/// object), a line break, the attribute's element one level deeper, a line
/// break and the closing bracket.
pub proof fn lemma_json_single(a: AttrView, array: bool, level: nat, dbl: spec_fn(u64) -> Seq<u8>)
    requires
        a.fits(),
    ensures
        json_list(a.bytes(), array, level, dbl) == (if array { seq![91u8] } else { seq![123u8] }) + sep(level + 1)
            + json_elem(a.bytes(), array, level + 1, dbl) + sep(level) + (if array { seq![93u8] } else { seq![125u8] }),
{
    lemma_attr_roundtrip(a, Seq::empty());
    assert(a.bytes() + Seq::<u8>::empty() =~= a.bytes());
    let n = a.bytes().len();
    assert(a.bytes().subrange(0, n as int) =~= a.bytes());
    assert(a.bytes().subrange(n as int, n as int) =~= Seq::<u8>::empty());
    assert(next_attr_len(Seq::<u8>::empty()) is None);
    assert(json_items(Seq::<u8>::empty(), false, array, level + 1, dbl) =~= Seq::<u8>::empty());
    assert(json_items(a.bytes(), true, array, level + 1, dbl) == json_elem(a.bytes(), array, level + 1, dbl));
}

/// What precedes a field's value in its JSON element: its quoted name and
/// `": "`, unless names are left out (array elements) or the name is empty.
pub open spec fn json_key(name: Seq<u8>, without_name: bool) -> Seq<u8> {
    if !without_name && until_nul(name).len() > 0 {
        json_string(name) + seq![58u8, 32u8]
    } else {
        Seq::empty()
    }
}

/// A field the builder writes, of type `t`, named `name`, holding `payload`
/// that suits the type, passes the checks and decodes to what was written.
proof fn lemma_built_field(t: BlobmsgType, name: Seq<u8>, payload: Seq<u8>)
    requires
        name.len() < 65536,
        msg_field(t, name, payload).fits(),
        payload_ok(type_code(t), payload),
    ensures
        msg_attr_ok(msg_field(t, name, payload).bytes()),
        attr_bytes_valid(msg_field(t, name, payload).bytes()),
        hdr_id(msg_field(t, name, payload).bytes()) == type_code(t),
        msg_name(msg_field(t, name, payload).bytes()) == name,
        msg_payload(msg_field(t, name, payload).bytes()) == payload,
{
    let f = msg_field(t, name, payload);
    lemma_field_passes_checks(t, name, payload);
    lemma_field_roundtrip(t, name, payload, Seq::empty());
    lemma_attr_roundtrip(f, Seq::empty());
    assert(f.bytes() + Seq::<u8>::empty() =~= f.bytes());
}

/// JSON of a boolean (an 8-bit integer field): `false` exactly where its
/// byte is 0, `true` for any other byte.
#[verifier::spinoff_prover]
pub proof fn lemma_json_bool(name: Seq<u8>, v: u8, without_name: bool, level: nat, dbl: spec_fn(u64) -> Seq<u8>)
    requires
        name.len() < 65536,
        msg_field(BlobmsgType::Int8, name, seq![v]).fits(),
    ensures
        v == 0 ==> json_elem(msg_field(BlobmsgType::Int8, name, seq![v]).bytes(), without_name, level, dbl)
            == json_key(name, without_name) + text_false(),
        v != 0 ==> json_elem(msg_field(BlobmsgType::Int8, name, seq![v]).bytes(), without_name, level, dbl)
            == json_key(name, without_name) + text_true(),
{
    let b = msg_field(BlobmsgType::Int8, name, seq![v]).bytes();
    lemma_built_field(BlobmsgType::Int8, name, seq![v]);
    lemma_elem_int8(b, name, v, without_name, level, dbl);
}

proof fn lemma_elem_int8(b: Seq<u8>, name: Seq<u8>, v: u8, without_name: bool, level: nat, dbl: spec_fn(u64) -> Seq<u8>)
    requires
        msg_attr_ok(b),
        attr_bytes_valid(b),
        hdr_id(b) == 7,
        msg_name(b) == name,
        msg_payload(b) == seq![v],
    ensures
        v == 0 ==> json_elem(b, without_name, level, dbl)
            == json_key(name, without_name) + text_false(),
        v != 0 ==> json_elem(b, without_name, level, dbl)
            == json_key(name, without_name) + text_true(),
{
    assert(msg_payload(b)[0] == v);
}

proof fn lemma_elem_null(b: Seq<u8>, name: Seq<u8>, without_name: bool, level: nat, dbl: spec_fn(u64) -> Seq<u8>)
    requires
        msg_attr_ok(b),
        attr_bytes_valid(b),
        hdr_id(b) == 0,
        msg_name(b) == name,
    ensures
        json_elem(b, without_name, level, dbl) == json_key(name, without_name) + text_null(),
{
}

pub proof fn lemma_json_int16(name: Seq<u8>, v: i16, without_name: bool, level: nat, dbl: spec_fn(u64) -> Seq<u8>)
    requires
        name.len() < 65536,
        msg_field(BlobmsgType::Int16, name, be16(v as u16)).fits(),
    ensures
        json_elem(msg_field(BlobmsgType::Int16, name, be16(v as u16)).bytes(), without_name, level, dbl)
            == json_key(name, without_name) + decimal(v as int),
{
    lemma_built_field(BlobmsgType::Int16, name, be16(v as u16));
    lemma_be16_roundtrip(v as u16);
    assert((v as u16) as i16 == v) by (bit_vector);
}

/// JSON of a 32-bit integer field holding `v`: `v` in decimal.
pub proof fn lemma_json_int32(name: Seq<u8>, v: i32, without_name: bool, level: nat, dbl: spec_fn(u64) -> Seq<u8>)
    requires
        name.len() < 65536,
        msg_field(BlobmsgType::Int32, name, be32(v as u32)).fits(),
    ensures
        json_elem(msg_field(BlobmsgType::Int32, name, be32(v as u32)).bytes(), without_name, level, dbl)
            == json_key(name, without_name) + decimal(v as int),
{
    lemma_built_field(BlobmsgType::Int32, name, be32(v as u32));
    lemma_be32_roundtrip(v as u32);
    assert((v as u32) as i32 == v) by (bit_vector);
}

/// JSON of a 64-bit integer field holding `v`: `v` in decimal.
pub proof fn lemma_json_int64(name: Seq<u8>, v: i64, without_name: bool, level: nat, dbl: spec_fn(u64) -> Seq<u8>)
    requires
        name.len() < 65536,
        msg_field(BlobmsgType::Int64, name, be64(v as u64)).fits(),
    ensures
        json_elem(msg_field(BlobmsgType::Int64, name, be64(v as u64)).bytes(), without_name, level, dbl)
            == json_key(name, without_name) + decimal(v as int),
{
    lemma_built_field(BlobmsgType::Int64, name, be64(v as u64));
    lemma_be64_roundtrip(v as u64);
    assert((v as u64) as i64 == v) by (bit_vector);
}

/// JSON of a double field holding the bit pattern `bits`: what the caller's
/// renderer gives for `bits`.
pub proof fn lemma_json_double(name: Seq<u8>, bits: u64, without_name: bool, level: nat, dbl: spec_fn(u64) -> Seq<u8>)
    requires
        name.len() < 65536,
        msg_field(BlobmsgType::Double, name, be64(bits)).fits(),
    ensures
        json_elem(msg_field(BlobmsgType::Double, name, be64(bits)).bytes(), without_name, level, dbl)
            == json_key(name, without_name) + dbl(bits),
{
    lemma_built_field(BlobmsgType::Double, name, be64(bits));
    lemma_be64_roundtrip(bits);
}

proof fn lemma_until_nul_push_nul(s: Seq<u8>)
    ensures
        until_nul(s.push(0u8)) == until_nul(s),
    decreases s.len(),
{
    if s.len() > 0 {
        assert(s.push(0u8).drop_first() =~= s.drop_first().push(0u8));
        lemma_until_nul_push_nul(s.drop_first());
    } else {
        assert(s.push(0u8)[0] == 0u8);
    }
}

/// JSON of a string field holding `s`: `s` quoted and escaped, up to its
/// first NUL byte.
pub proof fn lemma_json_string_field(name: Seq<u8>, s: Seq<u8>, without_name: bool, level: nat, dbl: spec_fn(u64) -> Seq<u8>)
    requires
        name.len() < 65536,
        msg_field(BlobmsgType::String, name, s.push(0u8)).fits(),
    ensures
        json_elem(msg_field(BlobmsgType::String, name, s.push(0u8)).bytes(), without_name, level, dbl)
            == json_key(name, without_name) + json_string(s),
{
    lemma_built_field(BlobmsgType::String, name, s.push(0u8));
    lemma_until_nul_push_nul(s);
}

/// JSON of an untyped field: `null`, whatever it holds.
#[verifier::spinoff_prover]
pub proof fn lemma_json_unspec(name: Seq<u8>, payload: Seq<u8>, without_name: bool, level: nat, dbl: spec_fn(u64) -> Seq<u8>)
    requires
        name.len() < 65536,
        msg_field(BlobmsgType::Unspec, name, payload).fits(),
    ensures
        json_elem(msg_field(BlobmsgType::Unspec, name, payload).bytes(), without_name, level, dbl)
            == json_key(name, without_name) + text_null(),
{
    let b = msg_field(BlobmsgType::Unspec, name, payload).bytes();
    lemma_built_field(BlobmsgType::Unspec, name, payload);
    lemma_elem_null(b, name, without_name, level, dbl);
}

/// JSON of an array field: a list in square brackets whose elements have no
/// names; of a table field: a list in braces whose elements are named.
pub proof fn lemma_json_containers(name: Seq<u8>, payload: Seq<u8>, without_name: bool, level: nat, dbl: spec_fn(u64) -> Seq<u8>)
    requires
        name.len() < 65536,
        msg_field(BlobmsgType::Array, name, payload).fits(),
    ensures
        json_elem(msg_field(BlobmsgType::Array, name, payload).bytes(), without_name, level, dbl)
            == json_key(name, without_name) + json_list(payload, true, level, dbl),
        json_elem(msg_field(BlobmsgType::Table, name, payload).bytes(), without_name, level, dbl)
            == json_key(name, without_name) + json_list(payload, false, level, dbl),
        json_list(payload, true, level, dbl)[0] == 91u8,
        json_list(payload, false, level, dbl)[0] == 123u8,
{
    lemma_built_field(BlobmsgType::Array, name, payload);
    lemma_built_field(BlobmsgType::Table, name, payload);
}

} // verus!
