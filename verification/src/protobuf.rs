//! Protobuf wire-format decoding and encoding.
use crate::error::Error;
use vstd::prelude::*;

verus! {

// ───────────────────────────── varints ─────────────────────────────

/// The outcome of reading a varint at `cursor`, after `k` bytes were already
/// folded into `acc`: the result and the cursor position afterwards.
pub open spec fn varint_step(bytes: Seq<u8>, cursor: int, k: nat, acc: u64) -> (Result<u64, Error>, int)
    decreases 10 - k,
{
    if k >= 10 {
        (Err(Error::InvalidIwa("varint overflow")), cursor + k)
    } else if cursor + k < 0 || cursor + k >= bytes.len() {
        (Err(Error::Truncated("varint")), cursor + k)
    } else {
        let b = bytes[cursor + k];
        let acc2 = acc | (((b & 0x7f) as u64) << ((7 * k) as u64));
        if k == 9 && b > 1 {
            (Err(Error::InvalidIwa("varint overflow")), cursor + k + 1)
        } else if b & 0x80 == 0 {
            (Ok(acc2), cursor + k + 1)
        } else {
            varint_step(bytes, cursor, k + 1, acc2)
        }
    }
}

/// Reading a varint from `bytes` at `cursor`: little-endian groups of 7 bits,
/// high bit set on every byte but the last, at most ten bytes, the tenth
/// holding only the 64th bit (a value needing more bits is refused).
pub open spec fn spec_read_varint(bytes: Seq<u8>, cursor: int) -> (Result<u64, Error>, int) {
    varint_step(bytes, cursor, 0, 0)
}

/// The varint encoding of `v`: seven bits per byte, least significant first.
pub open spec fn spec_encode_varint(v: u64) -> Seq<u8>
    decreases v,
{
    let lo = (v & 0x7f) as u8;
    let hi = v >> 7;
    if hi == 0 {
        seq![lo]
    } else {
        proof {
            lemma_shift_decreases(v);
        }
        seq![lo | 0x80u8] + spec_encode_varint(hi)
    }
}

/// Dropping the low seven bits of a value with higher bits strictly shrinks it.
pub proof fn lemma_shift_decreases(v: u64)
    ensures
        v >> 7 != 0 ==> v >> 7 < v,
{
    assert(v >> 7 != 0 ==> v >> 7 < v) by (bit_vector);
}

proof fn lemma_varint_step_advances(bytes: Seq<u8>, cursor: int, k: nat, acc: u64)
    requires
        k <= 10,
    ensures
        varint_step(bytes, cursor, k, acc).1 >= cursor + k,
        varint_step(bytes, cursor, k, acc).0 is Ok ==> varint_step(bytes, cursor, k, acc).1 >= cursor + k + 1,
        varint_step(bytes, cursor, k, acc).1 <= cursor + 10,
        varint_step(bytes, cursor, k, acc).0 is Ok ==> varint_step(bytes, cursor, k, acc).1 <= bytes.len(),
    decreases 10 - k,
{
    if k < 10 && !(cursor + k < 0 || cursor + k >= bytes.len()) {
        let b = bytes[cursor + k];
        let acc2 = acc | (((b & 0x7f) as u64) << ((7 * k) as u64));
        if b & 0x80 != 0 {
            lemma_varint_step_advances(bytes, cursor, k + 1, acc2);
        }
    }
}

/// A varint read that succeeds moves the cursor forward by one to ten bytes and
/// stays inside the input.
pub proof fn lemma_read_varint_advances(bytes: Seq<u8>, cursor: int)
    ensures
        spec_read_varint(bytes, cursor).1 >= cursor,
        spec_read_varint(bytes, cursor).1 <= cursor + 10,
        spec_read_varint(bytes, cursor).0 is Ok ==> cursor + 1 <= spec_read_varint(bytes, cursor).1 <= bytes.len(),
{
    lemma_varint_step_advances(bytes, cursor, 0, 0);
}

/// Reads one varint from `bytes` starting at `*cursor`, advancing `*cursor` past it.
pub fn read_varint(bytes: &[u8], cursor: &mut usize) -> (r: Result<u64, Error>)
    ensures
        r == spec_read_varint(bytes@, *old(cursor) as int).0,
        *final(cursor) == spec_read_varint(bytes@, *old(cursor) as int).1,
{
    let ghost start: int = *cursor as int;
    let mut shift: u32 = 0;
    let mut value: u64 = 0;
    let mut k: usize = 0;
    proof {
        if start >= bytes@.len() {
            assert(varint_step(bytes@, start, 0, 0).1 == start);
        }
    }
    loop
        invariant
            start == *old(cursor),
            k <= 10,
            shift == 7 * k,
            *cursor == start + k,
            start + k <= usize::MAX,
            k > 0 ==> start + k <= bytes@.len(),
            spec_read_varint(bytes@, start) == varint_step(bytes@, start, k as nat, value),
        decreases 10 - k,
    {
        if shift >= 64 {
            assert(varint_step(bytes@, start, k as nat, value) == (Err::<u64, Error>(Error::InvalidIwa("varint overflow")), start + k));
            return Err(Error::InvalidIwa("varint overflow"));
        }
        if *cursor >= bytes.len() {
            assert(varint_step(bytes@, start, k as nat, value) == (Err::<u64, Error>(Error::Truncated("varint")), start + k));
            return Err(Error::Truncated("varint"));
        }
        let byte = bytes[*cursor];
        *cursor = *cursor + 1;
        if k == 9 && byte > 1 {
            return Err(Error::InvalidIwa("varint overflow"));
        }
        value = value | (((byte & 0x7f) as u64) << (shift as u64));
        if byte & 0x80 == 0 {
            return Ok(value);
        }
        shift = shift + 7;
        k = k + 1;
    }
}

/// Appends the varint encoding of `value` to `out`.
pub fn push_varint(out: &mut Vec<u8>, value: u64)
    ensures
        final(out)@ == old(out)@ + spec_encode_varint(value),
{
    let ghost orig = out@;
    let ghost v0 = value;
    let mut value = value;
    loop
        invariant_except_break
            out@ + spec_encode_varint(value) == orig + spec_encode_varint(v0),
        ensures
            out@ == orig + spec_encode_varint(v0),
        decreases value,
    {
        let lo = (value & 0x7f) as u8;
        let hi = value >> 7;
        proof {
            lemma_shift_decreases(value);
        }
        if hi == 0 {
            out.push(lo);
            assert(out@ == orig + spec_encode_varint(v0));
            break;
        } else {
            out.push(lo | 0x80);
            assert(spec_encode_varint(value) == seq![lo | 0x80u8] + spec_encode_varint(hi));
            assert(out@ + spec_encode_varint(hi) == orig + spec_encode_varint(v0));
            value = hi;
        }
    }
}


/// Reading a varint that was produced by [`spec_encode_varint`], at step `k`
/// of the read, gives back the encoded value shifted into place.
proof fn lemma_varint_roundtrip_step(bytes: Seq<u8>, cursor: int, k: nat, acc: u64, v: u64)
    requires
        0 <= cursor,
        k <= 9,
        k > 0 ==> v >> ((64 - 7 * k) as u64) == 0,
        cursor + k + spec_encode_varint(v).len() <= bytes.len(),
        bytes.subrange(cursor + k, cursor + k + spec_encode_varint(v).len()) == spec_encode_varint(v),
    ensures
        varint_step(bytes, cursor, k, acc) == (
            Ok::<u64, Error>(acc | (v << ((7 * k) as u64))),
            cursor + k + spec_encode_varint(v).len(),
        ),
    decreases v,
{
    let lo = (v & 0x7f) as u8;
    let hi = v >> 7;
    let s = (7 * k) as u64;
    let b = bytes[cursor + k];
    assert(b == spec_encode_varint(v)[0]);
    if hi == 0 {
        assert(v >> 7 == 0 ==> ((v & 0x7f) as u8) & 0x80 == 0 && ((((v & 0x7f) as u8) & 0x7f) as u64) == v)
            by (bit_vector);
        assert(spec_encode_varint(v) == seq![lo]);
        if k == 9 {
            assert(v >> 1u64 == 0 ==> ((v & 0x7f) as u8) <= 1) by (bit_vector);
        }
    } else {
        lemma_shift_decreases(v);
        assert((((v & 0x7f) as u8) | 0x80u8) & 0x80 != 0 && (((((v & 0x7f) as u8) | 0x80u8) & 0x7f) as u64)
            == v & 0x7f) by (bit_vector);
        assert(spec_encode_varint(v) == seq![lo | 0x80u8] + spec_encode_varint(hi));
        let acc2 = acc | (((b & 0x7f) as u64) << s);
        if k > 0 {
            let t = (64 - 7 * k) as u64;
            let t2 = (64 - 7 * (k + 1)) as u64;
            assert(t <= 7 && v >> t == 0 ==> v >> 7 == 0) by (bit_vector);
            assert(k <= 8);
            assert((v >> 7) >> t2 == 0) by (bit_vector)
                requires
                    t2 + 7 == t, t <= 57, v >> t == 0,
            ;
        } else {
            assert((v >> 7) >> 57u64 == 0) by (bit_vector);
        }
        let ev = spec_encode_varint(v);
        let eh = spec_encode_varint(hi);
        assert(ev.subrange(1, ev.len() as int) =~= eh);
        assert forall|j: int| 0 <= j < eh.len() implies bytes.subrange(cursor + k + 1, cursor + k + 1 + eh.len())[j] == eh[j] by {
            assert(bytes[cursor + k + 1 + j] == bytes.subrange(cursor + k, cursor + k + ev.len())[1 + j]);
        }
        assert(bytes.subrange(cursor + k + 1, cursor + k + 1 + eh.len()) =~= eh);
        lemma_varint_roundtrip_step(bytes, cursor, k + 1, acc2, hi);
        let s7 = (7 * (k + 1)) as u64;
        assert((acc | ((v & 0x7f) << s)) | ((v >> 7) << s7) == acc | (v << s))
            by (bit_vector)
            requires
                s <= 56, s7 == s + 7,
        ;
        assert(((b & 0x7f) as u64) == v & 0x7f);
    }
}

/// Law: reading back the varint encoding of `v` yields `v` and moves the cursor
/// exactly past the encoding.
pub proof fn lemma_varint_roundtrip(bytes: Seq<u8>, cursor: int, v: u64)
    requires
        0 <= cursor,
        cursor + spec_encode_varint(v).len() <= bytes.len(),
        bytes.subrange(cursor, cursor + spec_encode_varint(v).len()) == spec_encode_varint(v),
    ensures
        spec_read_varint(bytes, cursor) == (Ok::<u64, Error>(v), cursor + spec_encode_varint(v).len()),
{
    lemma_varint_roundtrip_step(bytes, cursor, 0, 0, v);
    assert(0u64 | (v << 0u64) == v) by (bit_vector);
}

/// The varint encoding of any `u64` is between one and ten bytes long.
pub proof fn lemma_encode_varint_len(v: u64)
    ensures
        1 <= spec_encode_varint(v).len() <= 10,
        v < 0x80 ==> spec_encode_varint(v).len() == 1,
{
    lemma_encode_varint_len_bounded(v, 0);
    if v < 0x80 {
        assert(v < 0x80 ==> v >> 7 == 0) by (bit_vector);
    }
}

proof fn lemma_encode_varint_len_bounded(v: u64, m: nat)
    requires
        m <= 9,
        m > 0 ==> v >> ((64 - 7 * m) as u64) == 0,
    ensures
        1 <= spec_encode_varint(v).len() <= 10 - m,
    decreases v,
{
    let hi = v >> 7;
    let s = (7 * m) as u64;
    if hi != 0 {
        lemma_shift_decreases(v);
        if m > 0 {
            let t = (64 - 7 * m) as u64;
            let t2 = (64 - 7 * (m + 1)) as u64;
            assert(t <= 7 && v >> t == 0 ==> v >> 7 == 0) by (bit_vector);
            assert(m <= 8);
            assert((v >> 7) >> t2 == 0) by (bit_vector)
                requires
                    t2 + 7 == t, t <= 57, v >> t == 0,
            ;
        } else {
            assert((v >> 7) >> 57u64 == 0) by (bit_vector);
        }
        lemma_encode_varint_len_bounded(hi, m + 1);
    }
}


// ───────────────────────────── fixed-width values ─────────────────────────────

/// The little-endian `u32` stored at `bytes[c..c + 4]`.
pub open spec fn le_u32_at(bytes: Seq<u8>, c: int) -> u32 {
    (bytes[c] as u32) | ((bytes[c + 1] as u32) << 8u32) | ((bytes[c + 2] as u32) << 16u32) | ((bytes[c + 3] as u32)
        << 24u32)
}

/// The little-endian `u64` stored at `bytes[c..c + 8]`.
pub open spec fn le_u64_at(bytes: Seq<u8>, c: int) -> u64 {
    (bytes[c] as u64) | ((bytes[c + 1] as u64) << 8u64) | ((bytes[c + 2] as u64) << 16u64) | ((bytes[c + 3] as u64)
        << 24u64) | ((bytes[c + 4] as u64) << 32u64) | ((bytes[c + 5] as u64) << 40u64) | ((bytes[c + 6] as u64)
        << 48u64) | ((bytes[c + 7] as u64) << 56u64)
}

/// The four little-endian bytes of `v`.
pub open spec fn le_bytes_u32(v: u32) -> Seq<u8> {
    seq![v as u8, (v >> 8u32) as u8, (v >> 16u32) as u8, (v >> 24u32) as u8]
}

/// The eight little-endian bytes of `v`.
pub open spec fn le_bytes_u64(v: u64) -> Seq<u8> {
    seq![
        v as u8,
        (v >> 8u64) as u8,
        (v >> 16u64) as u8,
        (v >> 24u64) as u8,
        (v >> 32u64) as u8,
        (v >> 40u64) as u8,
        (v >> 48u64) as u8,
        (v >> 56u64) as u8,
    ]
}

/// Reading a little-endian `u32` back from its four bytes gives the value.
pub proof fn lemma_le_u32_roundtrip(bytes: Seq<u8>, c: int, v: u32)
    requires
        0 <= c,
        c + 4 <= bytes.len(),
        bytes.subrange(c, c + 4) == le_bytes_u32(v),
    ensures
        le_u32_at(bytes, c) == v,
{
    assert(bytes[c] == bytes.subrange(c, c + 4)[0]);
    assert(bytes[c + 1] == bytes.subrange(c, c + 4)[1]);
    assert(bytes[c + 2] == bytes.subrange(c, c + 4)[2]);
    assert(bytes[c + 3] == bytes.subrange(c, c + 4)[3]);
    let (b0, b1, b2, b3) = (bytes[c], bytes[c + 1], bytes[c + 2], bytes[c + 3]);
    assert((b0 as u32) | ((b1 as u32) << 8u32) | ((b2 as u32) << 16u32) | ((b3 as u32) << 24u32) == v) by (bit_vector)
        requires
            b0 == v as u8, b1 == (v >> 8u32) as u8, b2 == (v >> 16u32) as u8, b3 == (v >> 24u32) as u8,
    ;
}

/// Reading a little-endian `u64` back from its eight bytes gives the value.
pub proof fn lemma_le_u64_roundtrip(bytes: Seq<u8>, c: int, v: u64)
    requires
        0 <= c,
        c + 8 <= bytes.len(),
        bytes.subrange(c, c + 8) == le_bytes_u64(v),
    ensures
        le_u64_at(bytes, c) == v,
{
    let w = bytes.subrange(c, c + 8);
    assert(bytes[c] == w[0] && bytes[c + 1] == w[1] && bytes[c + 2] == w[2] && bytes[c + 3] == w[3]);
    assert(bytes[c + 4] == w[4] && bytes[c + 5] == w[5] && bytes[c + 6] == w[6] && bytes[c + 7] == w[7]);
    let (b0, b1, b2, b3) = (bytes[c], bytes[c + 1], bytes[c + 2], bytes[c + 3]);
    let (b4, b5, b6, b7) = (bytes[c + 4], bytes[c + 5], bytes[c + 6], bytes[c + 7]);
    assert((b0 as u64) | ((b1 as u64) << 8u64) | ((b2 as u64) << 16u64) | ((b3 as u64) << 24u64) | ((b4 as u64)
        << 32u64) | ((b5 as u64) << 40u64) | ((b6 as u64) << 48u64) | ((b7 as u64) << 56u64) == v) by (bit_vector)
        requires
            b0 == v as u8, b1 == (v >> 8u64) as u8, b2 == (v >> 16u64) as u8, b3 == (v >> 24u64) as u8,
            b4 == (v >> 32u64) as u8, b5 == (v >> 40u64) as u8, b6 == (v >> 48u64) as u8, b7 == (v >> 56u64) as u8,
    ;
}

/// Outcome of reading a fixed32 at `c`: the value and the cursor afterwards.
pub open spec fn spec_read_fixed32(bytes: Seq<u8>, c: int) -> (Result<u32, Error>, int) {
    if c + 4 > usize::MAX {
        (Err(Error::InvalidIwa("fixed32 overflow")), c)
    } else if c + 4 > bytes.len() {
        (Err(Error::Truncated("fixed32")), c)
    } else {
        (Ok(le_u32_at(bytes, c)), c + 4)
    }
}

/// Outcome of reading a fixed64 at `c`: the value and the cursor afterwards.
pub open spec fn spec_read_fixed64(bytes: Seq<u8>, c: int) -> (Result<u64, Error>, int) {
    if c + 8 > usize::MAX {
        (Err(Error::InvalidIwa("fixed64 overflow")), c)
    } else if c + 8 > bytes.len() {
        (Err(Error::Truncated("fixed64")), c)
    } else {
        (Ok(le_u64_at(bytes, c)), c + 8)
    }
}

fn read_fixed32(bytes: &[u8], cursor: &mut usize) -> (r: Result<u32, Error>)
    ensures
        r == spec_read_fixed32(bytes@, *old(cursor) as int).0,
        *final(cursor) == spec_read_fixed32(bytes@, *old(cursor) as int).1,
{
    let end = match cursor.checked_add(4) {
        Some(end) => end,
        None => return Err(Error::InvalidIwa("fixed32 overflow")),
    };
    if end > bytes.len() {
        return Err(Error::Truncated("fixed32"));
    }
    let c = *cursor;
    *cursor = end;
    Ok((bytes[c] as u32) | ((bytes[c + 1] as u32) << 8u32) | ((bytes[c + 2] as u32) << 16u32) | ((bytes[c + 3]
        as u32) << 24u32))
}

fn read_fixed64(bytes: &[u8], cursor: &mut usize) -> (r: Result<u64, Error>)
    ensures
        r == spec_read_fixed64(bytes@, *old(cursor) as int).0,
        *final(cursor) == spec_read_fixed64(bytes@, *old(cursor) as int).1,
{
    let end = match cursor.checked_add(8) {
        Some(end) => end,
        None => return Err(Error::InvalidIwa("fixed64 overflow")),
    };
    if end > bytes.len() {
        return Err(Error::Truncated("fixed64"));
    }
    let c = *cursor;
    *cursor = end;
    Ok((bytes[c] as u64) | ((bytes[c + 1] as u64) << 8u64) | ((bytes[c + 2] as u64) << 16u64) | ((bytes[c + 3]
        as u64) << 24u64) | ((bytes[c + 4] as u64) << 32u64) | ((bytes[c + 5] as u64) << 40u64) | ((bytes[c
        + 6] as u64) << 48u64) | ((bytes[c + 7] as u64) << 56u64))
}

/// Appends `src` to `out`.
pub fn extend_bytes(out: &mut Vec<u8>, src: &[u8])
    ensures
        final(out)@ == old(out)@ + src@,
{
    let mut i: usize = 0;
    while i < src.len()
        invariant
            i <= src.len(),
            out@ == old(out)@ + src@.subrange(0, i as int),
        decreases src.len() - i,
    {
        out.push(src[i]);
        i = i + 1;
        assert(src@.subrange(0, i as int) == src@.subrange(0, i - 1) + seq![src@[i - 1]]);
    }
    assert(src@.subrange(0, src.len() as int) =~= src@);
}

/// Copies a byte slice into a fresh vector.
pub fn copy_bytes(src: &[u8]) -> (r: Vec<u8>)
    ensures
        r@ == src@,
{
    let mut out = Vec::new();
    extend_bytes(&mut out, src);
    assert(out@ =~= src@);
    out
}


// ───────────────────────────── messages ─────────────────────────────

/// The wire-typed payload of a single protobuf field.
#[derive(Debug, Clone, PartialEq, Eq)]
pub enum ProtoValue {
    Varint(u64),
    Fixed64(u64),
    LengthDelimited(Vec<u8>),
    Fixed32(u32),
}

/// The mathematical content of a [`ProtoValue`].
pub enum ProtoValueView {
    Varint(u64),
    Fixed64(u64),
    LengthDelimited(Seq<u8>),
    Fixed32(u32),
}

impl View for ProtoValue {
    type V = ProtoValueView;

    open spec fn view(&self) -> ProtoValueView {
        match self {
            ProtoValue::Varint(v) => ProtoValueView::Varint(*v),
            ProtoValue::Fixed64(v) => ProtoValueView::Fixed64(*v),
            ProtoValue::LengthDelimited(b) => ProtoValueView::LengthDelimited(b@),
            ProtoValue::Fixed32(v) => ProtoValueView::Fixed32(*v),
        }
    }
}

/// A single protobuf field: a number and its wire-typed value.
#[derive(Debug, Clone, PartialEq, Eq)]
pub struct ProtoField {
    pub number: u32,
    pub value: ProtoValue,
}

/// The mathematical content of a [`ProtoField`].
pub struct ProtoFieldView {
    pub number: u32,
    pub value: ProtoValueView,
}

impl View for ProtoField {
    type V = ProtoFieldView;

    open spec fn view(&self) -> ProtoFieldView {
        ProtoFieldView { number: self.number, value: self.value@ }
    }
}

/// A decoded protobuf message: an ordered list of fields, repeated numbers kept.
#[derive(Debug, Clone, PartialEq, Eq)]
pub struct ProtoMessage {
    fields: Vec<ProtoField>,
}

impl View for ProtoMessage {
    type V = Seq<ProtoFieldView>;

    closed spec fn view(&self) -> Seq<ProtoFieldView> {
        self.fields@.map_values(|f: ProtoField| f@)
    }
}

/// The wire type that a value is written with.
pub open spec fn wire_type_of(v: ProtoValueView) -> u32 {
    match v {
        ProtoValueView::Varint(_) => 0,
        ProtoValueView::Fixed64(_) => 1,
        ProtoValueView::LengthDelimited(_) => 2,
        ProtoValueView::Fixed32(_) => 5,
    }
}

/// The tag varint written before a field: number shifted over the wire type
/// (computed in `u32`, as the encoder does).
pub open spec fn field_tag(f: ProtoFieldView) -> u64 {
    ((f.number << 3u32) | wire_type_of(f.value)) as u64
}

/// The bytes written for a value after its tag.
pub open spec fn spec_encode_value(v: ProtoValueView) -> Seq<u8> {
    match v {
        ProtoValueView::Varint(x) => spec_encode_varint(x),
        ProtoValueView::Fixed64(x) => le_bytes_u64(x),
        ProtoValueView::LengthDelimited(b) => spec_encode_varint(b.len() as u64) + b,
        ProtoValueView::Fixed32(x) => le_bytes_u32(x),
    }
}

/// The wire encoding of one field.
pub open spec fn spec_encode_field(f: ProtoFieldView) -> Seq<u8> {
    spec_encode_varint(field_tag(f)) + spec_encode_value(f.value)
}

/// The wire encoding of a field list: each field's encoding, in order.
pub open spec fn spec_encode_fields(fs: Seq<ProtoFieldView>) -> Seq<u8>
    decreases fs.len(),
{
    if fs.len() == 0 {
        seq![]
    } else {
        spec_encode_field(fs[0]) + spec_encode_fields(fs.drop_first())
    }
}

/// Decoding one field starting at `c`: the field and the position after it.
pub open spec fn spec_decode_field(bytes: Seq<u8>, c: int) -> Result<(ProtoFieldView, int), Error> {
    let (tr, c1) = spec_read_varint(bytes, c);
    match tr {
        Err(e) => Err(e),
        Ok(tag) => {
            if tag == 0 {
                Err(Error::InvalidIwa("protobuf tag cannot be zero"))
            } else if tag >> 3u64 > u32::MAX {
                Err(Error::InvalidIwa("protobuf field number overflow"))
            } else {
                let number = (tag >> 3u64) as u32;
                let wt = tag & 7u64;
                if wt == 0 {
                    let (vr, c2) = spec_read_varint(bytes, c1);
                    match vr {
                        Err(e) => Err(e),
                        Ok(v) => Ok((ProtoFieldView { number, value: ProtoValueView::Varint(v) }, c2)),
                    }
                } else if wt == 1 {
                    let (vr, c2) = spec_read_fixed64(bytes, c1);
                    match vr {
                        Err(e) => Err(e),
                        Ok(v) => Ok((ProtoFieldView { number, value: ProtoValueView::Fixed64(v) }, c2)),
                    }
                } else if wt == 2 {
                    let (lr, c2) = spec_read_varint(bytes, c1);
                    match lr {
                        Err(e) => Err(e),
                        Ok(len) => {
                            if len > usize::MAX || c2 + len > usize::MAX {
                                Err(Error::InvalidIwa("protobuf length overflow"))
                            } else if c2 + len > bytes.len() {
                                Err(Error::Truncated("protobuf length-delimited field"))
                            } else {
                                Ok(
                                    (
                                        ProtoFieldView {
                                            number,
                                            value: ProtoValueView::LengthDelimited(bytes.subrange(c2, c2 + len)),
                                        },
                                        c2 + len,
                                    ),
                                )
                            }
                        },
                    }
                } else if wt == 5 {
                    let (vr, c2) = spec_read_fixed32(bytes, c1);
                    match vr {
                        Err(e) => Err(e),
                        Ok(v) => Ok((ProtoFieldView { number, value: ProtoValueView::Fixed32(v) }, c2)),
                    }
                } else {
                    Err(Error::InvalidIwa("unsupported protobuf wire type"))
                }
            }
        },
    }
}

/// A field that decodes successfully ends strictly after it starts and within the input.
pub proof fn lemma_decode_field_advances(bytes: Seq<u8>, c: int)
    requires
        0 <= c,
    ensures
        spec_decode_field(bytes, c) matches Ok((_, next)) ==> c < next <= bytes.len(),
{
    lemma_read_varint_advances(bytes, c);
    let (tr, c1) = spec_read_varint(bytes, c);
    lemma_read_varint_advances(bytes, c1);
}

/// Decoding the fields from position `c` to the end of `bytes`.
pub open spec fn spec_decode_from(bytes: Seq<u8>, c: int) -> Result<Seq<ProtoFieldView>, Error>
    decreases bytes.len() - c,
{
    if c >= bytes.len() {
        Ok(seq![])
    } else {
        match spec_decode_field(bytes, c) {
            Err(e) => Err(e),
            Ok((f, next)) => {
                if next <= c || next > bytes.len() {
                    Err(Error::InvalidIwa("protobuf field did not advance"))
                } else {
                    match spec_decode_from(bytes, next) {
                        Err(e) => Err(e),
                        Ok(rest) => Ok(seq![f] + rest),
                    }
                }
            },
        }
    }
}

/// Decoding a whole message: every byte must belong to a well-formed field.
pub open spec fn spec_decode_message(bytes: Seq<u8>) -> Result<Seq<ProtoFieldView>, Error> {
    spec_decode_from(bytes, 0)
}

/// The first field numbered `n` in `fs`.
pub open spec fn first_field(fs: Seq<ProtoFieldView>, n: u32) -> Option<ProtoFieldView>
    decreases fs.len(),
{
    if fs.len() == 0 {
        None
    } else if fs[0].number == n {
        Some(fs[0])
    } else {
        first_field(fs.drop_first(), n)
    }
}

/// The varint value of an optional field, if it is a varint field.
pub open spec fn varint_value(f: Option<ProtoFieldView>) -> Option<u64> {
    match f {
        Some(x) => match x.value {
            ProtoValueView::Varint(v) => Some(v),
            _ => None,
        },
        None => None,
    }
}

/// The bytes of an optional field, if it is a length-delimited field.
pub open spec fn bytes_value(f: Option<ProtoFieldView>) -> Option<Seq<u8>> {
    match f {
        Some(x) => match x.value {
            ProtoValueView::LengthDelimited(b) => Some(b),
            _ => None,
        },
        None => None,
    }
}

/// The fields of the message nested in `v`, when `v` is length-delimited and
/// its bytes decode as a message.
pub open spec fn nested_message(v: ProtoValueView) -> Option<Seq<ProtoFieldView>> {
    match v {
        ProtoValueView::LengthDelimited(b) => match spec_decode_message(b) {
            Ok(fs) => Some(fs),
            Err(_) => None,
        },
        _ => None,
    }
}

/// The size of a value: the length of its bytes for length-delimited values.
pub open spec fn value_size(v: ProtoValueView) -> nat {
    match v {
        ProtoValueView::LengthDelimited(b) => b.len(),
        _ => 0,
    }
}

/// Every length-delimited field decoded from `bytes[c..]` is shorter than `bytes`.
pub proof fn lemma_decode_from_shorter(bytes: Seq<u8>, c: int)
    requires
        0 <= c,
    ensures
        spec_decode_from(bytes, c) matches Ok(fs) ==> forall|i: int|
            0 <= i < fs.len() ==> value_size(#[trigger] fs[i].value) < bytes.len(),
    decreases bytes.len() - c,
{
    if c < bytes.len() {
        lemma_read_varint_advances(bytes, c);
        let (tr, c1) = spec_read_varint(bytes, c);
        lemma_read_varint_advances(bytes, c1);
        match spec_decode_field(bytes, c) {
            Ok((f, next)) => {
                if next > c && next <= bytes.len() {
                    lemma_decode_from_shorter(bytes, next);
                    match spec_decode_from(bytes, next) {
                        Ok(rest) => {
                            assert(value_size(f.value) < bytes.len());
                            let fs = seq![f] + rest;
                            assert forall|i: int| 0 <= i < fs.len() implies value_size(
                                #[trigger] fs[i].value,
                            ) < bytes.len() by {
                                if i > 0 {
                                    assert(fs[i] == rest[i - 1]);
                                }
                            }
                        },
                        Err(_) => {},
                    }
                }
            },
            Err(_) => {},
        }
    }
}

/// The value of a field found by number is one of the message's fields.
pub proof fn lemma_first_field_in(fs: Seq<ProtoFieldView>, n: u32)
    ensures
        first_field(fs, n) matches Some(f) ==> exists|i: int| 0 <= i < fs.len() && fs[i] == f,
    decreases fs.len(),
{
    if fs.len() > 0 && fs[0].number != n {
        lemma_first_field_in(fs.drop_first(), n);
        if let Some(f) = first_field(fs, n) {
            let i = choose|i: int| 0 <= i < fs.drop_first().len() && fs.drop_first()[i] == f;
            assert(fs[i + 1] == f);
        }
    }
}

/// `prefix` followed by the fields of `r`, or the error of `r`.
pub open spec fn prepend_fields(prefix: Seq<ProtoFieldView>, r: Result<Seq<ProtoFieldView>, Error>) -> Result<
    Seq<ProtoFieldView>,
    Error,
> {
    match r {
        Ok(rest) => Ok(prefix + rest),
        Err(e) => Err(e),
    }
}

fn decode_field(bytes: &[u8], cursor: &mut usize) -> (r: Result<ProtoField, Error>)
    ensures
        match spec_decode_field(bytes@, *old(cursor) as int) {
            Ok((f, next)) => r matches Ok(g) && g@ == f && *final(cursor) == next,
            Err(e) => r == Err::<ProtoField, Error>(e),
        },
{
    let tag = read_varint(bytes, cursor)?;
    if tag == 0 {
        return Err(Error::InvalidIwa("protobuf tag cannot be zero"));
    }
    if tag >> 3 > u32::MAX as u64 {
        return Err(Error::InvalidIwa("protobuf field number overflow"));
    }
    let number = (tag >> 3) as u32;
    let wire_type = tag & 0x07;
    let value = if wire_type == 0 {
        ProtoValue::Varint(read_varint(bytes, cursor)?)
    } else if wire_type == 1 {
        ProtoValue::Fixed64(read_fixed64(bytes, cursor)?)
    } else if wire_type == 2 {
        let len64 = read_varint(bytes, cursor)?;
        if len64 > usize::MAX as u64 {
            return Err(Error::InvalidIwa("protobuf length overflow"));
        }
        let len = len64 as usize;
        let end = match cursor.checked_add(len) {
            Some(end) => end,
            None => return Err(Error::InvalidIwa("protobuf length overflow")),
        };
        if end > bytes.len() {
            return Err(Error::Truncated("protobuf length-delimited field"));
        }
        let value = copy_bytes(&bytes[*cursor..end]);
        *cursor = end;
        ProtoValue::LengthDelimited(value)
    } else if wire_type == 5 {
        ProtoValue::Fixed32(read_fixed32(bytes, cursor)?)
    } else {
        return Err(Error::InvalidIwa("unsupported protobuf wire type"));
    };
    Ok(ProtoField { number, value })
}


/// The bytes written for `v` by [`ProtoValue::encode_into`].
fn encode_value_into(v: &ProtoValue, out: &mut Vec<u8>)
    ensures
        final(out)@ == old(out)@ + spec_encode_value(v@),
{
    match v {
        ProtoValue::Varint(x) => push_varint(out, *x),
        ProtoValue::Fixed64(x) => {
            let x = *x;
            out.push(x as u8);
            out.push((x >> 8u64) as u8);
            out.push((x >> 16u64) as u8);
            out.push((x >> 24u64) as u8);
            out.push((x >> 32u64) as u8);
            out.push((x >> 40u64) as u8);
            out.push((x >> 48u64) as u8);
            out.push((x >> 56u64) as u8);
            assert(out@ =~= old(out)@ + le_bytes_u64(x));
        },
        ProtoValue::LengthDelimited(b) => {
            push_varint(out, b.len() as u64);
            extend_bytes(out, b.as_slice());
            assert(out@ =~= old(out)@ + (spec_encode_varint(b@.len() as u64) + b@));
        },
        ProtoValue::Fixed32(x) => {
            let x = *x;
            out.push(x as u8);
            out.push((x >> 8u32) as u8);
            out.push((x >> 16u32) as u8);
            out.push((x >> 24u32) as u8);
            assert(out@ =~= old(out)@ + le_bytes_u32(x));
        },
    }
}

impl ProtoValue {
    /// Returns the varint value, or `None` if this is a different wire type.
    pub fn as_varint(&self) -> (r: Option<u64>)
        ensures
            r == (match self@ {
                ProtoValueView::Varint(v) => Some(v),
                _ => None,
            }),
    {
        match self {
            ProtoValue::Varint(v) => Some(*v),
            _ => None,
        }
    }

    /// Returns the raw bytes of a length-delimited field, or `None`.
    pub fn as_bytes(&self) -> (r: Option<&[u8]>)
        ensures
            match self@ {
                ProtoValueView::LengthDelimited(b) => r matches Some(s) && s@ == b,
                _ => r is None,
            },
    {
        match self {
            ProtoValue::LengthDelimited(b) => Some(b.as_slice()),
            _ => None,
        }
    }

    /// Decodes a length-delimited field as a nested protobuf message, or
    /// returns `None` if this is a different wire type.
    pub fn as_message(&self) -> (r: Result<Option<ProtoMessage>, Error>)
        ensures
            match self@ {
                ProtoValueView::LengthDelimited(b) => match spec_decode_message(b) {
                    Ok(fs) => r matches Ok(Some(m)) && m@ == fs,
                    Err(e) => r == Err::<Option<ProtoMessage>, Error>(e),
                },
                _ => r matches Ok(None),
            },
    {
        match self {
            ProtoValue::LengthDelimited(b) => {
                let m = ProtoMessage::decode(b.as_slice())?;
                Ok(Some(m))
            },
            _ => Ok(None),
        }
    }

    /// Decodes a length-delimited field that contains exactly one varint:
    /// `Some(value)` when the bytes are one complete varint with nothing after
    /// it, `None` for any other byte layout or wire type.
    pub fn decode_varint_bytes(&self) -> (r: Result<Option<u64>, Error>)
        ensures
            match self@ {
                ProtoValueView::LengthDelimited(b) => match spec_read_varint(b, 0) {
                    (Ok(v), end) => r == Ok::<Option<u64>, Error>(if end == b.len() { Some(v) } else { None }),
                    (Err(_), _) => r == Ok::<Option<u64>, Error>(None),
                },
                _ => r == Ok::<Option<u64>, Error>(None),
            },
    {
        match self {
            ProtoValue::LengthDelimited(value) => {
                let mut cursor: usize = 0;
                let decoded = match read_varint(value.as_slice(), &mut cursor) {
                    Ok(v) => v,
                    Err(_) => return Ok(None),
                };
                if cursor == value.len() {
                    Ok(Some(decoded))
                } else {
                    Ok(None)
                }
            },
            _ => Ok(None),
        }
    }

    /// A copy of this value.
    pub fn duplicate(&self) -> (r: ProtoValue)
        ensures
            r@ == self@,
    {
        match self {
            ProtoValue::Varint(v) => ProtoValue::Varint(*v),
            ProtoValue::Fixed64(v) => ProtoValue::Fixed64(*v),
            ProtoValue::LengthDelimited(b) => ProtoValue::LengthDelimited(copy_bytes(b.as_slice())),
            ProtoValue::Fixed32(v) => ProtoValue::Fixed32(*v),
        }
    }
}

impl ProtoField {
    /// Constructs a wire-type-0 (varint) field.
    pub fn varint(number: u32, value: u64) -> (r: ProtoField)
        ensures
            r@ == (ProtoFieldView { number, value: ProtoValueView::Varint(value) }),
    {
        ProtoField { number, value: ProtoValue::Varint(value) }
    }

    /// Constructs a wire-type-1 (64-bit) field.
    pub fn fixed64(number: u32, value: u64) -> (r: ProtoField)
        ensures
            r@ == (ProtoFieldView { number, value: ProtoValueView::Fixed64(value) }),
    {
        ProtoField { number, value: ProtoValue::Fixed64(value) }
    }

    /// Constructs a wire-type-2 (length-delimited) field from raw bytes.
    pub fn bytes(number: u32, value: Vec<u8>) -> (r: ProtoField)
        ensures
            r@ == (ProtoFieldView { number, value: ProtoValueView::LengthDelimited(value@) }),
    {
        ProtoField { number, value: ProtoValue::LengthDelimited(value) }
    }

    /// Constructs a wire-type-2 field from a UTF-8 string (encoded as bytes).
    pub fn string(number: u32, value: &str) -> (r: ProtoField)
        ensures
            r@ == (ProtoFieldView { number, value: ProtoValueView::LengthDelimited(vstd::utf8::encode_utf8(value@)) }),
    {
        Self::bytes(number, copy_bytes(value.as_bytes()))
    }

    /// Constructs a wire-type-2 field by encoding a nested message.
    pub fn message(number: u32, value: &ProtoMessage) -> (r: Result<ProtoField, Error>)
        ensures
            r matches Ok(f) && f@ == (ProtoFieldView {
                number,
                value: ProtoValueView::LengthDelimited(spec_encode_fields(value@)),
            }),
    {
        let bytes = value.encode()?;
        Ok(Self::bytes(number, bytes))
    }

    /// Constructs a wire-type-5 (32-bit) field.
    pub fn fixed32(number: u32, value: u32) -> (r: ProtoField)
        ensures
            r@ == (ProtoFieldView { number, value: ProtoValueView::Fixed32(value) }),
    {
        ProtoField { number, value: ProtoValue::Fixed32(value) }
    }

    /// Appends this field's wire encoding to `out`.
    pub(crate) fn encode_into(&self, out: &mut Vec<u8>) -> (r: Result<(), Error>)
        ensures
            r is Ok,
            final(out)@ == old(out)@ + spec_encode_field(self@),
    {
        let wire_type: u32 = match &self.value {
            ProtoValue::Varint(_) => 0,
            ProtoValue::Fixed64(_) => 1,
            ProtoValue::LengthDelimited(_) => 2,
            ProtoValue::Fixed32(_) => 5,
        };
        push_varint(out, ((self.number << 3u32) | wire_type) as u64);
        encode_value_into(&self.value, out);
        assert(out@ =~= old(out)@ + spec_encode_field(self@));
        Ok(())
    }

    /// A copy of this field.
    pub fn duplicate(&self) -> (r: ProtoField)
        ensures
            r@ == self@,
    {
        ProtoField { number: self.number, value: self.value.duplicate() }
    }
}

impl ProtoMessage {
    /// Decodes a raw protobuf message from `bytes`.
    ///
    /// Fails if any tag, varint, or length-delimited boundary is malformed or
    /// truncated; wire types 3 and 4 (groups) are not supported.
    pub fn decode(bytes: &[u8]) -> (r: Result<ProtoMessage, Error>)
        ensures
            match spec_decode_message(bytes@) {
                Ok(fs) => r matches Ok(m) && m@ == fs,
                Err(e) => r == Err::<ProtoMessage, Error>(e),
            },
    {
        let mut fields: Vec<ProtoField> = Vec::new();
        let mut cursor: usize = 0;
        while cursor < bytes.len()
            invariant
                cursor <= bytes.len(),
                spec_decode_message(bytes@) == prepend_fields(
                    fields@.map_values(|f: ProtoField| f@),
                    spec_decode_from(bytes@, cursor as int),
                ),
            decreases bytes.len() - cursor,
        {
            let ghost c0 = cursor as int;
            proof {
                lemma_decode_field_advances(bytes@, c0);
            }
            let field = match decode_field(bytes, &mut cursor) {
                Ok(f) => f,
                Err(e) => {
                    return Err(e);
                },
            };
            let ghost before = fields@.map_values(|f: ProtoField| f@);
            fields.push(field);
            proof {
                assert(fields@.map_values(|f: ProtoField| f@) =~= before.push(field@));
                match spec_decode_from(bytes@, cursor as int) {
                    Ok(rest) => {
                        assert(before + (seq![field@] + rest) =~= before.push(field@) + rest);
                    },
                    Err(_) => {},
                }
            }
        }
        let m = ProtoMessage { fields };
        proof {
            assert(m.fields@.map_values(|f: ProtoField| f@) + seq![] =~= m.fields@.map_values(|f: ProtoField| f@));
        }
        Ok(m)
    }

    /// Constructs a message from a pre-built list of fields, for encoding.
    pub fn new(fields: Vec<ProtoField>) -> (r: ProtoMessage)
        ensures
            r@ == fields@.map_values(|f: ProtoField| f@),
    {
        ProtoMessage { fields }
    }

    /// All fields in wire order.
    pub fn fields(&self) -> (r: &[ProtoField])
        ensures
            r@.map_values(|f: ProtoField| f@) == self@,
    {
        self.fields.as_slice()
    }

    /// The first field with the given field number, or `None`.
    pub fn field(&self, number: u32) -> (r: Option<&ProtoField>)
        ensures
            match r {
                Some(f) => first_field(self@, number) == Some(f@),
                None => first_field(self@, number) is None,
            },
            match r {
                Some(f) => exists|i: int|
                    0 <= i < self@.len() && self@[i].number == number && f@ == self@[i] && (forall|j: int|
                        0 <= j < i ==> self@[j].number != number),
                None => forall|i: int| 0 <= i < self@.len() ==> self@[i].number != number,
            },
    {
        let mut i: usize = 0;
        assert(self@.skip(0) =~= self@);
        while i < self.fields.len()
            invariant
                i <= self.fields@.len(),
                self@.len() == self.fields@.len(),
                forall|j: int| 0 <= j < i ==> self@[j].number != number,
                first_field(self@, number) == first_field(self@.skip(i as int), number),
            decreases self.fields.len() - i,
        {
            assert(self@[i as int] == self.fields@[i as int]@);
            assert(self@.skip(i as int)[0] == self@[i as int]);
            if self.fields[i].number == number {
                return Some(&self.fields[i]);
            }
            assert(self@.skip(i as int).drop_first() =~= self@.skip(i + 1));
            i = i + 1;
        }
        assert(self@.skip(i as int) =~= seq![]);
        None
    }

    /// All fields with the given field number, in wire order.
    pub fn fields_by_number(&self, number: u32) -> (r: Vec<&ProtoField>)
        ensures
            r@.map_values(|f: &ProtoField| f@) == self@.filter(|f: ProtoFieldView| f.number == number),
    {
        let mut out: Vec<&ProtoField> = Vec::new();
        let mut i: usize = 0;
        while i < self.fields.len()
            invariant
                i <= self.fields@.len(),
                self@.len() == self.fields@.len(),
                out@.map_values(|f: &ProtoField| f@) == self@.take(i as int).filter(
                    |f: ProtoFieldView| f.number == number,
                ),
            decreases self.fields.len() - i,
        {
            reveal_with_fuel(Seq::<_>::filter, 1);
            assert(self@.take(i + 1).drop_last() =~= self@.take(i as int));
            assert(self@[i as int] == self.fields@[i as int]@);
            let ghost before = out@.map_values(|f: &ProtoField| f@);
            if self.fields[i].number == number {
                out.push(&self.fields[i]);
                assert(out@.map_values(|f: &ProtoField| f@) =~= before.push(self@[i as int]));
            }
            i = i + 1;
        }
        assert(self@.take(self.fields@.len() as int) =~= self@);
        out
    }

    /// Encodes this message back to the protobuf wire format.
    pub fn encode(&self) -> (r: Result<Vec<u8>, Error>)
        ensures
            r matches Ok(b) && b@ == spec_encode_fields(self@),
    {
        let mut out: Vec<u8> = Vec::new();
        let mut i: usize = 0;
        assert(self@.skip(0) =~= self@);
        assert(out@ + spec_encode_fields(self@) =~= spec_encode_fields(self@));
        while i < self.fields.len()
            invariant
                i <= self.fields@.len(),
                self@.len() == self.fields@.len(),
                spec_encode_fields(self@) == out@ + spec_encode_fields(self@.skip(i as int)),
            decreases self.fields.len() - i,
        {
            assert(self@[i as int] == self.fields@[i as int]@);
            let _ = self.fields[i].encode_into(&mut out);
            assert(self@.skip(i as int).drop_first() =~= self@.skip(i + 1));
            assert(self@.skip(i as int)[0] == self@[i as int]);
            i = i + 1;
        }
        assert(self@.skip(i as int) =~= seq![]);
        assert(out@ + seq![] =~= out@);
        Ok(out)
    }
}


// ───────────────────────────── round-trip law ─────────────────────────────

/// A field that the encoder writes in a form the decoder reads back unchanged:
/// its number fits the 29 bits a tag carries, and it is not a varint field
/// numbered 0 (whose tag would be the forbidden 0).
pub open spec fn encodable_field(f: ProtoFieldView) -> bool {
    &&& f.number < 0x2000_0000
    &&& !(f.number == 0 && f.value is Varint)
}

/// Splitting the tail of `bytes` at `c` that equals `a + b` into its two parts.
pub proof fn lemma_subrange_split(bytes: Seq<u8>, c: int, a: Seq<u8>, b: Seq<u8>)
    requires
        0 <= c <= bytes.len(),
        bytes.subrange(c, bytes.len() as int) == a + b,
    ensures
        c + a.len() + b.len() == bytes.len(),
        bytes.subrange(c, c + a.len()) == a,
        bytes.subrange(c + a.len(), bytes.len() as int) == b,
{
    assert(bytes.subrange(c, bytes.len() as int).len() == a.len() + b.len());
    assert forall|j: int| 0 <= j < a.len() implies bytes.subrange(c, c + a.len())[j] == a[j] by {
        assert(bytes.subrange(c, bytes.len() as int)[j] == (a + b)[j]);
    }
    assert forall|j: int| 0 <= j < b.len() implies bytes.subrange(c + a.len(), bytes.len() as int)[j] == b[j] by {
        assert(bytes.subrange(c, bytes.len() as int)[a.len() + j] == (a + b)[a.len() + j]);
        assert(bytes.subrange(c + a.len(), bytes.len() as int)[j] == bytes[c + a.len() + j]);
        assert(bytes.subrange(c, bytes.len() as int)[a.len() + j] == bytes[c + a.len() + j]);
    }
    assert(bytes.subrange(c, c + a.len()) =~= a);
    assert(bytes.subrange(c + a.len(), bytes.len() as int) =~= b);
}

proof fn lemma_tag_fields(n: u32, w: u32)
    requires
        n < 0x2000_0000,
        w <= 7,
    ensures
        (((n << 3u32) | w) as u64) >> 3u64 == n as u64,
        (((n << 3u32) | w) as u64) & 7u64 == w as u64,
        (((n << 3u32) | w) as u64) == 0 <==> (n == 0 && w == 0),
{
    assert((((n << 3u32) | w) as u64) >> 3u64 == n as u64) by (bit_vector)
        requires
            n < 0x2000_0000u32, w <= 7u32,
    ;
    assert((((n << 3u32) | w) as u64) & 7u64 == w as u64) by (bit_vector)
        requires
            n < 0x2000_0000u32, w <= 7u32,
    ;
    assert((((n << 3u32) | w) as u64) == 0 <==> (n == 0 && w == 0)) by (bit_vector)
        requires
            n < 0x2000_0000u32, w <= 7u32,
    ;
}

/// Reading the encoding of field `f` at `c`: its tag gives the field's number
/// and wire type; a varint reads back after the tag; a length-delimited
/// value's length reads back, and its bytes follow.
pub proof fn lemma_field_at(bytes: Seq<u8>, c: int, f: ProtoFieldView, rest: Seq<u8>)
    requires
        0 <= c <= bytes.len(),
        bytes.len() <= usize::MAX,
        encodable_field(f),
        bytes.subrange(c, bytes.len() as int) == spec_encode_field(f) + rest,
    ensures
        ({
            let (tr, c1) = spec_read_varint(bytes, c);
            &&& tr == Ok::<u64, Error>(field_tag(f))
            &&& field_tag(f) >> 3u64 == f.number as u64
            &&& field_tag(f) & 7u64 == wire_type_of(f.value) as u64
            &&& field_tag(f) != 0
            &&& c < c1
            &&& (f.value matches ProtoValueView::Varint(x) ==> spec_read_varint(bytes, c1) == (
                Ok::<u64, Error>(x),
                c + spec_encode_field(f).len(),
            ))
            &&& (f.value matches ProtoValueView::LengthDelimited(b) ==> ({
                let (lr, c2) = spec_read_varint(bytes, c1);
                &&& lr == Ok::<u64, Error>(b.len() as u64)
                &&& c2 + b.len() == c + spec_encode_field(f).len()
                &&& bytes.subrange(c2, c2 + b.len()) == b
            }))
        }),
        c + spec_encode_field(f).len() <= bytes.len(),
        bytes.subrange(c + spec_encode_field(f).len(), bytes.len() as int) == rest,
{
    let tag = field_tag(f);
    let et = spec_encode_varint(tag);
    let ev = spec_encode_value(f.value);
    assert(spec_encode_field(f) + rest =~= et + (ev + rest));
    lemma_subrange_split(bytes, c, et, ev + rest);
    lemma_varint_roundtrip(bytes, c, tag);
    lemma_encode_varint_len(tag);
    let c1 = c + et.len();
    lemma_subrange_split(bytes, c1, ev, rest);
    lemma_subrange_split(bytes, c, spec_encode_field(f), rest);
    lemma_tag_fields(f.number, wire_type_of(f.value));
    if f.value is Varint {
        lemma_varint_roundtrip(bytes, c1, f.value->Varint_0);
    }
    if let ProtoValueView::LengthDelimited(b) = f.value {
        let el = spec_encode_varint(b.len() as u64);
        assert(ev + rest =~= el + (b + rest));
        lemma_subrange_split(bytes, c1, el, b + rest);
        lemma_varint_roundtrip(bytes, c1, b.len() as u64);
        let c2 = c1 + el.len();
        lemma_subrange_split(bytes, c2, b, rest);
        assert(b.len() <= usize::MAX);
        assert((b.len() as u64) as int == b.len());
    }
}

/// The encoding of a non-empty field list starts with that of its first field.
pub proof fn lemma_plain_first(fs: Seq<ProtoFieldView>)
    requires
        fs.len() > 0,
    ensures
        spec_encode_fields(fs) == spec_encode_field(fs[0]) + spec_encode_fields(fs.drop_first()),
{
}

proof fn lemma_decode_encoded_field(bytes: Seq<u8>, c: int, f: ProtoFieldView, rest: Seq<u8>)
    requires
        0 <= c <= bytes.len(),
        bytes.len() <= usize::MAX,
        encodable_field(f),
        bytes.subrange(c, bytes.len() as int) == spec_encode_field(f) + rest,
    ensures
        spec_decode_field(bytes, c) == Ok::<(ProtoFieldView, int), Error>((f, c + spec_encode_field(f).len())),
{
    let tag = field_tag(f);
    let et = spec_encode_varint(tag);
    let ev = spec_encode_value(f.value);
    assert(spec_encode_field(f) + rest =~= et + (ev + rest));
    lemma_subrange_split(bytes, c, et, ev + rest);
    lemma_varint_roundtrip(bytes, c, tag);
    let c1 = c + et.len();
    lemma_subrange_split(bytes, c1, ev, rest);
    lemma_tag_fields(f.number, wire_type_of(f.value));
    assert(tag >> 3u64 <= u32::MAX);
    match f.value {
        ProtoValueView::Varint(x) => {
            lemma_varint_roundtrip(bytes, c1, x);
        },
        ProtoValueView::Fixed64(x) => {
            lemma_le_u64_roundtrip(bytes, c1, x);
        },
        ProtoValueView::LengthDelimited(b) => {
            let el = spec_encode_varint(b.len() as u64);
            assert(ev + rest =~= el + (b + rest));
            lemma_subrange_split(bytes, c1, el, b + rest);
            lemma_varint_roundtrip(bytes, c1, b.len() as u64);
            let c2 = c1 + el.len();
            lemma_subrange_split(bytes, c2, b, rest);
            assert(b.len() <= usize::MAX);
            assert((b.len() as u64) as int == b.len());
        },
        ProtoValueView::Fixed32(x) => {
            lemma_le_u32_roundtrip(bytes, c1, x);
        },
    }
}

proof fn lemma_decode_encoded_fields(bytes: Seq<u8>, c: int, fs: Seq<ProtoFieldView>)
    requires
        0 <= c <= bytes.len(),
        bytes.len() <= usize::MAX,
        forall|i: int| 0 <= i < fs.len() ==> encodable_field(#[trigger] fs[i]),
        bytes.subrange(c, bytes.len() as int) == spec_encode_fields(fs),
    ensures
        spec_decode_from(bytes, c) == Ok::<Seq<ProtoFieldView>, Error>(fs),
    decreases fs.len(),
{
    if fs.len() == 0 {
        assert(bytes.subrange(c, bytes.len() as int).len() == 0);
        assert(fs =~= seq![]);
    } else {
        let f = fs[0];
        let ef = spec_encode_field(f);
        let er = spec_encode_fields(fs.drop_first());
        lemma_decode_encoded_field(bytes, c, f, er);
        lemma_subrange_split(bytes, c, ef, er);
        lemma_encode_varint_len(field_tag(f));
        let next = c + ef.len();
        assert forall|i: int| 0 <= i < fs.drop_first().len() implies encodable_field(
            #[trigger] fs.drop_first()[i],
        ) by {
            assert(fs.drop_first()[i] == fs[i + 1]);
        }
        lemma_decode_encoded_fields(bytes, next, fs.drop_first());
        assert(seq![f] + fs.drop_first() =~= fs);
    }
}

/// Law: decoding the wire encoding of a field list gives back the same
/// fields, for every list whose fields are encodable and whose encoding fits
/// in memory.
pub proof fn lemma_message_roundtrip(fs: Seq<ProtoFieldView>)
    requires
        forall|i: int| 0 <= i < fs.len() ==> encodable_field(#[trigger] fs[i]),
        spec_encode_fields(fs).len() <= usize::MAX,
    ensures
        spec_decode_message(spec_encode_fields(fs)) == Ok::<Seq<ProtoFieldView>, Error>(fs),
{
    let bytes = spec_encode_fields(fs);
    assert(bytes.subrange(0, bytes.len() as int) =~= bytes);
    lemma_decode_encoded_fields(bytes, 0, fs);
}

} // verus!
