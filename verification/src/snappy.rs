//! Raw Snappy block decompression and literal-only compression, as used by
//! the chunks of an `.iwa` archive.
use crate::error::Error;
use crate::protobuf::{
    extend_bytes, lemma_read_varint_advances, lemma_varint_roundtrip, push_varint, read_varint, spec_encode_varint,
    spec_read_varint,
};
use vstd::prelude::*;

verus! {

/// Appending `len` bytes copied from `offset` bytes back, one byte at a time,
/// so that a copy may overlap the bytes it produces. `i` bytes are done.
pub open spec fn spec_copy_from(out: Seq<u8>, start: int, i: nat, len: nat) -> Seq<u8>
    decreases len - i,
{
    if i >= len {
        out
    } else {
        spec_copy_from(out.push(out[start + i]), start, i + 1, len)
    }
}

/// The little-endian integer formed by `bytes[c..c + n]`.
pub open spec fn le_uint(bytes: Seq<u8>, c: int, n: nat) -> nat
    decreases n,
{
    if n == 0 {
        0
    } else {
        le_uint(bytes, c, (n - 1) as nat) + (bytes[c + n - 1] as nat) * pow256((n - 1) as nat)
    }
}

/// `256` to the power `n`.
pub open spec fn pow256(n: nat) -> nat
    decreases n,
{
    if n == 0 {
        1
    } else {
        256 * pow256((n - 1) as nat)
    }
}

/// One Snappy element (a literal or a back-reference copy) decoded at `c`,
/// appended to `out`: the position after it and the grown output.
pub open spec fn snappy_element(bytes: Seq<u8>, c: int, out: Seq<u8>) -> Result<(int, Seq<u8>), Error> {
    let tag = bytes[c];
    let c1 = c + 1;
    if tag & 3 == 0 {
        let len_code = (tag >> 2u8) as nat;
        if len_code < 60 {
            let n = len_code + 1;
            if c1 + n > usize::MAX {
                Err(Error::InvalidIwa("snappy literal overflow"))
            } else if c1 + n > bytes.len() {
                Err(Error::Truncated("snappy literal"))
            } else {
                Ok((c1 + n, out + bytes.subrange(c1, c1 + n)))
            }
        } else {
            let extra = (len_code - 59) as nat;
            if c1 + extra > usize::MAX {
                Err(Error::InvalidIwa("snappy literal length overflow"))
            } else if c1 + extra > bytes.len() {
                Err(Error::Truncated("snappy literal length"))
            } else {
                let c2 = c1 + extra;
                let n = le_uint(bytes, c1, extra) + 1;
                if n > usize::MAX || c2 + n > usize::MAX {
                    Err(Error::InvalidIwa("snappy literal overflow"))
                } else if c2 + n > bytes.len() {
                    Err(Error::Truncated("snappy literal"))
                } else {
                    Ok((c2 + n, out + bytes.subrange(c2, c2 + n)))
                }
            }
        }
    } else if tag & 3 == 1 {
        let len = ((tag >> 2u8) & 7) as nat + 4;
        if c1 >= bytes.len() {
            Err(Error::Truncated("snappy copy"))
        } else {
            let offset = ((tag & 0xe0) as nat) * 8 + bytes[c1] as nat;
            if offset == 0 || offset > out.len() {
                Err(Error::InvalidIwa("invalid snappy copy offset"))
            } else {
                Ok((c1 + 1, spec_copy_from(out, out.len() - offset, 0, len)))
            }
        }
    } else {
        let width: nat = if tag & 3 == 2 { 2 } else { 4 };
        let len = (tag >> 2u8) as nat + 1;
        if c1 + width > usize::MAX {
            Err(Error::InvalidIwa("snappy copy overflow"))
        } else if c1 + width > bytes.len() {
            Err(Error::Truncated("snappy copy offset"))
        } else {
            let offset = le_uint(bytes, c1, width);
            if offset == 0 || offset > out.len() {
                Err(Error::InvalidIwa("invalid snappy copy offset"))
            } else {
                Ok((c1 + width, spec_copy_from(out, out.len() - offset, 0, len)))
            }
        }
    }
}

/// Decoding every Snappy element from `c` to the end of `bytes`.
pub open spec fn snappy_run(bytes: Seq<u8>, c: int, out: Seq<u8>) -> Result<Seq<u8>, Error>
    decreases bytes.len() - c,
{
    if c < 0 || c >= bytes.len() {
        Ok(out)
    } else {
        match snappy_element(bytes, c, out) {
            Err(e) => Err(e),
            Ok((next, out2)) => {
                if next <= c {
                    Err(Error::InvalidIwa("snappy element did not advance"))
                } else {
                    snappy_run(bytes, next, out2)
                }
            },
        }
    }
}

/// Decompressing one raw Snappy block: a varint output length, then elements;
/// the output must have exactly the announced length.
pub open spec fn spec_decompress_snappy(bytes: Seq<u8>) -> Result<Seq<u8>, Error> {
    let (r, c) = spec_read_varint(bytes, 0);
    match r {
        Err(e) => Err(e),
        Ok(n) => {
            if n > usize::MAX {
                Err(Error::InvalidIwa("snappy output length overflow"))
            } else {
                match snappy_run(bytes, c, seq![]) {
                    Err(e) => Err(e),
                    Ok(out) => {
                        if out.len() != n {
                            Err(Error::InvalidIwa("snappy length mismatch"))
                        } else {
                            Ok(out)
                        }
                    },
                }
            }
        },
    }
}

proof fn lemma_snappy_element_advances(bytes: Seq<u8>, c: int, out: Seq<u8>)
    requires
        0 <= c < bytes.len(),
    ensures
        snappy_element(bytes, c, out) matches Ok((next, _)) ==> c < next <= bytes.len(),
{
}

fn copy_from_output(out: &mut Vec<u8>, offset: usize, len: usize) -> (r: Result<(), Error>)
    ensures
        offset == 0 || offset > old(out)@.len() ==> r == Err::<(), Error>(
            Error::InvalidIwa("invalid snappy copy offset"),
        ) && final(out)@ == old(out)@,
        !(offset == 0 || offset > old(out)@.len()) ==> r is Ok && final(out)@ == spec_copy_from(
            old(out)@,
            old(out)@.len() - offset,
            0,
            len as nat,
        ),
{
    if offset == 0 || offset > out.len() {
        return Err(Error::InvalidIwa("invalid snappy copy offset"));
    }
    let start = out.len() - offset;
    let ghost orig = out@;
    let mut index: usize = 0;
    while index < len
        invariant
            index <= len,
            1 <= offset <= orig.len(),
            start as int == orig.len() - offset,
            out@.len() == orig.len() + index,
            spec_copy_from(orig, start as int, 0, len as nat) == spec_copy_from(out@, start as int, index as nat, len as nat),
        decreases len - index,
    {
        let current_len = out.len();
        assert(start + index < current_len);
        let byte = out[start + index];
        out.push(byte);
        index = index + 1;
    }
    Ok(())
}

proof fn lemma_pow256_small(i: nat)
    requires
        i <= 4,
    ensures
        pow256(i) <= 0x1_0000_0000,
        i < 4 ==> pow256(i) <= 0x100_0000,
{
    reveal_with_fuel(pow256, 5);
}

fn read_le_uint(bytes: &[u8], c: usize, n: usize) -> (r: u64)
    requires
        n <= 4,
        c + n <= bytes@.len(),
    ensures
        r as nat == le_uint(bytes@, c as int, n as nat),
        r < pow256(n as nat),
{
    let mut value: u64 = 0;
    let mut i: usize = 0;
    let mut scale: u64 = 1;
    while i < n
        invariant
            i <= n <= 4,
            c + n <= bytes@.len(),
            value as nat == le_uint(bytes@, c as int, i as nat),
            scale as nat == pow256(i as nat),
            value < scale,
            scale <= 0x1_0000_0000,
        decreases n - i,
    {
        let total = bytes.len();
        assert(c + i < total);
        let b = bytes[c + i] as u64;
        assert(b * scale <= 255 * scale) by (nonlinear_arith)
            requires
                b <= 255,
        ;
        proof {
            lemma_pow256_small(i as nat);
            lemma_pow256_small((i + 1) as nat);
        }
        value = value + b * scale;
        scale = scale * 256;
        i = i + 1;
    }
    value
}

/// Decompresses one raw Snappy block.
pub fn decompress_snappy(bytes: &[u8]) -> (r: Result<Vec<u8>, Error>)
    ensures
        match spec_decompress_snappy(bytes@) {
            Ok(out) => r matches Ok(v) && v@ == out,
            Err(e) => r == Err::<Vec<u8>, Error>(e),
        },
{
    let mut cursor: usize = 0;
    let expected = read_varint(bytes, &mut cursor)?;
    if expected > usize::MAX as u64 {
        return Err(Error::InvalidIwa("snappy output length overflow"));
    }
    let expected_len = expected as usize;
    proof {
        lemma_read_varint_advances(bytes@, 0);
    }
    let ghost c0 = cursor as int;
    let mut out: Vec<u8> = Vec::new();
    while cursor < bytes.len()
        invariant
            cursor <= bytes@.len(),
            snappy_run(bytes@, c0, seq![]) == snappy_run(bytes@, cursor as int, out@),
            spec_read_varint(bytes@, 0).0 == Ok::<u64, Error>(expected),
            spec_read_varint(bytes@, 0).1 == c0,
            expected <= usize::MAX,
            expected_len == expected,
        decreases bytes.len() - cursor,
    {
        let ghost cur = cursor as int;
        let ghost before = out@;
        proof {
            lemma_snappy_element_advances(bytes@, cur, before);
        }
        let tag = bytes[cursor];
        cursor = cursor + 1;
        let kind = tag & 0x03;
        if kind == 0 {
            assert(tag >> 2u8 <= 63u8) by (bit_vector);
            let len_code = (tag >> 2) as usize;
            let literal_len: u64 = if len_code < 60 {
                len_code as u64 + 1
            } else {
                let extra_bytes = len_code - 59;
                let extra_end = match cursor.checked_add(extra_bytes) {
                    Some(e) => e,
                    None => return Err(Error::InvalidIwa("snappy literal length overflow")),
                };
                if extra_end > bytes.len() {
                    return Err(Error::Truncated("snappy literal length"));
                }
                let len = read_le_uint(bytes, cursor, extra_bytes);
                proof {
                    lemma_pow256_small(extra_bytes as nat);
                }
                cursor = extra_end;
                len + 1
            };
            if literal_len > usize::MAX as u64 {
                return Err(Error::InvalidIwa("snappy literal overflow"));
            }
            let literal_end = match cursor.checked_add(literal_len as usize) {
                Some(e) => e,
                None => return Err(Error::InvalidIwa("snappy literal overflow")),
            };
            if literal_end > bytes.len() {
                return Err(Error::Truncated("snappy literal"));
            }
            extend_bytes(&mut out, &bytes[cursor..literal_end]);
            cursor = literal_end;
        } else if kind == 1 {
            let len = (((tag >> 2) & 0x07) as usize) + 4;
            if cursor >= bytes.len() {
                return Err(Error::Truncated("snappy copy"));
            }
            let low = bytes[cursor] as usize;
            cursor = cursor + 1;
            let high = ((tag & 0xe0) as usize) * 8;
            copy_from_output(&mut out, high + low, len)?;
        } else {
            let width: usize = if kind == 2 { 2 } else { 4 };
            let len = ((tag >> 2) as usize) + 1;
            let offset_end = match cursor.checked_add(width) {
                Some(e) => e,
                None => return Err(Error::InvalidIwa("snappy copy overflow")),
            };
            if offset_end > bytes.len() {
                return Err(Error::Truncated("snappy copy offset"));
            }
            let offset = read_le_uint(bytes, cursor, width);
            cursor = offset_end;
            let out_len = out.len();
            if offset > out_len as u64 {
                return Err(Error::InvalidIwa("invalid snappy copy offset"));
            }
            copy_from_output(&mut out, offset as usize, len)?;
        }
        proof {
            assert(snappy_element(bytes@, cur, before) == Ok::<(int, Seq<u8>), Error>((cursor as int, out@)));
        }
    }
    if out.len() != expected_len {
        return Err(Error::InvalidIwa("snappy length mismatch"));
    }
    Ok(out)
}

// ───────────────────────────── literal-only compression ─────────────────────────────

/// The tag byte of a literal element carrying `n` bytes (`1 <= n <= 60`).
pub open spec fn literal_tag(n: nat) -> u8 {
    ((n - 1) as u8) << 2u8
}

/// `b` cut into literal elements of at most 60 bytes each, in order.
pub open spec fn literal_elements(b: Seq<u8>) -> Seq<u8>
    decreases b.len(),
{
    if b.len() == 0 {
        seq![]
    } else {
        let n: nat = if b.len() < 60 { b.len() } else { 60 };
        seq![literal_tag(n)] + b.subrange(0, n as int) + literal_elements(b.subrange(n as int, b.len() as int))
    }
}

/// The Snappy block that stores `b` as literal elements only: the varint
/// length of `b`, then its literal elements.
pub open spec fn spec_compress_literal(b: Seq<u8>) -> Seq<u8> {
    spec_encode_varint(b.len() as u64) + literal_elements(b)
}

/// Encodes `bytes` as a valid Snappy block made of literal elements only.
pub fn compress_snappy_literal(bytes: &[u8]) -> (r: Vec<u8>)
    ensures
        r@ == spec_compress_literal(bytes@),
{
    let mut out: Vec<u8> = Vec::new();
    push_varint(&mut out, bytes.len() as u64);
    assert(bytes@.subrange(0, bytes@.len() as int) =~= bytes@);
    assert(out@ =~= spec_encode_varint(bytes.len() as u64));
    let mut cursor: usize = 0;
    while cursor < bytes.len()
        invariant
            cursor <= bytes@.len(),
            out@ + literal_elements(bytes@.subrange(cursor as int, bytes@.len() as int)) == spec_compress_literal(
                bytes@,
            ),
        decreases bytes.len() - cursor,
    {
        let ghost rest = bytes@.subrange(cursor as int, bytes@.len() as int);
        let remaining = bytes.len() - cursor;
        let chunk_len: usize = if remaining < 60 { remaining } else { 60 };
        let tag: u8 = ((chunk_len - 1) as u8) << 2;
        let ghost before = out@;
        out.push(tag);
        extend_bytes(&mut out, &bytes[cursor..cursor + chunk_len]);
        proof {
            assert(rest.subrange(0, chunk_len as int) =~= bytes@.subrange(cursor as int, cursor + chunk_len));
            assert(rest.subrange(chunk_len as int, rest.len() as int) =~= bytes@.subrange(
                cursor + chunk_len,
                bytes@.len() as int,
            ));
            assert(out@ =~= before + seq![tag] + rest.subrange(0, chunk_len as int));
            assert(before + literal_elements(rest) =~= out@ + literal_elements(
                rest.subrange(chunk_len as int, rest.len() as int),
            ));
        }
        cursor = cursor + chunk_len;
    }
    assert(literal_elements(bytes@.subrange(cursor as int, bytes@.len() as int)) =~= seq![]);
    assert(out@ =~= out@ + seq![]);
    out
}

proof fn lemma_literal_tag(n: nat)
    requires
        1 <= n <= 60,
    ensures
        literal_tag(n) & 3 == 0,
        (literal_tag(n) >> 2u8) as nat == n - 1,
{
    let x = (n - 1) as u8;
    assert(x <= 59 ==> (x << 2u8) & 3 == 0 && (x << 2u8) >> 2u8 == x) by (bit_vector);
}

/// Literal elements never take fewer bytes than the data they carry.
pub proof fn lemma_literal_elements_len(b: Seq<u8>)
    ensures
        literal_elements(b).len() >= b.len(),
    decreases b.len(),
{
    if b.len() > 0 {
        let n: nat = if b.len() < 60 { b.len() } else { 60 };
        lemma_literal_elements_len(b.subrange(n as int, b.len() as int));
    }
}

proof fn lemma_literal_run(whole: Seq<u8>, pre: Seq<u8>, b: Seq<u8>, out: Seq<u8>)
    requires
        whole == pre + literal_elements(b),
        whole.len() <= usize::MAX,
    ensures
        snappy_run(whole, pre.len() as int, out) == Ok::<Seq<u8>, Error>(out + b),
    decreases b.len(),
{
    let c = pre.len() as int;
    if b.len() == 0 {
        assert(whole.len() == c);
        assert(out + b =~= out);
    } else {
        let n: nat = if b.len() < 60 { b.len() } else { 60 };
        let tag = literal_tag(n);
        let chunk = b.subrange(0, n as int);
        let tail = b.subrange(n as int, b.len() as int);
        lemma_literal_tag(n);
        lemma_literal_elements_len(tail);
        let pre2 = pre + seq![tag] + chunk;
        assert(whole =~= pre2 + literal_elements(tail));
        assert(whole[c] == tag);
        assert(whole.subrange(c + 1, c + 1 + n) =~= chunk);
        assert(snappy_element(whole, c, out) == Ok::<(int, Seq<u8>), Error>((c + 1 + n, out + chunk)));
        lemma_literal_run(whole, pre2, tail, out + chunk);
        assert(out + chunk + tail =~= out + b);
    }
}

/// Law: decompressing a literal-only block gives back exactly the bytes that
/// were compressed (when the block's size fits in memory).
pub proof fn lemma_snappy_literal_roundtrip(b: Seq<u8>)
    requires
        spec_compress_literal(b).len() <= usize::MAX,
    ensures
        spec_decompress_snappy(spec_compress_literal(b)) == Ok::<Seq<u8>, Error>(b),
{
    let whole = spec_compress_literal(b);
    let header = spec_encode_varint(b.len() as u64);
    lemma_literal_elements_len(b);
    assert(b.len() <= usize::MAX);
    assert(whole.subrange(0, header.len() as int) =~= header);
    lemma_varint_roundtrip(whole, 0, b.len() as u64);
    lemma_literal_run(whole, header, b, seq![]);
    assert(seq![] + b =~= b);
}

} // verus!
