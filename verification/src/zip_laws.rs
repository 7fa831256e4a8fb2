//! What a package reader finds in the bytes the package writer produces.
use crate::package::{
    central_record, eocd_record, eocd_search, find_entry, le16, le32, local_record, member_bytes, sat_sub,
    spec_cd_entries, spec_cd_record, spec_central, spec_entry_data, spec_entry_outcome, spec_find_eocd, spec_locals,
    spec_package_entries, spec_zip, u16_bytes, u32_bytes, zip_fits, EntryReadView, EntryView, PackageView,
    CENTRAL_DIRECTORY_SIGNATURE, EOCD_SIGNATURE, LOCAL_FILE_SIGNATURE,
};
use vstd::prelude::*;
use vstd::utf8::{decode_utf8, encode_utf8, valid_utf8};

verus! {

/// Reading two little-endian bytes gives back the 16-bit value written.
pub proof fn lemma_le16_of_u16_bytes(b: Seq<u8>, c: int, x: nat)
    requires
        0 <= c,
        c + 2 <= b.len(),
        x < 0x1_0000,
        b.subrange(c, c + 2) == u16_bytes(x),
    ensures
        le16(b, c) == x,
{
    assert(b[c] == b.subrange(c, c + 2)[0]);
    assert(b[c + 1] == b.subrange(c, c + 2)[1]);
    let lo = x % 256;
    let hi = (x / 256) % 256;
    assert(lo + 256 * hi == x) by (nonlinear_arith)
        requires
            lo == x % 256,
            hi == (x / 256) % 256,
            x < 0x1_0000,
    ;
}

/// Reading four little-endian bytes gives back the 32-bit value written.
pub proof fn lemma_le32_of_u32_bytes(b: Seq<u8>, c: int, x: nat)
    requires
        0 <= c,
        c + 4 <= b.len(),
        x < 0x1_0000_0000,
        b.subrange(c, c + 4) == u32_bytes(x),
    ensures
        le32(b, c) == x,
{
    let s = b.subrange(c, c + 4);
    assert(b[c] == s[0]);
    assert(b[c + 1] == s[1]);
    assert(b[c + 2] == s[2]);
    assert(b[c + 3] == s[3]);
    let b0 = x % 256;
    let b1 = (x / 256) % 256;
    let b2 = (x / 65536) % 256;
    let b3 = (x / 16777216) % 256;
    assert(b0 + 256 * b1 + 65536 * (b2 + 256 * b3) == x) by (nonlinear_arith)
        requires
            b0 == x % 256,
            b1 == (x / 256) % 256,
            b2 == (x / 65536) % 256,
            b3 == (x / 16777216) % 256,
            x < 0x1_0000_0000,
    ;
}

/// The fields of a local record that a reader looks at.
pub proof fn lemma_local_fields(name: Seq<u8>, data: Seq<u8>)
    ensures
        local_record(name, data).len() == 30 + name.len() + data.len(),
        local_record(name, data).subrange(0, 4) == u32_bytes(LOCAL_FILE_SIGNATURE as nat),
        local_record(name, data).subrange(26, 28) == u16_bytes(name.len()),
        local_record(name, data).subrange(28, 30) == u16_bytes(0),
        local_record(name, data).subrange(30 + name.len() as int, 30 + name.len() + data.len() as int) == data,
{
    reveal(local_record);
    let r = local_record(name, data);
    assert(r.subrange(0, 4) =~= u32_bytes(LOCAL_FILE_SIGNATURE as nat));
    assert(r.subrange(26, 28) =~= u16_bytes(name.len()));
    assert(r.subrange(28, 30) =~= u16_bytes(0));
    assert(r.subrange(30 + name.len() as int, 30 + name.len() + data.len() as int) =~= data);
}

/// The fields of a central record that a reader looks at.
#[verifier::spinoff_prover]
#[verifier::rlimit(40)]
pub proof fn lemma_central_fields(name: Seq<u8>, data: Seq<u8>, offset: nat)
    ensures
        central_record(name, data, offset).len() == 46 + name.len(),
        central_record(name, data, offset).subrange(0, 4) == u32_bytes(CENTRAL_DIRECTORY_SIGNATURE as nat),
        central_record(name, data, offset).subrange(10, 12) == u16_bytes(0),
        central_record(name, data, offset).subrange(20, 24) == u32_bytes(data.len()),
        central_record(name, data, offset).subrange(24, 28) == u32_bytes(data.len()),
        central_record(name, data, offset).subrange(28, 30) == u16_bytes(name.len()),
        central_record(name, data, offset).subrange(30, 32) == u16_bytes(0),
        central_record(name, data, offset).subrange(32, 34) == u16_bytes(0),
        central_record(name, data, offset).subrange(42, 46) == u32_bytes(offset),
        central_record(name, data, offset).subrange(46, 46 + name.len() as int) == name,
{
    reveal(central_record);
    let r = central_record(name, data, offset);
    assert(r.subrange(0, 4) =~= u32_bytes(CENTRAL_DIRECTORY_SIGNATURE as nat));
    assert(r.subrange(10, 12) =~= u16_bytes(0));
    assert(r.subrange(20, 24) =~= u32_bytes(data.len()));
    assert(r.subrange(24, 28) =~= u32_bytes(data.len()));
    assert(r.subrange(28, 30) =~= u16_bytes(name.len()));
    assert(r.subrange(30, 32) =~= u16_bytes(0));
    assert(r.subrange(32, 34) =~= u16_bytes(0));
    assert(r.subrange(42, 46) =~= u32_bytes(offset));
    assert(r.subrange(46, 46 + name.len() as int) =~= name);
}

/// The fields of the end record that a reader looks at.
pub proof fn lemma_eocd_fields(n: nat, cd_size: nat, cd_offset: nat)
    ensures
        eocd_record(n, cd_size, cd_offset).len() == 22,
        eocd_record(n, cd_size, cd_offset).subrange(0, 4) == u32_bytes(EOCD_SIGNATURE as nat),
        eocd_record(n, cd_size, cd_offset).subrange(10, 12) == u16_bytes(n),
        eocd_record(n, cd_size, cd_offset).subrange(12, 16) == u32_bytes(cd_size),
        eocd_record(n, cd_size, cd_offset).subrange(16, 20) == u32_bytes(cd_offset),
{
    reveal(eocd_record);
    let r = eocd_record(n, cd_size, cd_offset);
    assert(r.subrange(0, 4) =~= u32_bytes(EOCD_SIGNATURE as nat));
    assert(r.subrange(10, 12) =~= u16_bytes(n));
    assert(r.subrange(12, 16) =~= u32_bytes(cd_size));
    assert(r.subrange(16, 20) =~= u32_bytes(cd_offset));
}

/// A part of a record placed at `p` is found at `p` plus its offset.
pub proof fn lemma_window(z: Seq<u8>, p: int, r: Seq<u8>, a: int, b: int)
    requires
        0 <= p,
        p + r.len() <= z.len(),
        z.subrange(p, p + r.len()) == r,
        0 <= a <= b <= r.len(),
    ensures
        z.subrange(p + a, p + b) == r.subrange(a, b),
{
    assert(z.subrange(p + a, p + b) =~= r.subrange(a, b)) by {
        assert forall|k: int| 0 <= k < b - a implies z.subrange(p + a, p + b)[k] == r.subrange(a, b)[k] by {
            assert(z[p + a + k] == z.subrange(p, p + r.len())[a + k]);
        }
    }
}

/// The local records of the first `i + 1` members extend those of the first `i`.
pub proof fn lemma_locals_step(ms: Seq<(Seq<u8>, Seq<u8>)>, i: int)
    requires
        0 <= i < ms.len(),
    ensures
        spec_locals(ms.take(i + 1)) == spec_locals(ms.take(i)) + local_record(ms[i].0, ms[i].1),
        spec_central(ms.take(i + 1)) == spec_central(ms.take(i)) + central_record(
            ms[i].0,
            ms[i].1,
            spec_locals(ms.take(i)).len(),
        ),
{
    let t = ms.take(i + 1);
    assert(t.drop_last() =~= ms.take(i));
    assert(t.last() == ms[i]);
}

/// The records of the first `i` members begin the records of all members.
pub proof fn lemma_records_prefix(ms: Seq<(Seq<u8>, Seq<u8>)>, i: int)
    requires
        0 <= i <= ms.len(),
    ensures
        spec_locals(ms.take(i)).len() <= spec_locals(ms).len(),
        spec_locals(ms).subrange(0, spec_locals(ms.take(i)).len() as int) == spec_locals(ms.take(i)),
        spec_central(ms.take(i)).len() <= spec_central(ms).len(),
        spec_central(ms).subrange(0, spec_central(ms.take(i)).len() as int) == spec_central(ms.take(i)),
    decreases ms.len(),
{
    if i == ms.len() {
        assert(ms.take(i) =~= ms);
        assert(spec_locals(ms).subrange(0, spec_locals(ms).len() as int) =~= spec_locals(ms));
        assert(spec_central(ms).subrange(0, spec_central(ms).len() as int) =~= spec_central(ms));
    } else {
        let d = ms.drop_last();
        lemma_records_prefix(d, i);
        assert(d.take(i) =~= ms.take(i));
        let a = spec_locals(d);
        let x = spec_locals(ms.take(i));
        assert(spec_locals(ms) == a + local_record(ms.last().0, ms.last().1));
        assert(spec_locals(ms).subrange(0, x.len() as int) =~= a.subrange(0, x.len() as int));
        let c = spec_central(d);
        let y = spec_central(ms.take(i));
        assert(spec_central(ms) == c + central_record(ms.last().0, ms.last().1, spec_locals(d).len()));
        assert(spec_central(ms).subrange(0, y.len() as int) =~= c.subrange(0, y.len() as int));
    }
}

/// The local record of member `i` stands at the length of the records before it.
pub proof fn lemma_local_at(ms: Seq<(Seq<u8>, Seq<u8>)>, i: int)
    requires
        0 <= i < ms.len(),
    ensures
        ({
            let off = spec_locals(ms.take(i)).len() as int;
            let r = local_record(ms[i].0, ms[i].1);
            &&& off + r.len() <= spec_locals(ms).len()
            &&& spec_locals(ms).subrange(off, off + r.len()) == r
        }),
        ({
            let off = spec_central(ms.take(i)).len() as int;
            let r = central_record(ms[i].0, ms[i].1, spec_locals(ms.take(i)).len());
            &&& off + r.len() <= spec_central(ms).len()
            &&& spec_central(ms).subrange(off, off + r.len()) == r
        }),
{
    lemma_locals_step(ms, i);
    lemma_records_prefix(ms, i + 1);
    let x = spec_locals(ms.take(i));
    let r = local_record(ms[i].0, ms[i].1);
    let l = spec_locals(ms);
    assert(l.subrange(x.len() as int, x.len() + r.len() as int) =~= (x + r).subrange(x.len() as int, x.len() + r.len() as int));
    assert((x + r).subrange(x.len() as int, x.len() + r.len() as int) =~= r);
    let y = spec_central(ms.take(i));
    let q = central_record(ms[i].0, ms[i].1, x.len());
    let c = spec_central(ms);
    assert(c.subrange(y.len() as int, y.len() + q.len() as int) =~= (y + q).subrange(y.len() as int, y.len() + q.len() as int));
    assert((y + q).subrange(y.len() as int, y.len() + q.len() as int) =~= q);
}

/// The entry a reader lists for member `i`.
pub open spec fn entry_of(ms: Seq<(Seq<u8>, Seq<u8>)>, i: int) -> EntryView {
    EntryView {
        path: decode_utf8(ms[i].0),
        compression_method: 0,
        compressed_size: ms[i].1.len() as u32,
        uncompressed_size: ms[i].1.len() as u32,
        local_header_offset: spec_locals(ms.take(i)).len() as u32,
    }
}

/// The entries a reader lists for the members the package writer wrote.
pub open spec fn written_entries(ms: Seq<(Seq<u8>, Seq<u8>)>) -> Seq<EntryView> {
    Seq::new(ms.len(), |i: int| entry_of(ms, i))
}

/// No end-record signature starts after the end record's own start: the
/// reader, which takes the last one, then finds the record written.
pub open spec fn end_record_unambiguous(z: Seq<u8>) -> bool {
    forall|q: int| z.len() - 22 < q <= z.len() - 4 ==> #[trigger] le32(z, q) != EOCD_SIGNATURE
}

/// Where the central record of member `i` starts in the written bytes.
pub open spec fn central_pos(ms: Seq<(Seq<u8>, Seq<u8>)>, i: int) -> int {
    (spec_locals(ms).len() + spec_central(ms.take(i)).len()) as int
}

/// The written bytes fit what the reader can address: a plain archive whose
/// names are UTF-8 and whose length fits in `usize`.
pub open spec fn readable_write(ms: Seq<(Seq<u8>, Seq<u8>)>) -> bool {
    &&& zip_fits(ms)
    &&& spec_zip(ms).len() <= usize::MAX
    &&& forall|i: int| 0 <= i < ms.len() ==> valid_utf8(#[trigger] ms[i].0)
}

/// The written bytes hold the local records, then the central records.
proof fn lemma_zip_parts(ms: Seq<(Seq<u8>, Seq<u8>)>, i: int)
    requires
        0 <= i < ms.len(),
    ensures
        ({
            let z = spec_zip(ms);
            let off = spec_locals(ms.take(i)).len() as int;
            let r = local_record(ms[i].0, ms[i].1);
            &&& off + r.len() <= spec_locals(ms).len()
            &&& z.subrange(off, off + r.len()) == r
        }),
        ({
            let z = spec_zip(ms);
            let p = central_pos(ms, i);
            let r = central_record(ms[i].0, ms[i].1, spec_locals(ms.take(i)).len());
            &&& p + r.len() <= spec_locals(ms).len() + spec_central(ms).len()
            &&& z.subrange(p, p + r.len()) == r
        }),
{
    lemma_local_at(ms, i);
    let z = spec_zip(ms);
    let l = spec_locals(ms);
    let c = spec_central(ms);
    let off = spec_locals(ms.take(i)).len() as int;
    let r = local_record(ms[i].0, ms[i].1);
    assert(z.subrange(off, off + r.len()) =~= l.subrange(off, off + r.len()));
    let coff = spec_central(ms.take(i)).len() as int;
    let q = central_record(ms[i].0, ms[i].1, spec_locals(ms.take(i)).len());
    assert(z.subrange(l.len() + coff, l.len() + coff + q.len()) =~= c.subrange(coff, coff + q.len()));
}

/// The fields of a central record placed at `c`.
#[verifier::spinoff_prover]
#[verifier::rlimit(80)]
proof fn lemma_central_windows(z: Seq<u8>, c: int, name: Seq<u8>, data: Seq<u8>, off: nat)
    requires
        0 <= c,
        c + 46 + name.len() <= z.len(),
        z.subrange(c, c + 46 + name.len()) == central_record(name, data, off),
    ensures
        z.subrange(c, c + 4) == u32_bytes(CENTRAL_DIRECTORY_SIGNATURE as nat),
        z.subrange(c + 10, c + 12) == u16_bytes(0),
        z.subrange(c + 20, c + 24) == u32_bytes(data.len()),
        z.subrange(c + 24, c + 28) == u32_bytes(data.len()),
        z.subrange(c + 28, c + 30) == u16_bytes(name.len()),
        z.subrange(c + 30, c + 32) == u16_bytes(0),
        z.subrange(c + 32, c + 34) == u16_bytes(0),
        z.subrange(c + 42, c + 46) == u32_bytes(off),
        z.subrange(c + 46, c + 46 + name.len()) == name,
{
    let r = central_record(name, data, off);
    lemma_central_fields(name, data, off);
    lemma_window(z, c, r, 0, 4);
    lemma_window(z, c, r, 10, 12);
    lemma_window(z, c, r, 20, 24);
    lemma_window(z, c, r, 24, 28);
    lemma_window(z, c, r, 28, 30);
    lemma_window(z, c, r, 30, 32);
    lemma_window(z, c, r, 32, 34);
    lemma_window(z, c, r, 42, 46);
    lemma_window(z, c, r, 46, 46 + name.len() as int);
}

/// A central record whose fields stand at `c` reads as the entry it
/// describes.
proof fn lemma_central_record_parses(z: Seq<u8>, c: int, name: Seq<u8>, data: Seq<u8>, off: nat)
    requires
        0 <= c,
        c + 46 + name.len() <= z.len(),
        c + 46 + name.len() <= usize::MAX,
        z.subrange(c, c + 4) == u32_bytes(CENTRAL_DIRECTORY_SIGNATURE as nat),
        z.subrange(c + 10, c + 12) == u16_bytes(0),
        z.subrange(c + 20, c + 24) == u32_bytes(data.len()),
        z.subrange(c + 24, c + 28) == u32_bytes(data.len()),
        z.subrange(c + 28, c + 30) == u16_bytes(name.len()),
        z.subrange(c + 30, c + 32) == u16_bytes(0),
        z.subrange(c + 32, c + 34) == u16_bytes(0),
        z.subrange(c + 42, c + 46) == u32_bytes(off),
        z.subrange(c + 46, c + 46 + name.len()) == name,
        name.len() <= 0xFFFF,
        data.len() <= 0xFFFF_FFFF,
        off <= 0xFFFF_FFFF,
        valid_utf8(name),
    ensures
        spec_cd_record(z, c) == Ok::<(EntryView, int), crate::error::Error>(
            (
                EntryView {
                    path: decode_utf8(name),
                    compression_method: 0,
                    compressed_size: data.len() as u32,
                    uncompressed_size: data.len() as u32,
                    local_header_offset: off as u32,
                },
                c + 46 + name.len(),
            ),
        ),
{
    lemma_le32_of_u32_bytes(z, c, CENTRAL_DIRECTORY_SIGNATURE as nat);
    lemma_le16_of_u16_bytes(z, c + 10, 0);
    lemma_le32_of_u32_bytes(z, c + 20, data.len());
    lemma_le32_of_u32_bytes(z, c + 24, data.len());
    lemma_le16_of_u16_bytes(z, c + 28, name.len());
    lemma_le16_of_u16_bytes(z, c + 30, 0);
    lemma_le16_of_u16_bytes(z, c + 32, 0);
    lemma_le32_of_u32_bytes(z, c + 42, off);
}

/// The central record of member `i` reads as its entry, followed by the
/// next record.
#[verifier::spinoff_prover]
#[verifier::rlimit(80)]
proof fn lemma_cd_record_reads(ms: Seq<(Seq<u8>, Seq<u8>)>, i: int)
    requires
        0 <= i < ms.len(),
        readable_write(ms),
    ensures
        spec_cd_record(spec_zip(ms), central_pos(ms, i)) == Ok::<(EntryView, int), crate::error::Error>(
            (entry_of(ms, i), central_pos(ms, i + 1)),
        ),
{
    let z = spec_zip(ms);
    let c = central_pos(ms, i);
    let name = ms[i].0;
    let data = ms[i].1;
    let off = spec_locals(ms.take(i)).len();
    lemma_zip_parts(ms, i);
    lemma_central_fields(name, data, off);
    lemma_locals_step(ms, i);
    assert(name.len() <= 0xFFFF && data.len() <= 0xFFFF_FFFF && off <= 0xFFFF_FFFF) by {
        assert(zip_fits(ms));
        let k = i;
        assert(ms[k].0.len() <= 0xFFFF && ms[k].1.len() <= 0xFFFF_FFFF && spec_locals(ms.take(k)).len()
            <= 0xFFFF_FFFF);
    }
    assert(valid_utf8(ms[i].0));
    lemma_central_windows(z, c, name, data, off);
    lemma_central_record_parses(z, c, name, data, off);
}

/// Parsing the central records from member `i` on lists every entry.
proof fn lemma_cd_entries_from(ms: Seq<(Seq<u8>, Seq<u8>)>, i: int)
    requires
        0 <= i <= ms.len(),
        readable_write(ms),
    ensures
        spec_cd_entries(spec_zip(ms), central_pos(ms, i), (ms.len() - i) as nat, written_entries(ms).take(i))
            == Ok::<Seq<EntryView>, crate::error::Error>(written_entries(ms)),
    decreases ms.len() - i,
{
    let w = written_entries(ms);
    if i == ms.len() {
        assert(w.take(i) =~= w);
    } else {
        lemma_cd_record_reads(ms, i);
        assert(w.take(i).push(entry_of(ms, i)) =~= w.take(i + 1));
        lemma_cd_entries_from(ms, i + 1);
    }
}

/// Searching down from `o` finds `target` when no signature stands between.
proof fn lemma_search_finds(z: Seq<u8>, o: int, start: int, target: int)
    requires
        0 <= start <= target <= o,
        target + 4 <= z.len(),
        le32(z, target) == EOCD_SIGNATURE,
        forall|q: int| target < q <= o ==> #[trigger] le32(z, q) != EOCD_SIGNATURE,
    ensures
        eocd_search(z, o, start) == Some(target),
    decreases o - target,
{
    if o > target {
        assert(le32(z, o) != EOCD_SIGNATURE);
        lemma_search_finds(z, o - 1, start, target);
    }
}

/// The reader lists exactly the written entries.
#[verifier::spinoff_prover]
#[verifier::rlimit(80)]
proof fn lemma_written_entries_listed(ms: Seq<(Seq<u8>, Seq<u8>)>)
    requires
        ms.len() >= 1,
        readable_write(ms),
        end_record_unambiguous(spec_zip(ms)),
    ensures
        spec_package_entries(spec_zip(ms)) == Ok::<Seq<EntryView>, crate::error::Error>(written_entries(ms)),
{
    let z = spec_zip(ms);
    let l = spec_locals(ms);
    let c = spec_central(ms);
    let n = ms.len();
    let e = eocd_record(n, c.len(), l.len());
    assert(ms.take(0) =~= Seq::<(Seq<u8>, Seq<u8>)>::empty());
    lemma_zip_parts(ms, 0);
    lemma_local_fields(ms[0].0, ms[0].1);
    lemma_window(z, 0, local_record(ms[0].0, ms[0].1), 0, 4);
    lemma_le32_of_u32_bytes(z, 0, LOCAL_FILE_SIGNATURE as nat);
    lemma_eocd_fields(n, c.len(), l.len());
    let o = z.len() - 22;
    assert(z.subrange(o, o + 22) =~= e);
    lemma_window(z, o, e, 0, 4);
    lemma_le32_of_u32_bytes(z, o, EOCD_SIGNATURE as nat);
    lemma_search_finds(z, sat_sub(z.len() as int, 4), sat_sub(z.len() as int, 65557), o);
    assert(spec_find_eocd(z) == Some(o));
    lemma_window(z, o, e, 10, 12);
    lemma_le16_of_u16_bytes(z, o + 10, n);
    lemma_window(z, o, e, 12, 16);
    lemma_le32_of_u32_bytes(z, o + 12, c.len());
    lemma_window(z, o, e, 16, 20);
    lemma_le32_of_u32_bytes(z, o + 16, l.len());
    lemma_cd_entries_from(ms, 0);
    assert(central_pos(ms, 0) == l.len());
    assert(written_entries(ms).take(0) =~= Seq::<EntryView>::empty());
}

/// The local record of member `i` yields the member's data.
#[verifier::spinoff_prover]
#[verifier::rlimit(100)]
proof fn lemma_local_data(ms: Seq<(Seq<u8>, Seq<u8>)>, i: int)
    requires
        0 <= i < ms.len(),
        readable_write(ms),
    ensures
        spec_entry_data(spec_zip(ms), entry_of(ms, i)) == Ok::<Seq<u8>, crate::error::Error>(ms[i].1),
{
    let z = spec_zip(ms);
    let name = ms[i].0;
    let data = ms[i].1;
    let off = spec_locals(ms.take(i)).len() as int;
    let r = local_record(name, data);
    lemma_zip_parts(ms, i);
    lemma_local_fields(name, data);
    assert(name.len() <= 0xFFFF && data.len() <= 0xFFFF_FFFF && off <= 0xFFFF_FFFF) by {
        assert(zip_fits(ms));
        let k = i;
        assert(ms[k].0.len() <= 0xFFFF && ms[k].1.len() <= 0xFFFF_FFFF && spec_locals(ms.take(k)).len()
            <= 0xFFFF_FFFF);
    }
    lemma_window(z, off, r, 0, 4);
    lemma_le32_of_u32_bytes(z, off, LOCAL_FILE_SIGNATURE as nat);
    lemma_window(z, off, r, 26, 28);
    lemma_le16_of_u16_bytes(z, off + 26, name.len());
    lemma_window(z, off, r, 28, 30);
    lemma_le16_of_u16_bytes(z, off + 28, 0);
    lemma_window(z, off, r, 30 + name.len() as int, 30 + name.len() + data.len() as int);
}

/// The first entry with a path is the one that `find_entry` returns.
proof fn lemma_find_first(es: Seq<EntryView>, p: Seq<char>, i: int)
    requires
        0 <= i < es.len(),
        es[i].path == p,
        forall|j: int| 0 <= j < i ==> es[j].path != p,
    ensures
        find_entry(es, p) == Some(es[i]),
    decreases i,
{
    if i > 0 {
        assert(es[0].path != p);
        lemma_find_first(es.drop_first(), p, i - 1);
    }
}

/// Law: a package read back from the bytes the package writer produced lists
/// one stored entry per written member, in order, under the member's path,
/// and reading the first member written under a path gives back its data.
/// It holds of every non-empty write that fits a plain ZIP archive, whose
/// end record contains no second end-record signature.
pub proof fn lemma_package_writer_round_trip(ws: Seq<(Seq<char>, Seq<u8>)>)
    requires
        ws.len() >= 1,
        zip_fits(member_bytes(ws)),
        spec_zip(member_bytes(ws)).len() <= usize::MAX,
        end_record_unambiguous(spec_zip(member_bytes(ws))),
    ensures
        spec_package_entries(spec_zip(member_bytes(ws))) == Ok::<Seq<EntryView>, crate::error::Error>(
            written_entries(member_bytes(ws)),
        ),
        forall|i: int| 0 <= i < ws.len() ==> (#[trigger] written_entries(member_bytes(ws))[i]).path == ws[i].0,
        forall|i: int|
            0 <= i < ws.len() && (forall|j: int| 0 <= j < i ==> ws[j].0 != ws[i].0) ==> spec_entry_outcome(
                PackageView { bytes: spec_zip(member_bytes(ws)), entries: written_entries(member_bytes(ws)) },
                #[trigger] ws[i].0,
            ) == EntryReadView::Data(ws[i].1),
{
    broadcast use vstd::utf8::encode_utf8_valid_utf8, vstd::utf8::encode_utf8_decode_utf8;

    let ms = member_bytes(ws);
    let es = written_entries(ms);
    assert forall|i: int| 0 <= i < ms.len() implies valid_utf8(#[trigger] ms[i].0) by {
        assert(ms[i].0 == encode_utf8(ws[i].0));
    }
    assert(readable_write(ms));
    lemma_written_entries_listed(ms);
    assert forall|i: int| 0 <= i < ws.len() implies (#[trigger] es[i]).path == ws[i].0 by {
        assert(ms[i].0 == encode_utf8(ws[i].0));
    }
    assert forall|i: int|
        0 <= i < ws.len() && (forall|j: int| 0 <= j < i ==> ws[j].0 != ws[i].0) implies spec_entry_outcome(
        PackageView { bytes: spec_zip(ms), entries: es },
        #[trigger] ws[i].0,
    ) == EntryReadView::Data(ws[i].1) by {
        assert forall|j: int| 0 <= j < i implies es[j].path != ws[i].0 by {
            assert(ms[j].0 == encode_utf8(ws[j].0));
            assert(es[j].path == ws[j].0);
        }
        assert(ms[i].0 == encode_utf8(ws[i].0));
        lemma_find_first(es, ws[i].0, i);
        lemma_local_data(ms, i);
        assert(ms[i].1 == ws[i].1);
    }
}

/// The package view of the bytes written for `ws`, as the reader lists it.
pub open spec fn written_package(ws: Seq<(Seq<char>, Seq<u8>)>) -> PackageView {
    PackageView { bytes: spec_zip(member_bytes(ws)), entries: written_entries(member_bytes(ws)) }
}

/// The first member written under a path reads back, through the package
/// the reader lists, as its data; its data fits a ZIP member.
pub proof fn lemma_member_read(ws: Seq<(Seq<char>, Seq<u8>)>, i: int)
    requires
        0 <= i < ws.len(),
        zip_fits(member_bytes(ws)),
        spec_zip(member_bytes(ws)).len() <= usize::MAX,
        end_record_unambiguous(spec_zip(member_bytes(ws))),
        forall|j: int| 0 <= j < i ==> (#[trigger] ws[j]).0 != ws[i].0,
    ensures
        spec_package_entries(spec_zip(member_bytes(ws))) == Ok::<Seq<EntryView>, crate::error::Error>(
            written_package(ws).entries,
        ),
        spec_entry_outcome(written_package(ws), ws[i].0) == EntryReadView::Data(ws[i].1),
        ws[i].1.len() <= 0xFFFF_FFFF,
{
    lemma_package_writer_round_trip(ws);
    assert(member_bytes(ws)[i].1 == ws[i].1);
}

} // verus!
