//! The string lists (`DataList` archives) that resolve a table's text cells.
use crate::iwa::{leading_len, IwaArchive};
use crate::protobuf::{
    bytes_value, first_field, lemma_read_varint_advances, read_varint, spec_decode_message, spec_read_varint,
    varint_value, ProtoMessage,
};
use crate::text::{opt_utf8_chars, string_from_utf8};
use vstd::prelude::*;

verus! {

broadcast use vstd::std_specs::hash::group_hash_axioms;

/// What is left of `len` bytes from `c` on.
pub open spec fn remaining(len: nat, c: int) -> nat {
    if 0 <= c < len {
        (len - c) as nat
    } else {
        0
    }
}

/// `a + b`, capped at `usize::MAX`.
pub open spec fn saturating_add(a: int, b: int) -> int {
    if a + b > usize::MAX {
        usize::MAX as int
    } else {
        a + b
    }
}

/// The entry a list record contributes: a message with a varint key in
/// field 1 that fits in 32 bits and UTF-8 text in field 3.
pub open spec fn datalist_entry(chunk: Seq<u8>) -> Option<(u32, Seq<char>)> {
    match spec_decode_message(chunk) {
        Ok(fs) => match varint_value(first_field(fs, 1)) {
            Some(k) => if k <= u32::MAX {
                match opt_utf8_chars(bytes_value(first_field(fs, 3))) {
                    Some(s) => Some((k as u32, s)),
                    None => None,
                }
            } else {
                None
            },
            None => None,
        },
        Err(_) => None,
    }
}

/// Scanning a list body from `c`: each length-delimited record that is an
/// entry sets its key to its text (a later record wins); varint and fixed
/// fields are skipped; the scan stops at an unreadable tag or length, a
/// group wire type, or a record that runs past the body.
pub open spec fn datalist_scan(body: Seq<u8>, c: int, m: Map<u32, Seq<char>>) -> Map<u32, Seq<char>>
    decreases remaining(body.len(), c),
{
    if c < 0 || c >= body.len() || body.len() > usize::MAX {
        m
    } else {
        let (tr, c1) = spec_read_varint(body, c);
        proof {
            lemma_read_varint_advances(body, c);
        }
        match tr {
            Err(_) => m,
            Ok(tag) => {
                let wt = tag & 7;
                if wt == 0 {
                    proof {
                        lemma_read_varint_advances(body, c1);
                    }
                    datalist_scan(body, spec_read_varint(body, c1).1, m)
                } else if wt == 1 {
                    datalist_scan(body, saturating_add(c1, 8), m)
                } else if wt == 5 {
                    datalist_scan(body, saturating_add(c1, 4), m)
                } else if wt == 2 {
                    let (lr, c2) = spec_read_varint(body, c1);
                    proof {
                        lemma_read_varint_advances(body, c1);
                    }
                    match lr {
                        Err(_) => m,
                        Ok(len) => if len > usize::MAX || c2 + len > usize::MAX || c2 + len > body.len() {
                            m
                        } else {
                            let c3 = c2 + len;
                            match datalist_entry(body.subrange(c2, c3)) {
                                Some((k, s)) => datalist_scan(body, c3, m.insert(k, s)),
                                None => datalist_scan(body, c3, m),
                            }
                        },
                    }
                } else {
                    m
                }
            },
        }
    }
}

/// The key-to-text map of a `DataList` archive: its body scanned from the
/// end of the leading reference records.
pub open spec fn spec_string_datalist(body: Seq<u8>) -> Map<u32, Seq<char>> {
    datalist_scan(body, leading_len(body, 0), Map::empty())
}

/// The texts of a map of strings.
pub open spec fn string_map_view(m: Map<u32, String>) -> Map<u32, Seq<char>> {
    m.map_values(|s: String| s@)
}

fn datalist_entry_of(chunk: &[u8]) -> (r: Option<(u32, String)>)
    ensures
        match datalist_entry(chunk@) {
            Some((k, s)) => r matches Some((x, t)) && x == k && t@ == s,
            None => r is None,
        },
{
    let msg = match ProtoMessage::decode(chunk) {
        Ok(m) => m,
        Err(_) => return None,
    };
    let key = match msg.field(1) {
        Some(f) => match f.value.as_varint() {
            Some(k) => k,
            None => return None,
        },
        None => return None,
    };
    if key > 0xffff_ffff {
        return None;
    }
    let text = match msg.field(3) {
        Some(f) => match f.value.as_bytes() {
            Some(b) => b,
            None => return None,
        },
        None => return None,
    };
    match string_from_utf8(crate::protobuf::copy_bytes(text)) {
        Some(s) => Some((key as u32, s)),
        None => None,
    }
}

/// Parses the string entries of a `DataList` archive into a key-to-text map
/// (see [`spec_string_datalist`]).
pub fn decode_string_datalist(archive: &IwaArchive) -> (r: std::collections::HashMap<u32, String>)
    ensures
        string_map_view(r@) == spec_string_datalist(archive@.body),
{
    let mut map: std::collections::HashMap<u32, String> = std::collections::HashMap::new();
    assert(string_map_view(map@) =~= Map::<u32, Seq<char>>::empty());
    decode_string_datalist_into(archive, &mut map);
    map
}

/// Adds the string entries of a `DataList` archive to `map`, an entry of the
/// archive replacing one of the map with its key.
pub fn decode_string_datalist_into(archive: &IwaArchive, map: &mut std::collections::HashMap<u32, String>)
    ensures
        string_map_view(final(map)@) == datalist_scan(
            archive@.body,
            leading_len(archive@.body, 0),
            string_map_view(old(map)@),
        ),
{
    let body = archive.body();
    let mut cursor = archive.leading_object_references_len();
    let ghost target = datalist_scan(body@, leading_len(body@, 0), string_map_view(map@));
    while cursor < body.len()
        invariant_except_break
            target == datalist_scan(body@, cursor as int, string_map_view(map@)),
        invariant
            target == datalist_scan(body@, leading_len(body@, 0), string_map_view(old(map)@)),
        ensures
            target == string_map_view(map@),
        decreases remaining(body@.len(), cursor as int),
    {
        let ghost c0 = cursor as int;
        proof {
            lemma_read_varint_advances(body@, c0);
        }
        let tag = match read_varint(body, &mut cursor) {
            Ok(t) => t,
            Err(_) => break,
        };
        let ghost c1 = cursor as int;
        proof {
            lemma_read_varint_advances(body@, c1);
        }
        let wire_type = tag & 0x07;
        if wire_type == 0 {
            let _ = read_varint(body, &mut cursor);
        } else if wire_type == 1 {
            cursor = cursor.saturating_add(8);
        } else if wire_type == 5 {
            cursor = cursor.saturating_add(4);
        } else if wire_type == 2 {
            let lv = match read_varint(body, &mut cursor) {
                Ok(l) => l,
                Err(_) => break,
            };
            if lv > usize::MAX as u64 {
                break;
            }
            let end = match cursor.checked_add(lv as usize) {
                Some(e) => e,
                None => break,
            };
            if end > body.len() {
                break;
            }
            let entry = datalist_entry_of(&body[cursor..end]);
            cursor = end;
            if let Some((k, s)) = entry {
                let ghost before = string_map_view(map@);
                let ghost sv = s@;
                map.insert(k, s);
                assert(string_map_view(map@) =~= before.insert(k, sv));
            }
        } else {
            break;
        }
    }
}

} // verus!
