//! Sheets (message type 2): a sheet's name and the tables it holds.
use crate::iwa::{decode_payload, field_bytes, payload_fields, IwaObject, ObjectView};
use crate::keynote::presentation::opt_view;
use crate::numbers::table_model::{reference_id, text_of, TABLE_MODEL_TYPE};
use crate::numbers::types::opt_str_view;
use crate::protobuf::{
    lemma_decode_from_shorter, nested_message, spec_decode_message, ProtoField, ProtoFieldView, ProtoMessage,
    ProtoValue, ProtoValueView,
};
use crate::error::Error;
use crate::text::opt_utf8_string;
use vstd::prelude::*;

verus! {

/// Message type of a sheet.
pub const SHEET_TYPE: u64 = 2;

/// Message type of the wrapper between a sheet and a table model.
pub const TABLE_INFO_TYPE: u64 = 6000;

/// Field of a sheet holding its object references.
pub const FIELD_OBJECT_REFERENCES: u32 = 2;

/// A sheet: its name, its object references, and the table wrappers and
/// table models among them, in sheet order.
#[derive(Debug, Clone, PartialEq, Eq)]
pub struct Sheet {
    id: u64,
    name: Option<String>,
    object_reference_ids: Vec<u64>,
    table_info_ids: Vec<u64>,
    table_model_ids: Vec<u64>,
}

/// The mathematical content of a [`Sheet`].
pub struct SheetView {
    pub id: u64,
    pub name: Option<Seq<char>>,
    pub object_reference_ids: Seq<u64>,
    pub table_info_ids: Seq<u64>,
    pub table_model_ids: Seq<u64>,
}

impl View for Sheet {
    type V = SheetView;

    closed spec fn view(&self) -> SheetView {
        SheetView {
            id: self.id,
            name: opt_view(self.name),
            object_reference_ids: self.object_reference_ids@,
            table_info_ids: self.table_info_ids@,
            table_model_ids: self.table_model_ids@,
        }
    }
}

/// The view of wrapper-to-model pairs.
pub open spec fn pairs_view(p: Seq<(u64, Vec<u64>)>) -> Seq<(u64, Seq<u64>)> {
    p.map_values(|x: (u64, Vec<u64>)| (x.0, x.1@))
}

/// The models of wrapper `k`: those of the last pair keyed `k`.
pub open spec fn lookup_models(pairs: Seq<(u64, Seq<u64>)>, k: u64) -> Option<Seq<u64>>
    decreases pairs.len(),
{
    if pairs.len() == 0 {
        None
    } else if pairs.last().0 == k {
        Some(pairs.last().1)
    } else {
        lookup_models(pairs.drop_last(), k)
    }
}

/// `s` without repeats, each value at its first place.
pub open spec fn dedup_first(s: Seq<u64>) -> Seq<u64>
    decreases s.len(),
{
    if s.len() == 0 {
        seq![]
    } else {
        let r = dedup_first(s.drop_last());
        if r.contains(s.last()) {
            r
        } else {
            r.push(s.last())
        }
    }
}

/// The values of `s` that are in `keep`, in order.
pub open spec fn kept(s: Seq<u64>, keep: Seq<u64>) -> Seq<u64>
    decreases s.len(),
{
    if s.len() == 0 {
        seq![]
    } else {
        let r = kept(s.drop_last(), keep);
        if keep.contains(s.last()) {
            r.push(s.last())
        } else {
            r
        }
    }
}

/// The values of `s` that are not in `drop`, in order.
pub open spec fn not_in(s: Seq<u64>, drop: Seq<u64>) -> Seq<u64>
    decreases s.len(),
{
    if s.len() == 0 {
        seq![]
    } else {
        let r = not_in(s.drop_last(), drop);
        if drop.contains(s.last()) {
            r
        } else {
            r.push(s.last())
        }
    }
}

/// The varints of the message `bytes` encode, depth first; nothing when the
/// bytes are no message.
pub open spec fn varints_in(bytes: Seq<u8>) -> Seq<u64>
    decreases bytes.len(), 1int, 0int,
{
    match spec_decode_message(bytes) {
        Ok(fs) => varints_of(fs, bytes, fs.len() as int),
        Err(_) => seq![],
    }
}

/// The varints of the first `n` fields of a message decoded from `parent`,
/// depth first.
pub open spec fn varints_of(fs: Seq<ProtoFieldView>, parent: Seq<u8>, n: int) -> Seq<u64>
    decreases parent.len(), 0int, n,
{
    if n <= 0 || n > fs.len() {
        seq![]
    } else {
        let rest = varints_of(fs, parent, n - 1);
        match fs[n - 1].value {
            ProtoValueView::Varint(v) => rest.push(v),
            ProtoValueView::LengthDelimited(b) => if b.len() < parent.len() {
                rest + varints_in(b)
            } else {
                rest
            },
            _ => rest,
        }
    }
}

/// The identifiers of the table models among `objs`, in order.
pub open spec fn model_ids(objs: Seq<ObjectView>) -> Seq<u64>
    decreases objs.len(),
{
    if objs.len() == 0 {
        seq![]
    } else {
        let r = model_ids(objs.drop_last());
        let o = objs.last();
        if o.message_type == Some(TABLE_MODEL_TYPE) && o.identifier is Some {
            r.push(o.identifier->0)
        } else {
            r
        }
    }
}

/// The pair a wrapper object contributes: its identifier and the known model
/// identifiers among the varints of its payload, without repeats, if any.
pub open spec fn info_pair(o: ObjectView, models: Seq<u64>) -> Option<(u64, Seq<u64>)> {
    if o.message_type != Some(TABLE_INFO_TYPE) {
        None
    } else {
        match (o.identifier, payload_fields(o)) {
            (Some(id), Some(_)) => {
                let ms = dedup_first(kept(varints_in(o.payload), models));
                if ms.len() == 0 {
                    None
                } else {
                    Some((id, ms))
                }
            },
            _ => None,
        }
    }
}

/// The pairs of the first `n` objects.
pub open spec fn info_pairs_of(objs: Seq<ObjectView>, models: Seq<u64>, n: int) -> Seq<(u64, Seq<u64>)>
    decreases n,
{
    if n <= 0 || n > objs.len() {
        seq![]
    } else {
        let r = info_pairs_of(objs, models, n - 1);
        match info_pair(objs[n - 1], models) {
            Some(p) => r.push(p),
            None => r,
        }
    }
}

/// Wrapper-to-model pairs of a set of objects.
pub open spec fn spec_info_pairs(objs: Seq<ObjectView>) -> Seq<(u64, Seq<u64>)> {
    info_pairs_of(objs, model_ids(objs), objs.len() as int)
}

/// The reference identifiers of the fields numbered 2 of a sheet message.
pub open spec fn reference_ids(fs: Seq<ProtoFieldView>) -> Seq<u64>
    decreases fs.len(),
{
    if fs.len() == 0 {
        seq![]
    } else {
        let r = reference_ids(fs.drop_last());
        if fs.last().number == FIELD_OBJECT_REFERENCES {
            match reference_id(nested_message(fs.last().value)) {
                Some(id) => r.push(id),
                None => r,
            }
        } else {
            r
        }
    }
}

/// The identifiers of `ids` that are wrapper keys of `pairs`.
pub open spec fn wrapper_ids(ids: Seq<u64>, pairs: Seq<(u64, Seq<u64>)>) -> Seq<u64>
    decreases ids.len(),
{
    if ids.len() == 0 {
        seq![]
    } else {
        let r = wrapper_ids(ids.drop_last(), pairs);
        if lookup_models(pairs, ids.last()) is Some {
            r.push(ids.last())
        } else {
            r
        }
    }
}

/// The models of the wrappers `infos`, concatenated in order.
pub open spec fn models_of(infos: Seq<u64>, pairs: Seq<(u64, Seq<u64>)>) -> Seq<u64>
    decreases infos.len(),
{
    if infos.len() == 0 {
        seq![]
    } else {
        models_of(infos.drop_last(), pairs) + match lookup_models(pairs, infos.last()) {
            Some(ms) => ms,
            None => seq![],
        }
    }
}

/// The sheet an object decodes to, given the wrapper-to-model pairs.
pub open spec fn spec_sheet(o: ObjectView, pairs: Seq<(u64, Seq<u64>)>) -> Option<SheetView> {
    if o.message_type != Some(SHEET_TYPE) {
        None
    } else {
        match (o.identifier, payload_fields(o)) {
            (Some(id), Some(fs)) => {
                let refs = reference_ids(fs);
                let infos = wrapper_ids(refs, pairs);
                Some(
                    SheetView {
                        id,
                        name: text_of(fs, 1),
                        object_reference_ids: refs,
                        table_info_ids: infos,
                        table_model_ids: dedup_first(models_of(infos, pairs)),
                    },
                )
            },
            _ => None,
        }
    }
}

/// The sheets among `objs`, in order.
pub open spec fn spec_sheets_of(objs: Seq<ObjectView>, pairs: Seq<(u64, Seq<u64>)>) -> Seq<SheetView>
    decreases objs.len(),
{
    if objs.len() == 0 {
        seq![]
    } else {
        let r = spec_sheets_of(objs.drop_last(), pairs);
        match spec_sheet(objs.last(), pairs) {
            Some(s) => r.push(s),
            None => r,
        }
    }
}

/// Whether `x` is one of `v`.
pub fn contains_id(v: &[u64], x: u64) -> (r: bool)
    ensures
        r == v@.contains(x),
{
    let mut i: usize = 0;
    while i < v.len()
        invariant
            i <= v@.len(),
            forall|j: int| 0 <= j < i ==> v@[j] != x,
        decreases v.len() - i,
    {
        if v[i] == x {
            return true;
        }
        i = i + 1;
    }
    false
}

fn dedup_ids(s: &Vec<u64>) -> (r: Vec<u64>)
    ensures
        r@ == dedup_first(s@),
{
    let mut out: Vec<u64> = Vec::new();
    let mut i: usize = 0;
    while i < s.len()
        invariant
            i <= s@.len(),
            out@ == dedup_first(s@.take(i as int)),
        decreases s.len() - i,
    {
        assert(s@.take(i + 1).drop_last() =~= s@.take(i as int));
        if !contains_id(out.as_slice(), s[i]) {
            out.push(s[i]);
        }
        i = i + 1;
    }
    assert(s@.take(s@.len() as int) =~= s@);
    out
}

fn keep_ids(s: &Vec<u64>, keep: &Vec<u64>) -> (r: Vec<u64>)
    ensures
        r@ == kept(s@, keep@),
{
    let mut out: Vec<u64> = Vec::new();
    let mut i: usize = 0;
    while i < s.len()
        invariant
            i <= s@.len(),
            out@ == kept(s@.take(i as int), keep@),
        decreases s.len() - i,
    {
        assert(s@.take(i + 1).drop_last() =~= s@.take(i as int));
        if contains_id(keep.as_slice(), s[i]) {
            out.push(s[i]);
        }
        i = i + 1;
    }
    assert(s@.take(s@.len() as int) =~= s@);
    out
}

/// The models recorded for wrapper `k`, if any.
pub fn lookup(pairs: &Vec<(u64, Vec<u64>)>, k: u64) -> (r: Option<&Vec<u64>>)
    ensures
        match lookup_models(pairs_view(pairs@), k) {
            Some(ms) => r matches Some(v) && v@ == ms,
            None => r is None,
        },
{
    let ghost pv = pairs_view(pairs@);
    let mut i: usize = pairs.len();
    assert(pv.take(pairs@.len() as int) =~= pv);
    while i > 0
        invariant
            i <= pairs@.len(),
            pv == pairs_view(pairs@),
            lookup_models(pv, k) == lookup_models(pv.take(i as int), k),
        decreases i,
    {
        assert(pv.take(i as int).drop_last() =~= pv.take(i - 1));
        assert(pv.take(i as int).last() == (pairs@[i - 1].0, pairs@[i - 1].1@));
        if pairs[i - 1].0 == k {
            return Some(&pairs[i - 1].1);
        }
        i = i - 1;
    }
    None
}

fn collect_varints_into(m: &ProtoMessage, Ghost(parent): Ghost<Seq<u8>>, out: &mut Vec<u64>)
    requires
        spec_decode_message(parent) == Ok::<Seq<ProtoFieldView>, Error>(m@),
    ensures
        final(out)@ == old(out)@ + varints_of(m@, parent, m@.len() as int),
    decreases parent.len(),
{
    proof {
        lemma_decode_from_shorter(parent, 0);
    }
    let fields = m.fields();
    let ghost fs = m@;
    let mut i: usize = 0;
    assert(old(out)@ + varints_of(fs, parent, 0) =~= old(out)@);
    while i < fields.len()
        invariant
            i <= fields@.len(),
            fs == m@,
            fields@.map_values(|f: ProtoField| f@) == fs,
            spec_decode_message(parent) == Ok::<Seq<ProtoFieldView>, Error>(fs),
            forall|j: int| 0 <= j < fs.len() ==> value_size_lt(#[trigger] fs[j].value, parent.len()),
            out@ == old(out)@ + varints_of(fs, parent, i as int),
        decreases fields.len() - i,
    {
        assert(fs[i as int] == fields@[i as int]@);
        assert(value_size_lt(fs[i as int].value, parent.len()));
        let ghost before = out@;
        match &fields[i].value {
            ProtoValue::Varint(v) => {
                out.push(*v);
                assert(out@ =~= old(out)@ + varints_of(fs, parent, i + 1));
            },
            ProtoValue::LengthDelimited(b) => {
                assert(fs[i as int].value == ProtoValueView::LengthDelimited(b@));
                assert(b@.len() < parent.len());
                assert(varints_of(fs, parent, i + 1) == varints_of(fs, parent, i as int) + varints_in(b@));
                match ProtoMessage::decode(b.as_slice()) {
                    Ok(nested) => {
                        assert(varints_in(b@) == varints_of(nested@, b@, nested@.len() as int));
                        collect_varints_into(&nested, Ghost(b@), out);
                        assert(out@ =~= old(out)@ + varints_of(fs, parent, i + 1));
                    },
                    Err(_) => {
                        assert(out@ =~= old(out)@ + varints_of(fs, parent, i + 1));
                    },
                }
            },
            _ => {},
        }
        i = i + 1;
    }
}

/// Whether a length-delimited value is shorter than `n`.
pub open spec fn value_size_lt(v: ProtoValueView, n: nat) -> bool {
    crate::protobuf::value_size(v) < n
}

fn info_pair_of(o: &IwaObject, models: &Vec<u64>) -> (r: Option<(u64, Vec<u64>)>)
    ensures
        match info_pair(o@, models@) {
            Some(p) => r matches Some(x) && x.0 == p.0 && x.1@ == p.1,
            None => r is None,
        },
{
    if o.message_type != Some(TABLE_INFO_TYPE) {
        return None;
    }
    let id = match o.identifier {
        Some(id) => id,
        None => return None,
    };
    let m = match decode_payload(o) {
        Some(m) => m,
        None => return None,
    };
    let mut all: Vec<u64> = Vec::new();
    collect_varints_into(&m, Ghost(o.payload@), &mut all);
    assert(all@ =~= varints_in(o@.payload));
    let ks = keep_ids(&all, models);
    let ms = dedup_ids(&ks);
    if ms.len() == 0 {
        None
    } else {
        Some((id, ms))
    }
}

/// Builds the wrapper-to-model pairs of a set of objects (see
/// [`spec_info_pairs`]).
pub fn table_info_to_model_ids(objects: &Vec<IwaObject>) -> (r: Vec<(u64, Vec<u64>)>)
    ensures
        pairs_view(r@) == spec_info_pairs(objects@.map_values(|o: IwaObject| o@)),
{
    let ghost all = objects@.map_values(|o: IwaObject| o@);
    let mut models: Vec<u64> = Vec::new();
    let mut i: usize = 0;
    while i < objects.len()
        invariant
            i <= objects@.len(),
            all == objects@.map_values(|o: IwaObject| o@),
            models@ == model_ids(all.take(i as int)),
        decreases objects.len() - i,
    {
        assert(all.take(i + 1).drop_last() =~= all.take(i as int));
        assert(all.take(i + 1).last() == objects@[i as int]@);
        if objects[i].message_type == Some(TABLE_MODEL_TYPE) {
            if let Some(id) = objects[i].identifier {
                models.push(id);
            }
        }
        i = i + 1;
    }
    assert(all.take(objects@.len() as int) =~= all);
    let mut out: Vec<(u64, Vec<u64>)> = Vec::new();
    let mut k: usize = 0;
    while k < objects.len()
        invariant
            k <= objects@.len(),
            all == objects@.map_values(|o: IwaObject| o@),
            models@ == model_ids(all),
            pairs_view(out@) == info_pairs_of(all, models@, k as int),
        decreases objects.len() - k,
    {
        assert(all[k as int] == objects@[k as int]@);
        let ghost before = pairs_view(out@);
        if let Some(p) = info_pair_of(&objects[k], &models) {
            let ghost pv = (p.0, p.1@);
            out.push(p);
            assert(pairs_view(out@) =~= before.push(pv));
        } else {
        }
        k = k + 1;
    }
    out
}

fn reference_of_value(v: &ProtoValue) -> (r: Option<u64>)
    ensures
        r == reference_id(nested_message(v@)),
{
    match v {
        ProtoValue::LengthDelimited(b) => match ProtoMessage::decode(b.as_slice()) {
            Ok(m) => match m.field(1) {
                Some(f) => f.value.as_varint(),
                None => None,
            },
            Err(_) => None,
        },
        _ => None,
    }
}

/// The view of an optional sheet.
pub open spec fn opt_sheet_view(s: Option<Sheet>) -> Option<SheetView> {
    match s {
        Some(x) => Some(x@),
        None => None,
    }
}

impl Sheet {
    /// Decodes an object as a sheet, given the wrapper-to-model pairs (see
    /// [`spec_sheet`]).
    pub fn from_object(object: &IwaObject, pairs: &Vec<(u64, Vec<u64>)>) -> (r: Option<Sheet>)
        ensures
            opt_sheet_view(r) == spec_sheet(object@, pairs_view(pairs@)),
    {
        if object.message_type != Some(SHEET_TYPE) {
            return None;
        }
        let id = match object.identifier {
            Some(id) => id,
            None => return None,
        };
        let m = match decode_payload(object) {
            Some(m) => m,
            None => return None,
        };
        let ghost pv = pairs_view(pairs@);
        let name = opt_utf8_string(field_bytes(&m, 1));
        let fields = m.fields();
        let ghost fs = m@;
        let mut refs: Vec<u64> = Vec::new();
        let mut i: usize = 0;
        while i < fields.len()
            invariant
                i <= fields@.len(),
                fs == m@,
                fields@.map_values(|f: ProtoField| f@) == fs,
                refs@ == reference_ids(fs.take(i as int)),
            decreases fields.len() - i,
        {
            assert(fs.take(i + 1).drop_last() =~= fs.take(i as int));
            assert(fs.take(i + 1).last() == fields@[i as int]@);
            if fields[i].number == FIELD_OBJECT_REFERENCES {
                if let Some(r) = reference_of_value(&fields[i].value) {
                    refs.push(r);
                }
            }
            i = i + 1;
        }
        assert(fs.take(fields@.len() as int) =~= fs);
        let mut infos: Vec<u64> = Vec::new();
        let mut flat: Vec<u64> = Vec::new();
        let mut j: usize = 0;
        while j < refs.len()
            invariant
                j <= refs@.len(),
                pv == pairs_view(pairs@),
                infos@ == wrapper_ids(refs@.take(j as int), pv),
                flat@ == models_of(infos@, pv),
            decreases refs.len() - j,
        {
            assert(refs@.take(j + 1).drop_last() =~= refs@.take(j as int));
            match lookup(pairs, refs[j]) {
                Some(ms) => {
                    let ghost before = infos@;
                    infos.push(refs[j]);
                    assert(infos@.drop_last() =~= before);
                    let mut k: usize = 0;
                    let ghost base = flat@;
                    while k < ms.len()
                        invariant
                            k <= ms@.len(),
                            flat@ == base + ms@.take(k as int),
                        decreases ms.len() - k,
                    {
                        flat.push(ms[k]);
                        assert(ms@.take(k + 1) =~= ms@.take(k as int).push(ms@[k as int]));
                        assert(flat@ =~= base + ms@.take(k + 1));
                        k = k + 1;
                    }
                    assert(ms@.take(ms@.len() as int) =~= ms@);
                },
                None => {},
            }
            j = j + 1;
        }
        assert(refs@.take(refs@.len() as int) =~= refs@);
        let models = dedup_ids(&flat);
        Some(Sheet { id, name, object_reference_ids: refs, table_info_ids: infos, table_model_ids: models })
    }

    /// Decodes the sheets among `objects`, in order.
    pub fn collect(objects: &Vec<IwaObject>, pairs: &Vec<(u64, Vec<u64>)>) -> (r: Vec<Sheet>)
        ensures
            r@.map_values(|s: Sheet| s@) == spec_sheets_of(
                objects@.map_values(|o: IwaObject| o@),
                pairs_view(pairs@),
            ),
    {
        let ghost all = objects@.map_values(|o: IwaObject| o@);
        let mut out: Vec<Sheet> = Vec::new();
        let mut i: usize = 0;
        while i < objects.len()
            invariant
                i <= objects@.len(),
                all == objects@.map_values(|o: IwaObject| o@),
                out@.map_values(|s: Sheet| s@) == spec_sheets_of(all.take(i as int), pairs_view(pairs@)),
            decreases objects.len() - i,
        {
            assert(all.take(i + 1).drop_last() =~= all.take(i as int));
            assert(all.take(i + 1).last() == objects@[i as int]@);
            let ghost before = out@.map_values(|s: Sheet| s@);
            if let Some(s) = Sheet::from_object(&objects[i], pairs) {
                out.push(s);
                assert(out@.map_values(|s: Sheet| s@) =~= before.push(s@));
            }
            i = i + 1;
        }
        assert(all.take(objects@.len() as int) =~= all);
        out
    }

    /// The sheet object's identifier within the package.
    pub fn id(&self) -> (r: u64)
        ensures
            r == self@.id,
    {
        self.id
    }

    /// The sheet's display name, if present.
    pub fn name(&self) -> (r: Option<&str>)
        ensures
            opt_str_view(r) == self@.name,
    {
        match &self.name {
            Some(s) => Some(s.as_str()),
            None => None,
        }
    }

    /// Identifiers from the sheet's object-reference list, in stored order.
    pub fn object_reference_ids(&self) -> (r: &[u64])
        ensures
            r@ == self@.object_reference_ids,
    {
        self.object_reference_ids.as_slice()
    }

    /// Identifiers of the table wrappers the sheet references, in sheet order.
    pub fn table_info_ids(&self) -> (r: &[u64])
        ensures
            r@ == self@.table_info_ids,
    {
        self.table_info_ids.as_slice()
    }

    /// The sheet's object references that are not table wrappers, in order.
    pub fn non_table_object_reference_ids(&self) -> (r: Vec<u64>)
        ensures
            r@ == not_in(self@.object_reference_ids, self@.table_info_ids),
    {
        let s = &self.object_reference_ids;
        let mut out: Vec<u64> = Vec::new();
        let mut i: usize = 0;
        while i < s.len()
            invariant
                i <= s@.len(),
                s@ == self@.object_reference_ids,
                out@ == not_in(s@.take(i as int), self@.table_info_ids),
            decreases s.len() - i,
        {
            assert(s@.take(i + 1).drop_last() =~= s@.take(i as int));
            if !contains_id(self.table_info_ids.as_slice(), s[i]) {
                out.push(s[i]);
            }
            i = i + 1;
        }
        assert(s@.take(s@.len() as int) =~= s@);
        out
    }

    /// Identifiers of the table models of this sheet, in sheet order.
    pub fn table_model_ids(&self) -> (r: &[u64])
        ensures
            r@ == self@.table_model_ids,
    {
        self.table_model_ids.as_slice()
    }
}

proof fn lemma_not_in_filter(s: Seq<u64>, drop: Seq<u64>)
    ensures
        not_in(s, drop) == s.filter(|id: u64| !drop.contains(id)),
    decreases s.len(),
{
    reveal(Seq::filter);
    if s.len() > 0 {
        lemma_not_in_filter(s.drop_last(), drop);
    }
}

/// Law: the references of a sheet that name no table are its stored
/// references, in stored order, with the table-info ids filtered out; each
/// stored reference is a table-info id or one of them.
pub proof fn lemma_non_table_references(sheet: SheetView)
    ensures
        not_in(sheet.object_reference_ids, sheet.table_info_ids) == sheet.object_reference_ids.filter(
            |id: u64| !sheet.table_info_ids.contains(id),
        ),
        forall|k: int|
            0 <= k < sheet.object_reference_ids.len() ==> sheet.table_info_ids.contains(
                #[trigger] sheet.object_reference_ids[k],
            ) || not_in(sheet.object_reference_ids, sheet.table_info_ids).contains(sheet.object_reference_ids[k]),
{
    let s = sheet.object_reference_ids;
    let drop = sheet.table_info_ids;
    lemma_not_in_filter(s, drop);
    let pred = |id: u64| !drop.contains(id);
    assert forall|k: int| 0 <= k < s.len() implies drop.contains(#[trigger] s[k]) || not_in(s, drop).contains(s[k]) by {
        if !drop.contains(s[k]) {
            s.filter_lemma(pred);
            assert(s.filter(pred).contains(s[k]));
        }
    }
}

} // verus!
