//! The layout-driven codec engine.
//!
//! One generic encode/decode pair, driven by a `FieldLayout`, maps message
//! values onto little-endian byte strings. Encoding fails exactly on a
//! message that does not conform to the layout (an unencodable message);
//! decoding fails exactly on a byte count that violates the length-validity
//! rule. A successful decode reads fields in declared order and fills the
//! trailing list until the presented bytes are exhausted.

use crate::bytes::{le_bytes_of, le_value, lemma_le_bytes_len, lemma_le_value_bound,
    lemma_le_value_of_le_bytes, lemma_scalar_bound_u64, push_le, read_le, scalar_bound};
use crate::layout::{desc_len, descs_len, elem_len, record_field_len, record_len, ElemKind,
    FieldDesc, FieldLayout, RecordField, RecordLayout, ScalarKind, MAX_WIRE_LEN};
use crate::value::{elem_conforms, field_conforms, msg_conforms, record_conforms,
    record_item_conforms, scalar_fits, ElemValue, ElemValueModel, FieldValue, FieldValueModel,
    Message, MessageModel, RecordItem, RecordItemModel, RecordValue};
use vstd::prelude::*;

verus! {

// ---------------------------------------------------------------------------
// Encoding, at the specification level.
// ---------------------------------------------------------------------------

/// Bytes of a run of scalars of width `w`, concatenated in order.
pub open spec fn enc_scalar_list(vs: Seq<u64>, w: nat) -> Seq<u8>
    decreases vs.len(),
{
    if vs.len() == 0 {
        Seq::empty()
    } else {
        le_bytes_of(vs[0] as nat, w) + enc_scalar_list(vs.drop_first(), w)
    }
}

/// Bytes of one record item under its record field descriptor.
pub open spec fn enc_record_item(it: RecordItemModel, f: RecordField) -> Seq<u8> {
    match (it, f) {
        (RecordItemModel::Scalar(v), RecordField::Scalar(k)) => le_bytes_of(
            v as nat,
            k.width as nat,
        ),
        (RecordItemModel::Array(a), RecordField::FixedArray(k, c)) => enc_scalar_list(
            a,
            k.width as nat,
        ),
        _ => Seq::empty(),
    }
}

/// Bytes of a nested record: its items' bytes, concatenated in field order.
pub open spec fn enc_record(items: Seq<RecordItemModel>, fields: Seq<RecordField>) -> Seq<u8>
    decreases items.len(),
{
    if items.len() == 0 || fields.len() == 0 {
        Seq::empty()
    } else {
        enc_record_item(items[0], fields[0]) + enc_record(items.drop_first(), fields.drop_first())
    }
}

/// Bytes of one array or list element.
pub open spec fn enc_elem(e: ElemValueModel, k: ElemKind) -> Seq<u8> {
    match (e, k) {
        (ElemValueModel::Scalar(v), ElemKind::Scalar(s)) => le_bytes_of(v as nat, s.width as nat),
        (ElemValueModel::Record(items), ElemKind::Record(r)) => enc_record(items, r.fields@),
        _ => Seq::empty(),
    }
}

/// Bytes of a run of elements, concatenated in order.
pub open spec fn enc_elem_list(es: Seq<ElemValueModel>, k: ElemKind) -> Seq<u8>
    decreases es.len(),
{
    if es.len() == 0 {
        Seq::empty()
    } else {
        enc_elem(es[0], k) + enc_elem_list(es.drop_first(), k)
    }
}

/// Bytes of one fixed field value under its descriptor.
pub open spec fn enc_field(f: FieldValueModel, d: FieldDesc) -> Seq<u8> {
    match (f, d) {
        (FieldValueModel::Scalar(v), FieldDesc::Scalar(k)) => le_bytes_of(v as nat, k.width as nat),
        (FieldValueModel::Array(a), FieldDesc::FixedArray(k, c)) => enc_elem_list(a, k),
        _ => Seq::empty(),
    }
}

/// Bytes of the fixed part of a message: field values under their
/// descriptors, concatenated in declared order.
pub open spec fn enc_fields(fs: Seq<FieldValueModel>, ds: Seq<FieldDesc>) -> Seq<u8>
    decreases fs.len(),
{
    if fs.len() == 0 || ds.len() == 0 {
        Seq::empty()
    } else {
        enc_field(fs[0], ds[0]) + enc_fields(fs.drop_first(), ds.drop_first())
    }
}

/// Encode: the full wire bytes of a message under a layout, fixed fields
/// first, then every current trailing-list element.
pub open spec fn spec_encode(m: MessageModel, l: FieldLayout) -> Seq<u8> {
    enc_fields(m.fields, l.fixed@) + match l.trailing {
        None => Seq::<u8>::empty(),
        Some(k) => enc_elem_list(m.trailing, k),
    }
}

// ---------------------------------------------------------------------------
// Decoding, at the specification level.
// ---------------------------------------------------------------------------

/// The `c` scalars of width `w` read from the front of `b`.
pub open spec fn dec_scalar_list(b: Seq<u8>, w: nat, c: nat) -> Seq<u64>
    decreases c,
{
    if c == 0 {
        Seq::empty()
    } else {
        seq![le_value(b.take(w as int)) as u64] + dec_scalar_list(
            b.skip(w as int),
            w,
            (c - 1) as nat,
        )
    }
}

/// One record item read from exactly its field's bytes.
pub open spec fn dec_record_item(b: Seq<u8>, f: RecordField) -> RecordItemModel {
    match f {
        RecordField::Scalar(k) => RecordItemModel::Scalar(le_value(b) as u64),
        RecordField::FixedArray(k, c) => RecordItemModel::Array(
            dec_scalar_list(b, k.width as nat, c as nat),
        ),
    }
}

/// A nested record read from the front of `b`, field by field.
pub open spec fn dec_record(b: Seq<u8>, fields: Seq<RecordField>) -> Seq<RecordItemModel>
    decreases fields.len(),
{
    if fields.len() == 0 {
        Seq::empty()
    } else {
        let n = record_field_len(fields[0]) as int;
        seq![dec_record_item(b.take(n), fields[0])] + dec_record(b.skip(n), fields.drop_first())
    }
}

/// One element read from exactly its kind's bytes.
pub open spec fn dec_elem(b: Seq<u8>, k: ElemKind) -> ElemValueModel {
    match k {
        ElemKind::Scalar(s) => ElemValueModel::Scalar(le_value(b) as u64),
        ElemKind::Record(r) => ElemValueModel::Record(dec_record(b, r.fields@)),
    }
}

/// The `c` elements of a fixed array read from the front of `b`.
pub open spec fn dec_elem_fixed(b: Seq<u8>, k: ElemKind, c: nat) -> Seq<ElemValueModel>
    decreases c,
{
    if c == 0 {
        Seq::empty()
    } else {
        seq![dec_elem(b.take(elem_len(k) as int), k)] + dec_elem_fixed(
            b.skip(elem_len(k) as int),
            k,
            (c - 1) as nat,
        )
    }
}

/// The trailing list read from `b`: elements until the bytes run out.
pub open spec fn dec_elem_list(b: Seq<u8>, k: ElemKind) -> Seq<ElemValueModel>
    decreases b.len(),
{
    let u = elem_len(k);
    if u == 0 || b.len() < u {
        Seq::empty()
    } else {
        seq![dec_elem(b.take(u as int), k)] + dec_elem_list(b.skip(u as int), k)
    }
}

/// One fixed field value read from exactly its descriptor's bytes.
pub open spec fn dec_field(b: Seq<u8>, d: FieldDesc) -> FieldValueModel {
    match d {
        FieldDesc::Scalar(k) => FieldValueModel::Scalar(le_value(b) as u64),
        FieldDesc::FixedArray(k, c) => FieldValueModel::Array(dec_elem_fixed(b, k, c as nat)),
    }
}

/// The fixed field values read from the front of `b`, in declared order.
pub open spec fn dec_fields(b: Seq<u8>, ds: Seq<FieldDesc>) -> Seq<FieldValueModel>
    decreases ds.len(),
{
    if ds.len() == 0 {
        Seq::empty()
    } else {
        let n = desc_len(ds[0]) as int;
        seq![dec_field(b.take(n), ds[0])] + dec_fields(b.skip(n), ds.drop_first())
    }
}

/// Decode: the message read from a byte string of valid length, fixed
/// fields from the fixed part, trailing elements from everything after it.
pub open spec fn spec_decode(b: Seq<u8>, l: FieldLayout) -> MessageModel {
    MessageModel {
        fields: dec_fields(b.take(l.spec_fixed_len() as int), l.fixed@),
        trailing: match l.trailing {
            None => Seq::<ElemValueModel>::empty(),
            Some(k) => dec_elem_list(b.skip(l.spec_fixed_len() as int), k),
        },
    }
}

// ---------------------------------------------------------------------------
// Length of encodings.
// ---------------------------------------------------------------------------

/// A scalar run encodes to one width per scalar.
pub proof fn lemma_enc_scalar_list_len(vs: Seq<u64>, w: nat)
    ensures
        enc_scalar_list(vs, w).len() == vs.len() * w,
    decreases vs.len(),
{
    if vs.len() == 0 {
    } else {
        lemma_le_bytes_len(vs[0] as nat, w);
        lemma_enc_scalar_list_len(vs.drop_first(), w);
        assert(vs.len() * w == w + (vs.len() - 1) * w) by (nonlinear_arith);
    }
}

/// A conforming record item encodes to exactly its field's byte length.
pub proof fn lemma_enc_record_item_len(it: RecordItemModel, f: RecordField)
    requires
        record_item_conforms(it, f),
    ensures
        enc_record_item(it, f).len() == record_field_len(f),
{
    match (it, f) {
        (RecordItemModel::Scalar(v), RecordField::Scalar(k)) => {
            lemma_le_bytes_len(v as nat, k.width as nat);
        },
        (RecordItemModel::Array(a), RecordField::FixedArray(k, c)) => {
            lemma_enc_scalar_list_len(a, k.width as nat);
        },
        _ => {},
    }
}

/// A conforming record encodes to exactly the record's byte length.
pub proof fn lemma_enc_record_len(items: Seq<RecordItemModel>, fields: Seq<RecordField>)
    requires
        items.len() == fields.len(),
        forall|i: int| 0 <= i < items.len() ==> record_item_conforms(#[trigger] items[i], fields[i]),
    ensures
        enc_record(items, fields).len() == record_len(fields),
    decreases items.len(),
{
    if items.len() > 0 {
        lemma_enc_record_item_len(items[0], fields[0]);
        assert(forall|i: int|
            0 <= i < items.drop_first().len() ==> record_item_conforms(
                #[trigger] items.drop_first()[i],
                fields.drop_first()[i],
            ));
        lemma_enc_record_len(items.drop_first(), fields.drop_first());
    }
}

/// A conforming element encodes to exactly its kind's byte length.
pub proof fn lemma_enc_elem_len(e: ElemValueModel, k: ElemKind)
    requires
        elem_conforms(e, k),
    ensures
        enc_elem(e, k).len() == elem_len(k),
{
    match (e, k) {
        (ElemValueModel::Scalar(v), ElemKind::Scalar(s)) => {
            lemma_le_bytes_len(v as nat, s.width as nat);
        },
        (ElemValueModel::Record(items), ElemKind::Record(r)) => {
            lemma_enc_record_len(items, r.fields@);
        },
        _ => {},
    }
}

/// A run of conforming elements encodes to one unit length per element.
pub proof fn lemma_enc_elem_list_len(es: Seq<ElemValueModel>, k: ElemKind)
    requires
        forall|i: int| 0 <= i < es.len() ==> elem_conforms(#[trigger] es[i], k),
    ensures
        enc_elem_list(es, k).len() == es.len() * elem_len(k),
    decreases es.len(),
{
    if es.len() > 0 {
        lemma_enc_elem_len(es[0], k);
        lemma_enc_elem_list_len(es.drop_first(), k);
        assert(es.len() * elem_len(k) == elem_len(k) + (es.len() - 1) * elem_len(k))
            by (nonlinear_arith);
    }
}

/// A conforming field value encodes to exactly its descriptor's byte length.
pub proof fn lemma_enc_field_len(f: FieldValueModel, d: FieldDesc)
    requires
        field_conforms(f, d),
    ensures
        enc_field(f, d).len() == desc_len(d),
{
    match (f, d) {
        (FieldValueModel::Scalar(v), FieldDesc::Scalar(k)) => {
            lemma_le_bytes_len(v as nat, k.width as nat);
        },
        (FieldValueModel::Array(a), FieldDesc::FixedArray(k, c)) => {
            lemma_enc_elem_list_len(a, k);
        },
        _ => {},
    }
}

/// Conforming fixed fields encode to exactly the layout's FixedLen.
pub proof fn lemma_enc_fields_len(fs: Seq<FieldValueModel>, ds: Seq<FieldDesc>)
    requires
        fs.len() == ds.len(),
        forall|i: int| 0 <= i < fs.len() ==> field_conforms(#[trigger] fs[i], ds[i]),
    ensures
        enc_fields(fs, ds).len() == descs_len(ds),
    decreases fs.len(),
{
    if fs.len() > 0 {
        lemma_enc_field_len(fs[0], ds[0]);
        assert(forall|i: int|
            0 <= i < fs.drop_first().len() ==> field_conforms(
                #[trigger] fs.drop_first()[i],
                ds.drop_first()[i],
            ));
        lemma_enc_fields_len(fs.drop_first(), ds.drop_first());
    }
}

/// A conforming message encodes to FixedLen plus one unit per trailing
/// element; in particular the encoded length is always valid for the layout.
pub proof fn lemma_spec_encode_len(m: MessageModel, l: FieldLayout)
    requires
        l.wf(),
        msg_conforms(m, l),
    ensures
        spec_encode(m, l).len() == l.spec_fixed_len() + m.trailing.len() * l.spec_var_unit(),
        l.spec_valid_len(spec_encode(m, l).len() as int),
{
    lemma_enc_fields_len(m.fields, l.fixed@);
    match l.trailing {
        None => {
            assert(spec_encode(m, l).len() == l.spec_fixed_len() + m.trailing.len()
                * l.spec_var_unit()) by (nonlinear_arith)
                requires
                    spec_encode(m, l).len() == l.spec_fixed_len(),
                    m.trailing.len() == 0,
                    l.spec_var_unit() == 0,
            ;
        },
        Some(k) => {
            lemma_enc_elem_list_len(m.trailing, k);
            let n = m.trailing.len() as int;
            let u = l.spec_var_unit() as int;
            assert((n * u) % u == 0 && n * u >= 0) by (nonlinear_arith)
                requires
                    u > 0,
                    n >= 0,
            ;
        },
    }
}

// ---------------------------------------------------------------------------
// Decode inverts encode.
// ---------------------------------------------------------------------------

/// Scalars of a run are recovered one by one from their bytes.
proof fn lemma_rt_scalar_list(vs: Seq<u64>, w: nat)
    requires
        forall|i: int| 0 <= i < vs.len() ==> ((#[trigger] vs[i]) as nat) < scalar_bound(w),
    ensures
        dec_scalar_list(enc_scalar_list(vs, w), w, vs.len()) == vs,
    decreases vs.len(),
{
    if vs.len() > 0 {
        let b = enc_scalar_list(vs, w);
        let head = le_bytes_of(vs[0] as nat, w);
        lemma_le_bytes_len(vs[0] as nat, w);
        assert(b.take(w as int) =~= head);
        assert(b.skip(w as int) =~= enc_scalar_list(vs.drop_first(), w));
        lemma_le_value_of_le_bytes(vs[0] as nat, w);
        lemma_rt_scalar_list(vs.drop_first(), w);
        assert(dec_scalar_list(b, w, vs.len()) =~= vs);
    }
}

/// A record item is recovered from exactly its own bytes.
proof fn lemma_rt_record_item(it: RecordItemModel, f: RecordField)
    requires
        record_item_conforms(it, f),
    ensures
        dec_record_item(enc_record_item(it, f), f) == it,
{
    match (it, f) {
        (RecordItemModel::Scalar(v), RecordField::Scalar(k)) => {
            lemma_le_value_of_le_bytes(v as nat, k.width as nat);
        },
        (RecordItemModel::Array(a), RecordField::FixedArray(k, c)) => {
            lemma_rt_scalar_list(a, k.width as nat);
        },
        _ => {},
    }
}

/// A record's items are recovered field by field from its bytes.
proof fn lemma_rt_record(items: Seq<RecordItemModel>, fields: Seq<RecordField>)
    requires
        items.len() == fields.len(),
        forall|i: int| 0 <= i < items.len() ==> record_item_conforms(#[trigger] items[i], fields[i]),
    ensures
        dec_record(enc_record(items, fields), fields) == items,
    decreases items.len(),
{
    if items.len() > 0 {
        let b = enc_record(items, fields);
        let n = record_field_len(fields[0]) as int;
        lemma_enc_record_item_len(items[0], fields[0]);
        assert(b.take(n) =~= enc_record_item(items[0], fields[0]));
        assert(b.skip(n) =~= enc_record(items.drop_first(), fields.drop_first()));
        lemma_rt_record_item(items[0], fields[0]);
        assert(forall|i: int|
            0 <= i < items.drop_first().len() ==> record_item_conforms(
                #[trigger] items.drop_first()[i],
                fields.drop_first()[i],
            ));
        lemma_rt_record(items.drop_first(), fields.drop_first());
        assert(dec_record(b, fields) =~= items);
    }
}

/// An element is recovered from exactly its own bytes.
proof fn lemma_rt_elem(e: ElemValueModel, k: ElemKind)
    requires
        elem_conforms(e, k),
    ensures
        dec_elem(enc_elem(e, k), k) == e,
{
    match (e, k) {
        (ElemValueModel::Scalar(v), ElemKind::Scalar(s)) => {
            lemma_le_value_of_le_bytes(v as nat, s.width as nat);
        },
        (ElemValueModel::Record(items), ElemKind::Record(r)) => {
            lemma_rt_record(items, r.fields@);
        },
        _ => {},
    }
}

/// A fixed array's elements are recovered count by count from its bytes.
proof fn lemma_rt_elem_fixed(a: Seq<ElemValueModel>, k: ElemKind)
    requires
        forall|i: int| 0 <= i < a.len() ==> elem_conforms(#[trigger] a[i], k),
    ensures
        dec_elem_fixed(enc_elem_list(a, k), k, a.len()) == a,
    decreases a.len(),
{
    if a.len() > 0 {
        let b = enc_elem_list(a, k);
        let u = elem_len(k) as int;
        lemma_enc_elem_len(a[0], k);
        assert(b.take(u) =~= enc_elem(a[0], k));
        assert(b.skip(u) =~= enc_elem_list(a.drop_first(), k));
        lemma_rt_elem(a[0], k);
        lemma_rt_elem_fixed(a.drop_first(), k);
        assert(dec_elem_fixed(b, k, a.len()) =~= a);
    }
}

/// The trailing list is recovered element by element until the bytes run
/// out, exactly at the end of the encoding.
proof fn lemma_rt_elem_list(es: Seq<ElemValueModel>, k: ElemKind)
    requires
        elem_len(k) >= 1,
        forall|i: int| 0 <= i < es.len() ==> elem_conforms(#[trigger] es[i], k),
    ensures
        dec_elem_list(enc_elem_list(es, k), k) == es,
    decreases es.len(),
{
    let b = enc_elem_list(es, k);
    let u = elem_len(k) as int;
    if es.len() == 0 {
        assert(dec_elem_list(b, k) =~= es);
    } else {
        lemma_enc_elem_len(es[0], k);
        lemma_enc_elem_list_len(es.drop_first(), k);
        assert(b.len() >= u);
        assert(b.take(u) =~= enc_elem(es[0], k));
        assert(b.skip(u) =~= enc_elem_list(es.drop_first(), k));
        lemma_rt_elem(es[0], k);
        lemma_rt_elem_list(es.drop_first(), k);
        assert(dec_elem_list(b, k) =~= es);
    }
}

/// A fixed field value is recovered from exactly its descriptor's bytes.
proof fn lemma_rt_field(f: FieldValueModel, d: FieldDesc)
    requires
        field_conforms(f, d),
    ensures
        dec_field(enc_field(f, d), d) == f,
{
    match (f, d) {
        (FieldValueModel::Scalar(v), FieldDesc::Scalar(k)) => {
            lemma_le_value_of_le_bytes(v as nat, k.width as nat);
        },
        (FieldValueModel::Array(a), FieldDesc::FixedArray(k, c)) => {
            lemma_rt_elem_fixed(a, k);
        },
        _ => {},
    }
}

/// The fixed fields are recovered in declared order from their bytes.
proof fn lemma_rt_fields(fs: Seq<FieldValueModel>, ds: Seq<FieldDesc>)
    requires
        fs.len() == ds.len(),
        forall|i: int| 0 <= i < fs.len() ==> field_conforms(#[trigger] fs[i], ds[i]),
    ensures
        dec_fields(enc_fields(fs, ds), ds) == fs,
    decreases fs.len(),
{
    if fs.len() > 0 {
        let b = enc_fields(fs, ds);
        let n = desc_len(ds[0]) as int;
        lemma_enc_field_len(fs[0], ds[0]);
        assert(b.take(n) =~= enc_field(fs[0], ds[0]));
        assert(b.skip(n) =~= enc_fields(fs.drop_first(), ds.drop_first()));
        lemma_rt_field(fs[0], ds[0]);
        assert(forall|i: int|
            0 <= i < fs.drop_first().len() ==> field_conforms(
                #[trigger] fs.drop_first()[i],
                ds.drop_first()[i],
            ));
        lemma_rt_fields(fs.drop_first(), ds.drop_first());
        assert(dec_fields(b, ds) =~= fs);
    }
}

/// Round-trip law: for every message type, decoding an encoded field-valid
/// message yields the message again, and the encoded byte count always
/// passes the layout's length-validity rule.
pub proof fn lemma_round_trip(m: MessageModel, l: FieldLayout)
    requires
        l.wf(),
        msg_conforms(m, l),
    ensures
        l.spec_valid_len(spec_encode(m, l).len() as int),
        spec_decode(spec_encode(m, l), l) == m,
{
    lemma_spec_encode_len(m, l);
    let b = spec_encode(m, l);
    let fl = l.spec_fixed_len() as int;
    lemma_enc_fields_len(m.fields, l.fixed@);
    assert(b.take(fl) =~= enc_fields(m.fields, l.fixed@));
    lemma_rt_fields(m.fields, l.fixed@);
    match l.trailing {
        None => {
            assert(m.trailing =~= Seq::<ElemValueModel>::empty());
            assert(spec_decode(b, l) =~= m);
        },
        Some(k) => {
            assert(b.skip(fl) =~= enc_elem_list(m.trailing, k));
            lemma_rt_elem_list(m.trailing, k);
            assert(spec_decode(b, l) =~= m);
        },
    }
}

/// Fixed-length validity law: for a message type without a trailing list,
/// decode accepts a byte count exactly when it equals the type's FixedLen
/// (`decode` succeeds iff `spec_valid_len` holds, by its contract).
pub proof fn lemma_fixed_validity(l: FieldLayout, len: int)
    requires
        l.wf(),
        l.trailing is None,
    ensures
        l.spec_valid_len(len) <==> len == l.spec_fixed_len(),
{
}

/// Variable-length validity law: for a message type with a trailing list of
/// unit size `u`, decode accepts a byte count exactly when the bytes beyond
/// FixedLen are a non-negative whole number of units; a deficit or a
/// non-dividing remainder is refused.
pub proof fn lemma_variable_validity(l: FieldLayout, len: int)
    requires
        l.wf(),
        l.trailing is Some,
    ensures
        l.spec_valid_len(len) <==> (len >= l.spec_fixed_len() && (len - l.spec_fixed_len()) % (
        l.spec_var_unit() as int) == 0),
{
    let u = l.spec_var_unit() as int;
    assert(u >= 1);
    if len == l.spec_fixed_len() {
        assert(0int % u == 0);
    }
}

// ---------------------------------------------------------------------------
// Executable decoding.
// ---------------------------------------------------------------------------

/// Reads `c` consecutive scalars of width `w` starting at `off`.
fn decode_scalar_list(buf: &[u8], off: usize, w: usize, c: usize) -> (r: Vec<u64>)
    requires
        1 <= w <= 8,
        c <= MAX_WIRE_LEN,
        off + c * w <= buf@.len(),
    ensures
        r@ == dec_scalar_list(buf@.subrange(off as int, off + c * w), w as nat, c as nat),
        r@.len() == c,
        forall|j: int| 0 <= j < r@.len() ==> ((#[trigger] r@[j]) as nat) < scalar_bound(w as nat),
{
    let n = buf.len();
    let ghost s = buf@.subrange(off as int, off + c * w);
    proof {
        assert(s.skip(0) =~= s);
    }
    let mut r: Vec<u64> = Vec::new();
    let mut i: usize = 0;
    while i < c
        invariant
            0 <= i <= c <= MAX_WIRE_LEN,
            1 <= w <= 8,
            off + c * w <= n == buf@.len(),
            s == buf@.subrange(off as int, off + c * w),
            dec_scalar_list(s, w as nat, c as nat) == r@ + dec_scalar_list(
                s.skip(i * w),
                w as nat,
                (c - i) as nat,
            ),
            r@.len() == i,
            forall|j: int|
                0 <= j < r@.len() ==> ((#[trigger] r@[j]) as nat) < scalar_bound(w as nat),
        decreases c - i,
    {
        proof {
            assert(i * w + w == (i + 1) * w && (i + 1) * w <= c * w && i * w >= 0)
                by (nonlinear_arith)
                requires
                    0 <= i < c,
                    1 <= w,
            ;
        }
        let v = read_le(buf, off + i * w, w);
        proof {
            let pos = (i * w) as int;
            assert(s.skip(pos).take(w as int) =~= buf@.subrange(
                off + pos,
                off + pos + w,
            ));
            assert(s.skip(pos).skip(w as int) =~= s.skip(pos + w));
            lemma_le_value_bound(buf@.subrange(off + pos, off + pos + w));
            assert(r@.push(v) + dec_scalar_list(s.skip(pos + w), w as nat, (c - i - 1) as nat)
                =~= r@ + dec_scalar_list(s.skip(pos), w as nat, (c - i) as nat));
        }
        r.push(v);
        i = i + 1;
    }
    proof {
        assert(s.skip((c * w) as int) =~= Seq::<u8>::empty());
        assert(r@ + dec_scalar_list(Seq::<u8>::empty(), w as nat, 0) =~= r@);
    }
    r
}

/// Reads one nested record starting at `off`, field by field.
fn decode_record(buf: &[u8], off: usize, r: &RecordLayout) -> (rv: RecordValue)
    requires
        r.wf(),
        off + record_len(r.fields@) <= buf@.len(),
    ensures
        rv@ == dec_record(buf@.subrange(off as int, off + record_len(r.fields@)), r.fields@),
        record_conforms(rv@, *r),
{
    let n = buf.len();
    let ghost fs = r.fields@;
    let ghost s = buf@.subrange(off as int, off + record_len(fs));
    proof {
        assert(s.skip(0) =~= s);
        assert(fs.skip(0) =~= fs);
    }
    let mut items: Vec<RecordItem> = Vec::new();
    let mut cur: usize = off;
    let mut i: usize = 0;
    while i < r.fields.len()
        invariant
            r.wf(),
            0 <= i <= fs.len(),
            fs == r.fields@,
            off <= cur,
            cur + record_len(fs.skip(i as int)) == off + record_len(fs),
            off + record_len(fs) <= n == buf@.len(),
            s == buf@.subrange(off as int, off + record_len(fs)),
            dec_record(s, fs) == items@.map_values(|it: RecordItem| it@) + dec_record(
                s.skip(cur - off),
                fs.skip(i as int),
            ),
            items@.len() == i,
            forall|j: int|
                0 <= j < i ==> record_item_conforms((#[trigger] items@[j])@, fs[j]),
        decreases fs.len() - i,
    {
        proof {
            assert(fs.skip(i as int).drop_first() =~= fs.skip(i + 1));
            assert(fs.skip(i as int)[0] == fs[i as int]);
            assert(r.fields@[i as int].wf());
        }
        let ghost flen = record_field_len(fs[i as int]) as int;
        let ghost prev = items@.map_values(|it: RecordItem| it@);
        let item: RecordItem = match r.fields[i] {
            RecordField::Scalar(k) => {
                let v = read_le(buf, cur, k.width);
                proof {
                    lemma_le_value_bound(buf@.subrange(cur as int, cur + k.width));
                }
                RecordItem::Scalar(v)
            },
            RecordField::FixedArray(k, c) => {
                proof {
                    assert(c * k.width == (c as nat) * (k.width as nat) && c * k.width >= 0)
                        by (nonlinear_arith)
                        requires
                            c >= 0,
                            k.width >= 0,
                    ;
                }
                let vals = decode_scalar_list(buf, cur, k.width, c);
                RecordItem::Array(vals)
            },
        };
        proof {
            assert(item@ == dec_record_item(buf@.subrange(cur as int, cur + flen), fs[i as int]));
            assert(record_item_conforms(item@, fs[i as int]));
            assert(s.skip(cur - off).take(flen) =~= buf@.subrange(cur as int, cur + flen));
            assert(s.skip(cur - off).skip(flen) =~= s.skip(cur - off + flen));
            assert(items@.push(item).map_values(|it: RecordItem| it@) =~= prev.push(item@));
            assert(prev.push(item@) + dec_record(s.skip(cur - off + flen), fs.skip(i + 1)) =~= prev
                + dec_record(s.skip(cur - off), fs.skip(i as int)));
        }
        items.push(item);
        let step: usize = match r.fields[i] {
            RecordField::Scalar(k) => k.width,
            RecordField::FixedArray(k, c) => c * k.width,
        };
        cur = cur + step;
        i = i + 1;
    }
    proof {
        assert(fs.skip(fs.len() as int) =~= Seq::<RecordField>::empty());
        assert(s.skip(cur - off) =~= s.skip(record_len(fs) as int));
        let m = items@.map_values(|it: RecordItem| it@);
        assert(m + dec_record(s.skip(record_len(fs) as int), Seq::<RecordField>::empty()) =~= m);
    }
    RecordValue { items }
}

/// Reads one element of the given kind starting at `off`.
fn decode_elem(buf: &[u8], off: usize, k: &ElemKind) -> (e: ElemValue)
    requires
        k.wf(),
        off + elem_len(*k) <= buf@.len(),
    ensures
        e@ == dec_elem(buf@.subrange(off as int, off + elem_len(*k)), *k),
        elem_conforms(e@, *k),
{
    match k {
        ElemKind::Scalar(s) => {
            let v = read_le(buf, off, s.width);
            proof {
                lemma_le_value_bound(buf@.subrange(off as int, off + s.width));
            }
            ElemValue::Scalar(v)
        },
        ElemKind::Record(r) => {
            let rv = decode_record(buf, off, r);
            ElemValue::Record(rv)
        },
    }
}

/// Reads the `c` elements of a fixed array starting at `off`.
fn decode_elem_fixed(buf: &[u8], off: usize, k: &ElemKind, c: usize) -> (r: Vec<ElemValue>)
    requires
        k.wf(),
        c <= MAX_WIRE_LEN,
        off + c * elem_len(*k) <= buf@.len(),
    ensures
        r@.map_values(|e: ElemValue| e@) == dec_elem_fixed(
            buf@.subrange(off as int, off + c * elem_len(*k)),
            *k,
            c as nat,
        ),
        r@.len() == c,
        forall|j: int| 0 <= j < r@.len() ==> elem_conforms((#[trigger] r@[j])@, *k),
{
    let n = buf.len();
    let u = k.byte_len();
    let ghost s = buf@.subrange(off as int, off + c * elem_len(*k));
    proof {
        assert(s.skip(0) =~= s);
    }
    let mut r: Vec<ElemValue> = Vec::new();
    let mut i: usize = 0;
    while i < c
        invariant
            k.wf(),
            0 <= i <= c <= MAX_WIRE_LEN,
            u == elem_len(*k) && u <= MAX_WIRE_LEN,
            off + c * u <= n == buf@.len(),
            s == buf@.subrange(off as int, off + c * u),
            dec_elem_fixed(s, *k, c as nat) == r@.map_values(|e: ElemValue| e@)
                + dec_elem_fixed(s.skip(i * u), *k, (c - i) as nat),
            r@.len() == i,
            forall|j: int| 0 <= j < i ==> elem_conforms((#[trigger] r@[j])@, *k),
        decreases c - i,
    {
        proof {
            assert(i * u + u == (i + 1) * u && (i + 1) * u <= c * u && i * u >= 0)
                by (nonlinear_arith)
                requires
                    0 <= i < c,
                    0 <= u,
            ;
        }
        let e = decode_elem(buf, off + i * u, k);
        proof {
            let pos = (i * u) as int;
            let prev = r@.map_values(|x: ElemValue| x@);
            assert(s.skip(pos).take(u as int) =~= buf@.subrange(off + pos, off + pos + u));
            assert(s.skip(pos).skip(u as int) =~= s.skip(pos + u));
            assert(r@.push(e).map_values(|x: ElemValue| x@) =~= prev.push(e@));
            assert(prev.push(e@) + dec_elem_fixed(s.skip(pos + u), *k, (c - i - 1) as nat) =~= prev
                + dec_elem_fixed(s.skip(pos), *k, (c - i) as nat));
        }
        r.push(e);
        i = i + 1;
    }
    proof {
        assert(s.skip((c * u) as int) =~= Seq::<u8>::empty());
        let m = r@.map_values(|e: ElemValue| e@);
        assert(m + dec_elem_fixed(Seq::<u8>::empty(), *k, 0) =~= m);
    }
    r
}

/// Reads trailing-list elements from `off` until fewer than one element's
/// bytes remain.
fn decode_trailing(buf: &[u8], off: usize, k: &ElemKind) -> (r: Vec<ElemValue>)
    requires
        k.wf(),
        elem_len(*k) >= 1,
        off <= buf@.len(),
    ensures
        r@.map_values(|e: ElemValue| e@) == dec_elem_list(
            buf@.subrange(off as int, buf@.len() as int),
            *k,
        ),
        forall|j: int| 0 <= j < r@.len() ==> elem_conforms((#[trigger] r@[j])@, *k),
{
    let n = buf.len();
    let u = k.byte_len();
    let ghost s = buf@.subrange(off as int, n as int);
    proof {
        assert(s.skip(0) =~= s);
    }
    let mut r: Vec<ElemValue> = Vec::new();
    let mut cur: usize = off;
    while n - cur >= u
        invariant
            k.wf(),
            1 <= u == elem_len(*k),
            off <= cur <= n == buf@.len(),
            s == buf@.subrange(off as int, n as int),
            dec_elem_list(s, *k) == r@.map_values(|e: ElemValue| e@) + dec_elem_list(
                s.skip(cur - off),
                *k,
            ),
            forall|j: int| 0 <= j < r@.len() ==> elem_conforms((#[trigger] r@[j])@, *k),
        decreases n - cur,
    {
        let e = decode_elem(buf, cur, k);
        proof {
            let pos = (cur - off) as int;
            let prev = r@.map_values(|x: ElemValue| x@);
            assert(s.skip(pos).len() == n - cur);
            assert(s.skip(pos).take(u as int) =~= buf@.subrange(cur as int, cur + u));
            assert(s.skip(pos).skip(u as int) =~= s.skip(pos + u));
            assert(r@.push(e).map_values(|x: ElemValue| x@) =~= prev.push(e@));
            assert(prev.push(e@) + dec_elem_list(s.skip(pos + u), *k) =~= prev + dec_elem_list(
                s.skip(pos),
                *k,
            ));
        }
        r.push(e);
        cur = cur + u;
    }
    proof {
        assert(s.skip(cur - off).len() < u);
        let m = r@.map_values(|e: ElemValue| e@);
        assert(m + dec_elem_list(s.skip(cur - off), *k) =~= m);
    }
    r
}

/// Reads the fixed fields in declared order starting at `off`.
fn decode_fields(buf: &[u8], off: usize, ds: &Vec<FieldDesc>) -> (r: Vec<FieldValue>)
    requires
        forall|i: int| 0 <= i < ds@.len() ==> (#[trigger] ds@[i]).wf(),
        off + descs_len(ds@) <= buf@.len(),
    ensures
        r@.map_values(|f: FieldValue| f@) == dec_fields(
            buf@.subrange(off as int, off + descs_len(ds@)),
            ds@,
        ),
        r@.len() == ds@.len(),
        forall|j: int| 0 <= j < r@.len() ==> field_conforms((#[trigger] r@[j])@, ds@[j]),
{
    let n = buf.len();
    let ghost dsq = ds@;
    let ghost s = buf@.subrange(off as int, off + descs_len(dsq));
    proof {
        assert(s.skip(0) =~= s);
        assert(dsq.skip(0) =~= dsq);
    }
    let mut r: Vec<FieldValue> = Vec::new();
    let mut cur: usize = off;
    let mut i: usize = 0;
    while i < ds.len()
        invariant
            forall|j: int| 0 <= j < dsq.len() ==> (#[trigger] dsq[j]).wf(),
            0 <= i <= dsq.len(),
            dsq == ds@,
            off <= cur,
            cur + descs_len(dsq.skip(i as int)) == off + descs_len(dsq),
            off + descs_len(dsq) <= n == buf@.len(),
            s == buf@.subrange(off as int, off + descs_len(dsq)),
            dec_fields(s, dsq) == r@.map_values(|f: FieldValue| f@) + dec_fields(
                s.skip(cur - off),
                dsq.skip(i as int),
            ),
            r@.len() == i,
            forall|j: int| 0 <= j < i ==> field_conforms((#[trigger] r@[j])@, dsq[j]),
        decreases dsq.len() - i,
    {
        proof {
            assert(dsq.skip(i as int).drop_first() =~= dsq.skip(i + 1));
            assert(dsq.skip(i as int)[0] == dsq[i as int]);
            assert(dsq[i as int].wf());
        }
        let ghost flen = desc_len(dsq[i as int]) as int;
        let ghost prev = r@.map_values(|f: FieldValue| f@);
        let (fv, step): (FieldValue, usize) = match &ds[i] {
            FieldDesc::Scalar(k) => {
                let v = read_le(buf, cur, k.width);
                proof {
                    lemma_le_value_bound(buf@.subrange(cur as int, cur + k.width));
                }
                (FieldValue::Scalar(v), k.width)
            },
            FieldDesc::FixedArray(k, c) => {
                let u = k.byte_len();
                proof {
                    assert((*c) * u == ((*c) as nat) * elem_len(*k) && (*c) * u >= 0 && (*c) * u
                        <= 65535 * 65535) by (nonlinear_arith)
                        requires
                            0 <= *c <= 65535,
                            0 <= u <= 65535,
                            u == elem_len(*k),
                    ;
                }
                let vals = decode_elem_fixed(buf, cur, k, *c);
                (FieldValue::Array(vals), (*c) * u)
            },
        };
        proof {
            assert(fv@ == dec_field(buf@.subrange(cur as int, cur + flen), dsq[i as int]));
            assert(field_conforms(fv@, dsq[i as int]));
            assert(s.skip(cur - off).take(flen) =~= buf@.subrange(cur as int, cur + flen));
            assert(s.skip(cur - off).skip(flen) =~= s.skip(cur - off + flen));
            assert(r@.push(fv).map_values(|f: FieldValue| f@) =~= prev.push(fv@));
            assert(prev.push(fv@) + dec_fields(s.skip(cur - off + flen), dsq.skip(i + 1)) =~= prev
                + dec_fields(s.skip(cur - off), dsq.skip(i as int)));
        }
        r.push(fv);
        cur = cur + step;
        i = i + 1;
    }
    proof {
        assert(dsq.skip(dsq.len() as int) =~= Seq::<FieldDesc>::empty());
        assert(s.skip(cur - off) =~= s.skip(descs_len(dsq) as int));
        let m = r@.map_values(|f: FieldValue| f@);
        assert(m + dec_fields(s.skip(descs_len(dsq) as int), Seq::<FieldDesc>::empty()) =~= m);
    }
    r
}

// ---------------------------------------------------------------------------
// Executable encoding.
// ---------------------------------------------------------------------------

/// Decides whether a raw value is representable at a scalar kind's width.
fn scalar_fits_exec(v: u64, k: &ScalarKind) -> (ok: bool)
    requires
        k.wf(),
    ensures
        ok == scalar_fits(v, *k),
{
    proof {
        reveal_with_fuel(scalar_bound, 9);
    }
    if k.width == 8 {
        proof {
            lemma_scalar_bound_u64();
        }
        true
    } else if k.width == 1 {
        v < 0x100
    } else if k.width == 2 {
        v < 0x1_0000
    } else {
        v < 0x1_0000_0000
    }
}

/// Appends one scalar's bytes, or refuses a value too wide for its field.
fn encode_scalar(out: &mut Vec<u8>, v: u64, k: &ScalarKind) -> (ok: bool)
    requires
        k.wf(),
    ensures
        ok == scalar_fits(v, *k),
        ok ==> final(out)@ == old(out)@ + le_bytes_of(v as nat, k.width as nat),
{
    if !scalar_fits_exec(v, k) {
        return false;
    }
    push_le(out, v, k.width);
    true
}

/// Appends a run of scalars, or refuses the first value too wide.
fn encode_scalar_list(out: &mut Vec<u8>, vs: &Vec<u64>, k: &ScalarKind) -> (ok: bool)
    requires
        k.wf(),
    ensures
        ok == (forall|i: int| 0 <= i < vs@.len() ==> scalar_fits(#[trigger] vs@[i], *k)),
        ok ==> final(out)@ == old(out)@ + enc_scalar_list(vs@, k.width as nat),
{
    let ghost start = out@;
    let ghost s = vs@;
    let ghost w = k.width as nat;
    proof {
        assert(s.skip(0) =~= s);
    }
    let mut i: usize = 0;
    while i < vs.len()
        invariant
            k.wf(),
            0 <= i <= s.len(),
            s == vs@,
            w == k.width as nat,
            start + enc_scalar_list(s, w) == out@ + enc_scalar_list(s.skip(i as int), w),
            forall|j: int| 0 <= j < i ==> scalar_fits(#[trigger] s[j], *k),
        decreases s.len() - i,
    {
        let ghost prev = out@;
        if !encode_scalar(out, vs[i], k) {
            return false;
        }
        proof {
            assert(s.skip(i as int)[0] == s[i as int]);
            assert(s.skip(i as int).drop_first() =~= s.skip(i + 1));
            assert((prev + le_bytes_of(s[i as int] as nat, w)) + enc_scalar_list(
                s.skip(i + 1),
                w,
            ) =~= prev + enc_scalar_list(s.skip(i as int), w));
        }
        i = i + 1;
    }
    proof {
        assert(s.skip(s.len() as int) =~= Seq::<u64>::empty());
        assert(out@ + enc_scalar_list(Seq::<u64>::empty(), w) =~= out@);
    }
    true
}

/// Appends a nested record's bytes, or refuses an instance that does not
/// conform to the record layout.
fn encode_record(out: &mut Vec<u8>, rv: &RecordValue, r: &RecordLayout) -> (ok: bool)
    requires
        r.wf(),
    ensures
        ok == record_conforms(rv@, *r),
        ok ==> final(out)@ == old(out)@ + enc_record(rv@, r.fields@),
{
    if rv.items.len() != r.fields.len() {
        return false;
    }
    let ghost start = out@;
    let ghost ms = rv@;
    let ghost fs = r.fields@;
    proof {
        assert(ms.skip(0) =~= ms);
        assert(fs.skip(0) =~= fs);
    }
    let mut i: usize = 0;
    while i < rv.items.len()
        invariant
            r.wf(),
            0 <= i <= ms.len(),
            ms == rv@,
            fs == r.fields@,
            ms.len() == fs.len(),
            rv.items@.len() == ms.len(),
            start + enc_record(ms, fs) == out@ + enc_record(ms.skip(i as int), fs.skip(i as int)),
            forall|j: int| 0 <= j < i ==> record_item_conforms(#[trigger] ms[j], fs[j]),
        decreases ms.len() - i,
    {
        proof {
            assert(ms.skip(i as int)[0] == ms[i as int]);
            assert(ms.skip(i as int).drop_first() =~= ms.skip(i + 1));
            assert(fs.skip(i as int)[0] == fs[i as int]);
            assert(fs.skip(i as int).drop_first() =~= fs.skip(i + 1));
            assert(r.fields@[i as int].wf());
        }
        let ghost prev = out@;
        let ok: bool = match (&rv.items[i], &r.fields[i]) {
            (RecordItem::Scalar(v), RecordField::Scalar(k)) => encode_scalar(out, *v, k),
            (RecordItem::Array(a), RecordField::FixedArray(k, c)) => {
                if a.len() != *c {
                    false
                } else {
                    encode_scalar_list(out, a, k)
                }
            },
            _ => false,
        };
        if !ok {
            proof {
                assert(!record_item_conforms(ms[i as int], fs[i as int]));
            }
            return false;
        }
        proof {
            assert(record_item_conforms(ms[i as int], fs[i as int]));
            assert(out@ == prev + enc_record_item(ms[i as int], fs[i as int]));
            assert((prev + enc_record_item(ms[i as int], fs[i as int])) + enc_record(
                ms.skip(i + 1),
                fs.skip(i + 1),
            ) =~= prev + enc_record(ms.skip(i as int), fs.skip(i as int)));
        }
        i = i + 1;
    }
    proof {
        assert(ms.skip(ms.len() as int) =~= Seq::<RecordItemModel>::empty());
        assert(out@ + enc_record(Seq::<RecordItemModel>::empty(), fs.skip(ms.len() as int))
            =~= out@);
    }
    true
}

/// Appends one element's bytes, or refuses a value of the wrong shape.
fn encode_elem(out: &mut Vec<u8>, e: &ElemValue, k: &ElemKind) -> (ok: bool)
    requires
        k.wf(),
    ensures
        ok == elem_conforms(e@, *k),
        ok ==> final(out)@ == old(out)@ + enc_elem(e@, *k),
{
    match (e, k) {
        (ElemValue::Scalar(v), ElemKind::Scalar(s)) => encode_scalar(out, *v, s),
        (ElemValue::Record(rv), ElemKind::Record(r)) => encode_record(out, rv, r),
        _ => false,
    }
}

/// Appends a run of elements, or refuses the first non-conforming one.
fn encode_elem_list(out: &mut Vec<u8>, es: &Vec<ElemValue>, k: &ElemKind) -> (ok: bool)
    requires
        k.wf(),
    ensures
        ok == (forall|i: int| 0 <= i < es@.len() ==> elem_conforms((#[trigger] es@[i])@, *k)),
        ok ==> final(out)@ == old(out)@ + enc_elem_list(es@.map_values(|e: ElemValue| e@), *k),
{
    let ghost start = out@;
    let ghost ms = es@.map_values(|e: ElemValue| e@);
    proof {
        assert(ms.skip(0) =~= ms);
    }
    let mut i: usize = 0;
    while i < es.len()
        invariant
            k.wf(),
            0 <= i <= es@.len(),
            ms == es@.map_values(|e: ElemValue| e@),
            ms.len() == es@.len(),
            start + enc_elem_list(ms, *k) == out@ + enc_elem_list(ms.skip(i as int), *k),
            forall|j: int| 0 <= j < i ==> elem_conforms((#[trigger] es@[j])@, *k),
        decreases ms.len() - i,
    {
        let ghost prev = out@;
        if !encode_elem(out, &es[i], k) {
            return false;
        }
        proof {
            assert(ms.skip(i as int)[0] == ms[i as int]);
            assert(ms.skip(i as int).drop_first() =~= ms.skip(i + 1));
            assert((prev + enc_elem(ms[i as int], *k)) + enc_elem_list(ms.skip(i + 1), *k) =~= prev
                + enc_elem_list(ms.skip(i as int), *k));
        }
        i = i + 1;
    }
    proof {
        assert(ms.skip(ms.len() as int) =~= Seq::<ElemValueModel>::empty());
        assert(out@ + enc_elem_list(Seq::<ElemValueModel>::empty(), *k) =~= out@);
    }
    true
}

/// Appends the fixed fields' bytes in declared order, or refuses the first
/// field value that does not conform to its descriptor.
fn encode_fields(out: &mut Vec<u8>, fs: &Vec<FieldValue>, ds: &Vec<FieldDesc>) -> (ok: bool)
    requires
        forall|i: int| 0 <= i < ds@.len() ==> (#[trigger] ds@[i]).wf(),
        fs@.len() == ds@.len(),
    ensures
        ok == (forall|i: int|
            0 <= i < fs@.len() ==> field_conforms((#[trigger] fs@[i])@, ds@[i])),
        ok ==> final(out)@ == old(out)@ + enc_fields(fs@.map_values(|f: FieldValue| f@), ds@),
{
    let ghost start = out@;
    let ghost ms = fs@.map_values(|f: FieldValue| f@);
    let ghost dsq = ds@;
    proof {
        assert(ms.skip(0) =~= ms);
        assert(dsq.skip(0) =~= dsq);
    }
    let mut i: usize = 0;
    while i < fs.len()
        invariant
            forall|j: int| 0 <= j < dsq.len() ==> (#[trigger] dsq[j]).wf(),
            0 <= i <= ms.len(),
            ms == fs@.map_values(|f: FieldValue| f@),
            dsq == ds@,
            ms.len() == fs@.len() == dsq.len(),
            start + enc_fields(ms, dsq) == out@ + enc_fields(ms.skip(i as int), dsq.skip(i as int)),
            forall|j: int| 0 <= j < i ==> field_conforms((#[trigger] fs@[j])@, dsq[j]),
        decreases ms.len() - i,
    {
        proof {
            assert(ms.skip(i as int)[0] == ms[i as int]);
            assert(ms.skip(i as int).drop_first() =~= ms.skip(i + 1));
            assert(dsq.skip(i as int)[0] == dsq[i as int]);
            assert(dsq.skip(i as int).drop_first() =~= dsq.skip(i + 1));
            assert(dsq[i as int].wf());
        }
        let ghost prev = out@;
        proof {
            assert(ms[i as int] == fs@[i as int]@);
        }
        let ok: bool = match (&fs[i], &ds[i]) {
            (FieldValue::Scalar(v), FieldDesc::Scalar(k)) => encode_scalar(out, *v, k),
            (FieldValue::Array(a), FieldDesc::FixedArray(k, c)) => {
                if a.len() != *c {
                    false
                } else {
                    let r = encode_elem_list(out, a, k);
                    proof {
                        let am = a@.map_values(|e: ElemValue| e@);
                        assert(forall|j: int|
                            0 <= j < a@.len() ==> am[j] == (#[trigger] a@[j])@);
                        assert(r == (forall|j: int|
                            0 <= j < am.len() ==> elem_conforms(#[trigger] am[j], *k)));
                    }
                    r
                }
            },
            _ => false,
        };
        if !ok {
            proof {
                assert(!field_conforms(ms[i as int], dsq[i as int]));
            }
            return false;
        }
        proof {
            assert(field_conforms(ms[i as int], dsq[i as int]));
            assert(out@ == prev + enc_field(ms[i as int], dsq[i as int]));
            assert((prev + enc_field(ms[i as int], dsq[i as int])) + enc_fields(
                ms.skip(i + 1),
                dsq.skip(i + 1),
            ) =~= prev + enc_fields(ms.skip(i as int), dsq.skip(i as int)));
        }
        i = i + 1;
    }
    proof {
        assert(ms.skip(ms.len() as int) =~= Seq::<FieldValueModel>::empty());
        assert(out@ + enc_fields(Seq::<FieldValueModel>::empty(), dsq.skip(ms.len() as int))
            =~= out@);
    }
    true
}

impl FieldLayout {
    /// Encode: succeeds exactly on a field-valid message, and then yields
    /// its full wire bytes; no field is silently skipped, a message that
    /// cannot produce bytes yields none at all.
    pub fn encode(&self, m: &Message) -> (r: Option<Vec<u8>>)
        requires
            self.wf(),
        ensures
            match r {
                Some(b) => msg_conforms(m@, *self) && b@ == spec_encode(m@, *self),
                None => !msg_conforms(m@, *self),
            },
    {
        proof {
            assert(forall|i: int|
                0 <= i < m.fields@.len() ==> (#[trigger] m@.fields[i]) == m.fields@[i]@);
            assert(forall|i: int|
                0 <= i < m.trailing@.len() ==> (#[trigger] m@.trailing[i]) == m.trailing@[i]@);
        }
        if m.fields.len() != self.fixed.len() {
            return None;
        }
        let mut out: Vec<u8> = Vec::new();
        if !encode_fields(&mut out, &m.fields, &self.fixed) {
            proof {
                let i0 = choose|i: int|
                    0 <= i < m.fields@.len() && !field_conforms(
                        (#[trigger] m.fields@[i])@,
                        self.fixed@[i],
                    );
                assert(!field_conforms(m@.fields[i0], self.fixed@[i0]));
            }
            return None;
        }
        match &self.trailing {
            None => {
                if m.trailing.len() != 0 {
                    return None;
                }
            },
            Some(k) => {
                if !encode_elem_list(&mut out, &m.trailing, k) {
                    proof {
                        let i0 = choose|i: int|
                            0 <= i < m.trailing@.len() && !elem_conforms(
                                (#[trigger] m.trailing@[i])@,
                                *k,
                            );
                        assert(!elem_conforms(m@.trailing[i0], *k));
                    }
                    return None;
                }
            },
        }
        proof {
            assert(out@ =~= spec_encode(m@, *self));
        }
        Some(out)
    }
}

impl FieldLayout {
    /// Decode: succeeds exactly on a byte count that passes the
    /// length-validity rule, and then yields the unique message whose fields
    /// are read in declared order, with the trailing list consuming every
    /// byte after the fixed part. A failed decode yields no message at all.
    pub fn decode(&self, buf: &[u8]) -> (r: Option<Message>)
        requires
            self.wf(),
        ensures
            match r {
                Some(m) => {
                    &&& self.spec_valid_len(buf@.len() as int)
                    &&& m@ == spec_decode(buf@, *self)
                    &&& msg_conforms(m@, *self)
                },
                None => !self.spec_valid_len(buf@.len() as int),
            },
    {
        let n = buf.len();
        if !self.has_valid_length(n) {
            return None;
        }
        let fl = self.fixed_len();
        let fields = decode_fields(buf, 0, &self.fixed);
        proof {
            assert(buf@.subrange(0, fl as int) =~= buf@.take(fl as int));
        }
        let trailing: Vec<ElemValue> = match &self.trailing {
            None => Vec::new(),
            Some(k) => {
                let t = decode_trailing(buf, fl, k);
                proof {
                    assert(buf@.subrange(fl as int, n as int) =~= buf@.skip(fl as int));
                }
                t
            },
        };
        let m = Message { fields, trailing };
        proof {
            assert(m@ =~= spec_decode(buf@, *self));
        }
        Some(m)
    }
}

} // verus!
