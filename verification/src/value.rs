//! Message values.
//!
//! A `Message` is an instance of a message type: one value per fixed field
//! descriptor, plus the elements of the trailing list (empty when the layout
//! has none). Scalar values are carried as the raw little-endian integer in a
//! `u64`; a signed field's value is its two's-complement bit pattern.
//!
//! Each executable value type has a ghost model built from `Seq`, so that
//! contracts and laws can state equality of messages structurally.

use crate::bytes::scalar_bound;
use crate::layout::{ElemKind, FieldDesc, FieldLayout, RecordField, RecordLayout};
use vstd::prelude::*;

verus! {

/// One field value of a nested record.
#[derive(Debug, PartialEq, Eq)]
pub enum RecordItem {
    Scalar(u64),
    Array(Vec<u64>),
}

/// An instance of a nested record: one item per record field.
#[derive(Debug, PartialEq, Eq)]
pub struct RecordValue {
    pub items: Vec<RecordItem>,
}

/// One element of a fixed array or trailing list.
#[derive(Debug, PartialEq, Eq)]
pub enum ElemValue {
    Scalar(u64),
    Record(RecordValue),
}

/// One fixed field value of a message.
#[derive(Debug, PartialEq, Eq)]
pub enum FieldValue {
    Scalar(u64),
    Array(Vec<ElemValue>),
}

/// An instance of a message type: the fixed field values in declared order,
/// then the trailing-list elements.
#[derive(Debug, PartialEq, Eq)]
pub struct Message {
    pub fields: Vec<FieldValue>,
    pub trailing: Vec<ElemValue>,
}

/// Ghost model of a record item.
#[verifier::ext_equal]
pub enum RecordItemModel {
    Scalar(u64),
    Array(Seq<u64>),
}

/// Ghost model of an array or list element; a record is modelled by the
/// sequence of its item models.
#[verifier::ext_equal]
pub enum ElemValueModel {
    Scalar(u64),
    Record(Seq<RecordItemModel>),
}

/// Ghost model of a fixed field value.
#[verifier::ext_equal]
pub enum FieldValueModel {
    Scalar(u64),
    Array(Seq<ElemValueModel>),
}

/// Ghost model of a message.
#[verifier::ext_equal]
pub struct MessageModel {
    pub fields: Seq<FieldValueModel>,
    pub trailing: Seq<ElemValueModel>,
}

impl View for RecordItem {
    type V = RecordItemModel;

    open spec fn view(&self) -> RecordItemModel {
        match self {
            RecordItem::Scalar(v) => RecordItemModel::Scalar(*v),
            RecordItem::Array(a) => RecordItemModel::Array(a@),
        }
    }
}

impl View for RecordValue {
    type V = Seq<RecordItemModel>;

    open spec fn view(&self) -> Seq<RecordItemModel> {
        self.items@.map_values(|it: RecordItem| it@)
    }
}

impl View for ElemValue {
    type V = ElemValueModel;

    open spec fn view(&self) -> ElemValueModel {
        match self {
            ElemValue::Scalar(v) => ElemValueModel::Scalar(*v),
            ElemValue::Record(r) => ElemValueModel::Record(r@),
        }
    }
}

impl View for FieldValue {
    type V = FieldValueModel;

    open spec fn view(&self) -> FieldValueModel {
        match self {
            FieldValue::Scalar(v) => FieldValueModel::Scalar(*v),
            FieldValue::Array(a) => FieldValueModel::Array(a@.map_values(|e: ElemValue| e@)),
        }
    }
}

impl View for Message {
    type V = MessageModel;

    open spec fn view(&self) -> MessageModel {
        MessageModel {
            fields: self.fields@.map_values(|f: FieldValue| f@),
            trailing: self.trailing@.map_values(|e: ElemValue| e@),
        }
    }
}

/// A raw scalar value is representable at the given kind's width.
pub open spec fn scalar_fits(v: u64, k: crate::layout::ScalarKind) -> bool {
    (v as nat) < scalar_bound(k.width as nat)
}

/// A record item carries the right variant and in-range values for one
/// record field.
pub open spec fn record_item_conforms(it: RecordItemModel, f: RecordField) -> bool {
    match (it, f) {
        (RecordItemModel::Scalar(v), RecordField::Scalar(k)) => scalar_fits(v, k),
        (RecordItemModel::Array(a), RecordField::FixedArray(k, c)) => {
            &&& a.len() == c
            &&& forall|i: int| 0 <= i < a.len() ==> scalar_fits(#[trigger] a[i], k)
        },
        _ => false,
    }
}

/// A record instance conforms to a record layout item by item.
pub open spec fn record_conforms(items: Seq<RecordItemModel>, r: RecordLayout) -> bool {
    &&& items.len() == r.fields@.len()
    &&& forall|i: int|
        0 <= i < items.len() ==> record_item_conforms(#[trigger] items[i], r.fields@[i])
}

/// An element carries the right variant for its element kind.
pub open spec fn elem_conforms(e: ElemValueModel, k: ElemKind) -> bool {
    match (e, k) {
        (ElemValueModel::Scalar(v), ElemKind::Scalar(s)) => scalar_fits(v, s),
        (ElemValueModel::Record(items), ElemKind::Record(r)) => record_conforms(items, r),
        _ => false,
    }
}

/// A fixed field value conforms to its descriptor.
pub open spec fn field_conforms(f: FieldValueModel, d: FieldDesc) -> bool {
    match (f, d) {
        (FieldValueModel::Scalar(v), FieldDesc::Scalar(k)) => scalar_fits(v, k),
        (FieldValueModel::Array(a), FieldDesc::FixedArray(k, c)) => {
            &&& a.len() == c
            &&& forall|i: int| 0 <= i < a.len() ==> elem_conforms(#[trigger] a[i], k)
        },
        _ => false,
    }
}

/// Field-validity of a whole message against a layout: one conforming value
/// per fixed descriptor, and a trailing list (empty unless the layout has
/// one) of conforming elements.
pub open spec fn msg_conforms(m: MessageModel, l: FieldLayout) -> bool {
    &&& m.fields.len() == l.fixed@.len()
    &&& forall|i: int|
        0 <= i < m.fields.len() ==> field_conforms(#[trigger] m.fields[i], l.fixed@[i])
    &&& match l.trailing {
        None => m.trailing.len() == 0,
        Some(k) => forall|i: int| 0 <= i < m.trailing.len() ==> elem_conforms(#[trigger] m.trailing[i], k),
    }
}

} // verus!
