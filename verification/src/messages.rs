//! Concrete message types of the authentication exchange.
//!
//! Each type carries its fields as plain values, names its identifier, and
//! describes its wire shape as a `FieldLayout` for the generic codec
//! engine; byte-array fields are held as `Vec<u8>` of a fixed, well-formed
//! length. `to_message` lowers an instance into the engine's message form.

use crate::bytes::scalar_bound;
use crate::layout::{desc_len, descs_len, record_field_len, record_len, ElemKind, FieldDesc,
    FieldLayout, RecordField, RecordLayout, ScalarKind};
use crate::value::{elem_conforms, field_conforms, msg_conforms, record_conforms,
    record_item_conforms, scalar_fits, ElemValue, ElemValueModel, FieldValue, FieldValueModel,
    Message, MessageModel, RecordItem, RecordItemModel, RecordValue};
use vstd::prelude::*;

verus! {

/// The message identifiers this exchange uses.
#[derive(Clone, Copy, Debug, PartialEq, Eq, Structural)]
pub enum PacketId {
    CaLogin,
    CaSsoLoginReq,
    AcAcceptLogin,
    AcAcceptLogin2,
    AcRefuseLogin,
}

impl PacketId {
    /// The 16-bit wire value of this identifier.
    pub open spec fn spec_value(self) -> u16 {
        match self {
            PacketId::CaLogin => 0x0064,
            PacketId::CaSsoLoginReq => 0x0825,
            PacketId::AcAcceptLogin => 0x0069,
            PacketId::AcAcceptLogin2 => 0x0AC4,
            PacketId::AcRefuseLogin => 0x006A,
        }
    }

    pub fn value(&self) -> (v: u16)
        ensures
            v == self.spec_value(),
    {
        match self {
            PacketId::CaLogin => 0x0064,
            PacketId::CaSsoLoginReq => 0x0825,
            PacketId::AcAcceptLogin => 0x0069,
            PacketId::AcAcceptLogin2 => 0x0AC4,
            PacketId::AcRefuseLogin => 0x006A,
        }
    }
}

/// An unsigned scalar kind of the given width.
pub open spec fn uint(width: usize) -> ScalarKind {
    ScalarKind { width, signed: false }
}

/// A signed scalar kind of the given width.
pub open spec fn sint(width: usize) -> ScalarKind {
    ScalarKind { width, signed: true }
}

/// Builds an unsigned scalar kind.
fn uint_exec(width: usize) -> (k: ScalarKind)
    ensures
        k == uint(width),
{
    ScalarKind { width, signed: false }
}

/// Builds a signed scalar kind.
fn sint_exec(width: usize) -> (k: ScalarKind)
    ensures
        k == sint(width),
{
    ScalarKind { width, signed: true }
}

/// Lowers a byte vector into unsigned byte elements.
fn byte_elems(bytes: &Vec<u8>) -> (r: Vec<ElemValue>)
    ensures
        r@.map_values(|e: ElemValue| e@) == bytes@.map_values(
            |b: u8| ElemValueModel::Scalar(b as u64),
        ),
        r@.len() == bytes@.len(),
{
    let ghost s = bytes@;
    let mut r: Vec<ElemValue> = Vec::new();
    let mut i: usize = 0;
    while i < bytes.len()
        invariant
            0 <= i <= s.len(),
            s == bytes@,
            r@.len() == i,
            forall|j: int|
                0 <= j < i ==> (#[trigger] r@[j]) == ElemValue::Scalar(s[j] as u64),
        decreases s.len() - i,
    {
        r.push(ElemValue::Scalar(bytes[i] as u64));
        i = i + 1;
    }
    proof {
        assert(r@.map_values(|e: ElemValue| e@) =~= s.map_values(
            |b: u8| ElemValueModel::Scalar(b as u64),
        ));
    }
    r
}

/// Lowers a byte vector into raw scalar values.
fn byte_scalars(bytes: &Vec<u8>) -> (r: Vec<u64>)
    ensures
        r@ == bytes@.map_values(|b: u8| b as u64),
{
    let ghost s = bytes@;
    let mut r: Vec<u64> = Vec::new();
    let mut i: usize = 0;
    while i < bytes.len()
        invariant
            0 <= i <= s.len(),
            s == bytes@,
            r@.len() == i,
            forall|j: int| 0 <= j < i ==> (#[trigger] r@[j]) == s[j] as u64,
        decreases s.len() - i,
    {
        r.push(bytes[i] as u64);
        i = i + 1;
    }
    proof {
        assert(r@ =~= s.map_values(|b: u8| b as u64));
    }
    r
}

/// A byte vector of the given length holding only zeroes.
fn zero_bytes(n: usize) -> (r: Vec<u8>)
    ensures
        r@.len() == n,
        forall|j: int| 0 <= j < n ==> r@[j] == 0u8,
{
    let mut r: Vec<u8> = Vec::new();
    let mut i: usize = 0;
    while i < n
        invariant
            0 <= i <= n,
            r@.len() == i,
            forall|j: int| 0 <= j < i ==> r@[j] == 0u8,
        decreases n - i,
    {
        r.push(0u8);
        i = i + 1;
    }
    r
}

/// Computes the fragment layout's byte length by unfolding the sum.
proof fn lemma_fragment_len()
    ensures
        record_len(CharServerList::spec_fragment_fields()) == 160,
{
    let s0 = CharServerList::spec_fragment_fields();
    let s1 = s0.drop_first();
    let s2 = s1.drop_first();
    let s3 = s2.drop_first();
    let s4 = s3.drop_first();
    let s5 = s4.drop_first();
    let s6 = s5.drop_first();
    let s7 = s6.drop_first();
    assert(s1 =~= seq![RecordField::Scalar(sint(2)), RecordField::FixedArray(uint(1), 20), RecordField::Scalar(uint(2)), RecordField::Scalar(uint(2)), RecordField::Scalar(uint(2)), RecordField::FixedArray(uint(1), 128)]);
    assert(s2 =~= seq![RecordField::FixedArray(uint(1), 20), RecordField::Scalar(uint(2)), RecordField::Scalar(uint(2)), RecordField::Scalar(uint(2)), RecordField::FixedArray(uint(1), 128)]);
    assert(s3 =~= seq![RecordField::Scalar(uint(2)), RecordField::Scalar(uint(2)), RecordField::Scalar(uint(2)), RecordField::FixedArray(uint(1), 128)]);
    assert(s4 =~= seq![RecordField::Scalar(uint(2)), RecordField::Scalar(uint(2)), RecordField::FixedArray(uint(1), 128)]);
    assert(s5 =~= seq![RecordField::Scalar(uint(2)), RecordField::FixedArray(uint(1), 128)]);
    assert(s6 =~= seq![RecordField::FixedArray(uint(1), 128)]);
    assert(s7 =~= Seq::<RecordField>::empty());
    assert(record_len(s7) == 0);
    assert(record_field_len(s0[0]) == 4);
    assert(record_field_len(s1[0]) == 2);
    assert(record_field_len(s2[0]) == 20);
    assert(record_field_len(s3[0]) == 2);
    assert(record_field_len(s4[0]) == 2);
    assert(record_field_len(s5[0]) == 2);
    assert(record_field_len(s6[0]) == 128);
    assert(record_len(s6) == record_field_len(s6[0]) + record_len(s7));
    assert(record_len(s5) == record_field_len(s5[0]) + record_len(s6));
    assert(record_len(s4) == record_field_len(s4[0]) + record_len(s5));
    assert(record_len(s3) == record_field_len(s3[0]) + record_len(s4));
    assert(record_len(s2) == record_field_len(s2[0]) + record_len(s3));
    assert(record_len(s1) == record_field_len(s1[0]) + record_len(s2));
    assert(record_len(s0) == record_field_len(s0[0]) + record_len(s1));
    assert(record_len(s0) == 160);
}

/// Computes the login request's FixedLen by unfolding the sum.
proof fn lemma_ca_login_fixed_len()
    ensures
        descs_len(PacketCaLogin::spec_fixed_fields()) == 55,
{
    let s0 = PacketCaLogin::spec_fixed_fields();
    let s1 = s0.drop_first();
    let s2 = s1.drop_first();
    let s3 = s2.drop_first();
    let s4 = s3.drop_first();
    let s5 = s4.drop_first();
    assert(s1 =~= seq![FieldDesc::Scalar(uint(4)), FieldDesc::FixedArray(ElemKind::Scalar(uint(1)), 24), FieldDesc::FixedArray(ElemKind::Scalar(uint(1)), 24), FieldDesc::Scalar(uint(1))]);
    assert(s2 =~= seq![FieldDesc::FixedArray(ElemKind::Scalar(uint(1)), 24), FieldDesc::FixedArray(ElemKind::Scalar(uint(1)), 24), FieldDesc::Scalar(uint(1))]);
    assert(s3 =~= seq![FieldDesc::FixedArray(ElemKind::Scalar(uint(1)), 24), FieldDesc::Scalar(uint(1))]);
    assert(s4 =~= seq![FieldDesc::Scalar(uint(1))]);
    assert(s5 =~= Seq::<FieldDesc>::empty());
    assert(descs_len(s5) == 0);
    assert(desc_len(s0[0]) == 2);
    assert(desc_len(s1[0]) == 4);
    assert(desc_len(s2[0]) == 24);
    assert(desc_len(s3[0]) == 24);
    assert(desc_len(s4[0]) == 1);
    assert(descs_len(s4) == desc_len(s4[0]) + descs_len(s5));
    assert(descs_len(s3) == desc_len(s3[0]) + descs_len(s4));
    assert(descs_len(s2) == desc_len(s2[0]) + descs_len(s3));
    assert(descs_len(s1) == desc_len(s1[0]) + descs_len(s2));
    assert(descs_len(s0) == desc_len(s0[0]) + descs_len(s1));
    assert(descs_len(s0) == 55);
}

/// Computes the single-sign-on request's FixedLen by unfolding the sum.
proof fn lemma_sso_fixed_len()
    ensures
        descs_len(PacketCaSsoLoginReq::spec_fixed_fields()) == 92,
{
    let s0 = PacketCaSsoLoginReq::spec_fixed_fields();
    let s1 = s0.drop_first();
    let s2 = s1.drop_first();
    let s3 = s2.drop_first();
    let s4 = s3.drop_first();
    let s5 = s4.drop_first();
    let s6 = s5.drop_first();
    let s7 = s6.drop_first();
    let s8 = s7.drop_first();
    assert(s1 =~= seq![FieldDesc::Scalar(sint(2)), FieldDesc::Scalar(uint(4)), FieldDesc::Scalar(uint(1)), FieldDesc::FixedArray(ElemKind::Scalar(uint(1)), 24), FieldDesc::FixedArray(ElemKind::Scalar(uint(1)), 27), FieldDesc::FixedArray(ElemKind::Scalar(sint(1)), 17), FieldDesc::FixedArray(ElemKind::Scalar(uint(1)), 15)]);
    assert(s2 =~= seq![FieldDesc::Scalar(uint(4)), FieldDesc::Scalar(uint(1)), FieldDesc::FixedArray(ElemKind::Scalar(uint(1)), 24), FieldDesc::FixedArray(ElemKind::Scalar(uint(1)), 27), FieldDesc::FixedArray(ElemKind::Scalar(sint(1)), 17), FieldDesc::FixedArray(ElemKind::Scalar(uint(1)), 15)]);
    assert(s3 =~= seq![FieldDesc::Scalar(uint(1)), FieldDesc::FixedArray(ElemKind::Scalar(uint(1)), 24), FieldDesc::FixedArray(ElemKind::Scalar(uint(1)), 27), FieldDesc::FixedArray(ElemKind::Scalar(sint(1)), 17), FieldDesc::FixedArray(ElemKind::Scalar(uint(1)), 15)]);
    assert(s4 =~= seq![FieldDesc::FixedArray(ElemKind::Scalar(uint(1)), 24), FieldDesc::FixedArray(ElemKind::Scalar(uint(1)), 27), FieldDesc::FixedArray(ElemKind::Scalar(sint(1)), 17), FieldDesc::FixedArray(ElemKind::Scalar(uint(1)), 15)]);
    assert(s5 =~= seq![FieldDesc::FixedArray(ElemKind::Scalar(uint(1)), 27), FieldDesc::FixedArray(ElemKind::Scalar(sint(1)), 17), FieldDesc::FixedArray(ElemKind::Scalar(uint(1)), 15)]);
    assert(s6 =~= seq![FieldDesc::FixedArray(ElemKind::Scalar(sint(1)), 17), FieldDesc::FixedArray(ElemKind::Scalar(uint(1)), 15)]);
    assert(s7 =~= seq![FieldDesc::FixedArray(ElemKind::Scalar(uint(1)), 15)]);
    assert(s8 =~= Seq::<FieldDesc>::empty());
    assert(descs_len(s8) == 0);
    assert(desc_len(s0[0]) == 2);
    assert(desc_len(s1[0]) == 2);
    assert(desc_len(s2[0]) == 4);
    assert(desc_len(s3[0]) == 1);
    assert(desc_len(s4[0]) == 24);
    assert(desc_len(s5[0]) == 27);
    assert(desc_len(s6[0]) == 17);
    assert(desc_len(s7[0]) == 15);
    assert(descs_len(s7) == desc_len(s7[0]) + descs_len(s8));
    assert(descs_len(s6) == desc_len(s6[0]) + descs_len(s7));
    assert(descs_len(s5) == desc_len(s5[0]) + descs_len(s6));
    assert(descs_len(s4) == desc_len(s4[0]) + descs_len(s5));
    assert(descs_len(s3) == desc_len(s3[0]) + descs_len(s4));
    assert(descs_len(s2) == desc_len(s2[0]) + descs_len(s3));
    assert(descs_len(s1) == desc_len(s1[0]) + descs_len(s2));
    assert(descs_len(s0) == desc_len(s0[0]) + descs_len(s1));
    assert(descs_len(s0) == 92);
}

/// Computes the login-accepted reply's FixedLen by unfolding the sum.
proof fn lemma_accept_fixed_len()
    ensures
        descs_len(PacketAcAcceptLogin2::spec_fixed_fields()) == 64,
{
    let s0 = PacketAcAcceptLogin2::spec_fixed_fields();
    let s1 = s0.drop_first();
    let s2 = s1.drop_first();
    let s3 = s2.drop_first();
    let s4 = s3.drop_first();
    let s5 = s4.drop_first();
    let s6 = s5.drop_first();
    let s7 = s6.drop_first();
    let s8 = s7.drop_first();
    let s9 = s8.drop_first();
    let s10 = s9.drop_first();
    assert(s1 =~= seq![FieldDesc::Scalar(sint(2)), FieldDesc::Scalar(sint(4)), FieldDesc::Scalar(uint(4)), FieldDesc::Scalar(uint(4)), FieldDesc::Scalar(uint(4)), FieldDesc::FixedArray(ElemKind::Scalar(uint(1)), 26), FieldDesc::Scalar(uint(1)), FieldDesc::FixedArray(ElemKind::Scalar(uint(1)), 16), FieldDesc::Scalar(uint(1))]);
    assert(s2 =~= seq![FieldDesc::Scalar(sint(4)), FieldDesc::Scalar(uint(4)), FieldDesc::Scalar(uint(4)), FieldDesc::Scalar(uint(4)), FieldDesc::FixedArray(ElemKind::Scalar(uint(1)), 26), FieldDesc::Scalar(uint(1)), FieldDesc::FixedArray(ElemKind::Scalar(uint(1)), 16), FieldDesc::Scalar(uint(1))]);
    assert(s3 =~= seq![FieldDesc::Scalar(uint(4)), FieldDesc::Scalar(uint(4)), FieldDesc::Scalar(uint(4)), FieldDesc::FixedArray(ElemKind::Scalar(uint(1)), 26), FieldDesc::Scalar(uint(1)), FieldDesc::FixedArray(ElemKind::Scalar(uint(1)), 16), FieldDesc::Scalar(uint(1))]);
    assert(s4 =~= seq![FieldDesc::Scalar(uint(4)), FieldDesc::Scalar(uint(4)), FieldDesc::FixedArray(ElemKind::Scalar(uint(1)), 26), FieldDesc::Scalar(uint(1)), FieldDesc::FixedArray(ElemKind::Scalar(uint(1)), 16), FieldDesc::Scalar(uint(1))]);
    assert(s5 =~= seq![FieldDesc::Scalar(uint(4)), FieldDesc::FixedArray(ElemKind::Scalar(uint(1)), 26), FieldDesc::Scalar(uint(1)), FieldDesc::FixedArray(ElemKind::Scalar(uint(1)), 16), FieldDesc::Scalar(uint(1))]);
    assert(s6 =~= seq![FieldDesc::FixedArray(ElemKind::Scalar(uint(1)), 26), FieldDesc::Scalar(uint(1)), FieldDesc::FixedArray(ElemKind::Scalar(uint(1)), 16), FieldDesc::Scalar(uint(1))]);
    assert(s7 =~= seq![FieldDesc::Scalar(uint(1)), FieldDesc::FixedArray(ElemKind::Scalar(uint(1)), 16), FieldDesc::Scalar(uint(1))]);
    assert(s8 =~= seq![FieldDesc::FixedArray(ElemKind::Scalar(uint(1)), 16), FieldDesc::Scalar(uint(1))]);
    assert(s9 =~= seq![FieldDesc::Scalar(uint(1))]);
    assert(s10 =~= Seq::<FieldDesc>::empty());
    assert(descs_len(s10) == 0);
    assert(desc_len(s0[0]) == 2);
    assert(desc_len(s1[0]) == 2);
    assert(desc_len(s2[0]) == 4);
    assert(desc_len(s3[0]) == 4);
    assert(desc_len(s4[0]) == 4);
    assert(desc_len(s5[0]) == 4);
    assert(desc_len(s6[0]) == 26);
    assert(desc_len(s7[0]) == 1);
    assert(desc_len(s8[0]) == 16);
    assert(desc_len(s9[0]) == 1);
    assert(descs_len(s9) == desc_len(s9[0]) + descs_len(s10));
    assert(descs_len(s8) == desc_len(s8[0]) + descs_len(s9));
    assert(descs_len(s7) == desc_len(s7[0]) + descs_len(s8));
    assert(descs_len(s6) == desc_len(s6[0]) + descs_len(s7));
    assert(descs_len(s5) == desc_len(s5[0]) + descs_len(s6));
    assert(descs_len(s4) == desc_len(s4[0]) + descs_len(s5));
    assert(descs_len(s3) == desc_len(s3[0]) + descs_len(s4));
    assert(descs_len(s2) == desc_len(s2[0]) + descs_len(s3));
    assert(descs_len(s1) == desc_len(s1[0]) + descs_len(s2));
    assert(descs_len(s0) == desc_len(s0[0]) + descs_len(s1));
    assert(descs_len(s0) == 64);
}

/// One character-server row carried in the login-accepted message: a nested
/// record of 160 bytes.
#[derive(Debug, PartialEq, Eq)]
pub struct CharServerList {
    pub ip: u32,
    pub port: i16,
    pub name: Vec<u8>,
    pub usercount: u16,
    pub is_new: u16,
    pub server_type: u16,
    pub unknown2: Vec<u8>,
}

impl CharServerList {
    pub open spec fn wf(self) -> bool {
        &&& self.name@.len() == 20
        &&& self.unknown2@.len() == 128
    }

    /// The record layout of one row.
    pub open spec fn spec_fragment_fields() -> Seq<RecordField> {
        seq![
            RecordField::Scalar(uint(4)),
            RecordField::Scalar(sint(2)),
            RecordField::FixedArray(uint(1), 20),
            RecordField::Scalar(uint(2)),
            RecordField::Scalar(uint(2)),
            RecordField::Scalar(uint(2)),
            RecordField::FixedArray(uint(1), 128),
        ]
    }

    /// Builds the record layout of one row.
    pub fn fragment_layout() -> (r: RecordLayout)
        ensures
            r.fields@ == Self::spec_fragment_fields(),
    {
        let mut fields: Vec<RecordField> = Vec::new();
        fields.push(RecordField::Scalar(uint_exec(4)));
        fields.push(RecordField::Scalar(sint_exec(2)));
        fields.push(RecordField::FixedArray(uint_exec(1), 20));
        fields.push(RecordField::Scalar(uint_exec(2)));
        fields.push(RecordField::Scalar(uint_exec(2)));
        fields.push(RecordField::Scalar(uint_exec(2)));
        fields.push(RecordField::FixedArray(uint_exec(1), 128));
        proof {
            assert(fields@ =~= Self::spec_fragment_fields());
        }
        RecordLayout { fields }
    }

    /// The record items this row lowers to.
    pub open spec fn spec_record(self) -> Seq<RecordItemModel> {
        seq![
            RecordItemModel::Scalar(self.ip as u64),
            RecordItemModel::Scalar((self.port as u16) as u64),
            RecordItemModel::Array(self.name@.map_values(|b: u8| b as u64)),
            RecordItemModel::Scalar(self.usercount as u64),
            RecordItemModel::Scalar(self.is_new as u64),
            RecordItemModel::Scalar(self.server_type as u64),
            RecordItemModel::Array(self.unknown2@.map_values(|b: u8| b as u64)),
        ]
    }

    /// A well-formed row is field-valid for the fragment layout, so
    /// encoding one is owed to succeed.
    pub proof fn lemma_conforms(self, r: RecordLayout)
        requires
            self.wf(),
            r.fields@ == Self::spec_fragment_fields(),
        ensures
            record_conforms(self.spec_record(), r),
    {
        let items = self.spec_record();
        reveal_with_fuel(scalar_bound, 6);
        assert forall|i: int| 0 <= i < items.len() implies record_item_conforms(
            #[trigger] items[i],
            r.fields@[i],
        ) by {
            assert(self.name@.map_values(|b: u8| b as u64).len() == 20);
            assert(self.unknown2@.map_values(|b: u8| b as u64).len() == 128);
            assert(forall|j: int|
                0 <= j < self.name@.len() ==> self.name@.map_values(|b: u8| b as u64)[j] == (
                #[trigger] self.name@[j]) as u64);
            assert(forall|j: int|
                0 <= j < self.unknown2@.len() ==> self.unknown2@.map_values(|b: u8| b as u64)[j]
                    == (#[trigger] self.unknown2@[j]) as u64);
        }
    }

    /// Lowers this row into the engine's record form.
    pub fn to_record(&self) -> (r: RecordValue)
        ensures
            r@ == self.spec_record(),
    {
        let mut items: Vec<RecordItem> = Vec::new();
        items.push(RecordItem::Scalar(self.ip as u64));
        items.push(RecordItem::Scalar((self.port as u16) as u64));
        items.push(RecordItem::Array(byte_scalars(&self.name)));
        items.push(RecordItem::Scalar(self.usercount as u64));
        items.push(RecordItem::Scalar(self.is_new as u64));
        items.push(RecordItem::Scalar(self.server_type as u64));
        items.push(RecordItem::Array(byte_scalars(&self.unknown2)));
        proof {
            assert(items@.map_values(|it: RecordItem| it@) =~= self.spec_record());
        }
        RecordValue { items }
    }
}

impl Default for CharServerList {
    /// An all-zero row, well formed.
    fn default() -> (d: Self)
        ensures
            d.wf(),
            d.ip == 0 && d.port == 0 && d.usercount == 0 && d.is_new == 0 && d.server_type == 0,
            forall|j: int| 0 <= j < 20 ==> d.name@[j] == 0u8,
            forall|j: int| 0 <= j < 128 ==> d.unknown2@[j] == 0u8,
    {
        CharServerList {
            ip: 0,
            port: 0,
            name: zero_bytes(20),
            usercount: 0,
            is_new: 0,
            server_type: 0,
            unknown2: zero_bytes(128),
        }
    }
}

/// The plain login request: a fixed 55-byte message.
#[derive(Debug, PartialEq, Eq)]
pub struct PacketCaLogin {
    pub packet_id: u16,
    pub version: u32,
    pub username: Vec<u8>,
    pub password: Vec<u8>,
    pub client_type: u8,
}

impl PacketCaLogin {
    pub open spec fn wf(self) -> bool {
        &&& self.username@.len() == 24
        &&& self.password@.len() == 24
    }

    pub open spec fn spec_fixed_fields() -> Seq<FieldDesc> {
        seq![
            FieldDesc::Scalar(uint(2)),
            FieldDesc::Scalar(uint(4)),
            FieldDesc::FixedArray(ElemKind::Scalar(uint(1)), 24),
            FieldDesc::FixedArray(ElemKind::Scalar(uint(1)), 24),
            FieldDesc::Scalar(uint(1)),
        ]
    }

    /// This type's field layout: identifier, version, two 24-byte
    /// credential fields, client type; 55 bytes in all, no trailing list.
    pub fn layout() -> (l: FieldLayout)
        ensures
            l.wf(),
            l.fixed@ == Self::spec_fixed_fields(),
            l.trailing is None,
            l.spec_fixed_len() == 55,
    {
        let mut fixed: Vec<FieldDesc> = Vec::new();
        fixed.push(FieldDesc::Scalar(uint_exec(2)));
        fixed.push(FieldDesc::Scalar(uint_exec(4)));
        fixed.push(FieldDesc::FixedArray(ElemKind::Scalar(uint_exec(1)), 24));
        fixed.push(FieldDesc::FixedArray(ElemKind::Scalar(uint_exec(1)), 24));
        fixed.push(FieldDesc::Scalar(uint_exec(1)));
        let l = FieldLayout { fixed, trailing: None };
        proof {
            assert(l.fixed@ =~= Self::spec_fixed_fields());
            lemma_ca_login_fixed_len();
        }
        l
    }

    /// A fresh instance with this type's identifier and zeroed fields.
    pub fn new() -> (p: Self)
        ensures
            p.wf(),
            p.packet_id == 0x0064,
            p.version == 0 && p.client_type == 0,
            forall|j: int| 0 <= j < 24 ==> p.username@[j] == 0u8 && p.password@[j] == 0u8,
    {
        PacketCaLogin {
            packet_id: 0x0064,
            version: 0,
            username: zero_bytes(24),
            password: zero_bytes(24),
            client_type: 0,
        }
    }

    pub open spec fn spec_message(self) -> MessageModel {
        MessageModel {
            fields: seq![
                FieldValueModel::Scalar(self.packet_id as u64),
                FieldValueModel::Scalar(self.version as u64),
                FieldValueModel::Array(
                    self.username@.map_values(|b: u8| ElemValueModel::Scalar(b as u64)),
                ),
                FieldValueModel::Array(
                    self.password@.map_values(|b: u8| ElemValueModel::Scalar(b as u64)),
                ),
                FieldValueModel::Scalar(self.client_type as u64),
            ],
            trailing: Seq::empty(),
        }
    }

    /// A well-formed login request is field-valid for its layout, so
    /// encoding one is owed to succeed.
    pub proof fn lemma_conforms(self, l: FieldLayout)
        requires
            self.wf(),
            l.fixed@ == Self::spec_fixed_fields(),
            l.trailing is None,
        ensures
            msg_conforms(self.spec_message(), l),
    {
        let m = self.spec_message();
        reveal_with_fuel(scalar_bound, 6);
        assert forall|i: int| 0 <= i < m.fields.len() implies field_conforms(
            #[trigger] m.fields[i],
            l.fixed@[i],
        ) by {
            reveal_with_fuel(scalar_bound, 6);
        }
    }

    /// Lowers this instance into the engine's message form.
    pub fn to_message(&self) -> (m: Message)
        ensures
            m@ == self.spec_message(),
    {
        let mut fields: Vec<FieldValue> = Vec::new();
        fields.push(FieldValue::Scalar(self.packet_id as u64));
        fields.push(FieldValue::Scalar(self.version as u64));
        fields.push(FieldValue::Array(byte_elems(&self.username)));
        fields.push(FieldValue::Array(byte_elems(&self.password)));
        fields.push(FieldValue::Scalar(self.client_type as u64));
        let m = Message { fields, trailing: Vec::new() };
        proof {
            assert(m@.fields =~= self.spec_message().fields);
            assert(m@.trailing =~= self.spec_message().trailing);
            assert(m@ =~= self.spec_message());
        }
        m
    }
}

/// The single-sign-on login request: a variable-length message whose
/// trailing byte list carries the authentication token.
#[derive(Debug, PartialEq, Eq)]
pub struct PacketCaSsoLoginReq {
    pub packet_id: u16,
    pub packet_len: i16,
    pub version: u32,
    pub client_type: u8,
    pub id: Vec<u8>,
    pub password: Vec<u8>,
    pub mac_address: Vec<i8>,
    pub ip: Vec<u8>,
    pub t1: Vec<u8>,
}

impl PacketCaSsoLoginReq {
    pub open spec fn wf(self) -> bool {
        &&& self.id@.len() == 24
        &&& self.password@.len() == 27
        &&& self.mac_address@.len() == 17
        &&& self.ip@.len() == 15
    }

    pub open spec fn spec_fixed_fields() -> Seq<FieldDesc> {
        seq![
            FieldDesc::Scalar(uint(2)),
            FieldDesc::Scalar(sint(2)),
            FieldDesc::Scalar(uint(4)),
            FieldDesc::Scalar(uint(1)),
            FieldDesc::FixedArray(ElemKind::Scalar(uint(1)), 24),
            FieldDesc::FixedArray(ElemKind::Scalar(uint(1)), 27),
            FieldDesc::FixedArray(ElemKind::Scalar(sint(1)), 17),
            FieldDesc::FixedArray(ElemKind::Scalar(uint(1)), 15),
        ]
    }

    /// This type's field layout: a 92-byte fixed part, then a trailing list
    /// of single bytes.
    pub fn layout() -> (l: FieldLayout)
        ensures
            l.wf(),
            l.fixed@ == Self::spec_fixed_fields(),
            l.trailing matches Some(k) && k == ElemKind::Scalar(uint(1)),
            l.spec_fixed_len() == 92,
            l.spec_var_unit() == 1,
    {
        let mut fixed: Vec<FieldDesc> = Vec::new();
        fixed.push(FieldDesc::Scalar(uint_exec(2)));
        fixed.push(FieldDesc::Scalar(sint_exec(2)));
        fixed.push(FieldDesc::Scalar(uint_exec(4)));
        fixed.push(FieldDesc::Scalar(uint_exec(1)));
        fixed.push(FieldDesc::FixedArray(ElemKind::Scalar(uint_exec(1)), 24));
        fixed.push(FieldDesc::FixedArray(ElemKind::Scalar(uint_exec(1)), 27));
        fixed.push(FieldDesc::FixedArray(ElemKind::Scalar(sint_exec(1)), 17));
        fixed.push(FieldDesc::FixedArray(ElemKind::Scalar(uint_exec(1)), 15));
        let l = FieldLayout { fixed, trailing: Some(ElemKind::Scalar(uint_exec(1))) };
        proof {
            assert(l.fixed@ =~= Self::spec_fixed_fields());
            lemma_sso_fixed_len();
        }
        l
    }

    /// A fresh instance with this type's identifier and zeroed fields.
    pub fn new() -> (p: Self)
        ensures
            p.wf(),
            p.packet_id == 0x0825,
            p.packet_len == 0 && p.version == 0 && p.client_type == 0,
            p.t1@.len() == 0,
            forall|j: int| 0 <= j < 24 ==> p.id@[j] == 0u8,
            forall|j: int| 0 <= j < 27 ==> p.password@[j] == 0u8,
            forall|j: int| 0 <= j < 17 ==> p.mac_address@[j] == 0i8,
            forall|j: int| 0 <= j < 15 ==> p.ip@[j] == 0u8,
    {
        let mut mac: Vec<i8> = Vec::new();
        let mut i: usize = 0;
        while i < 17
            invariant
                0 <= i <= 17,
                mac@.len() == i,
                forall|j: int| 0 <= j < i ==> mac@[j] == 0i8,
            decreases 17 - i,
        {
            mac.push(0i8);
            i = i + 1;
        }
        PacketCaSsoLoginReq {
            packet_id: 0x0825,
            packet_len: 0,
            version: 0,
            client_type: 0,
            id: zero_bytes(24),
            password: zero_bytes(27),
            mac_address: mac,
            ip: zero_bytes(15),
            t1: Vec::new(),
        }
    }

    pub open spec fn spec_message(self) -> MessageModel {
        MessageModel {
            fields: seq![
                FieldValueModel::Scalar(self.packet_id as u64),
                FieldValueModel::Scalar((self.packet_len as u16) as u64),
                FieldValueModel::Scalar(self.version as u64),
                FieldValueModel::Scalar(self.client_type as u64),
                FieldValueModel::Array(
                    self.id@.map_values(|b: u8| ElemValueModel::Scalar(b as u64)),
                ),
                FieldValueModel::Array(
                    self.password@.map_values(|b: u8| ElemValueModel::Scalar(b as u64)),
                ),
                FieldValueModel::Array(
                    self.mac_address@.map_values(
                        |b: i8| ElemValueModel::Scalar((b as u8) as u64),
                    ),
                ),
                FieldValueModel::Array(
                    self.ip@.map_values(|b: u8| ElemValueModel::Scalar(b as u64)),
                ),
            ],
            trailing: self.t1@.map_values(|b: u8| ElemValueModel::Scalar(b as u64)),
        }
    }

    /// A well-formed request is field-valid for its layout, so encoding one
    /// is owed to succeed, whatever the token carries.
    pub proof fn lemma_conforms(self, l: FieldLayout)
        requires
            self.wf(),
            l.fixed@ == Self::spec_fixed_fields(),
            l.trailing == Some(ElemKind::Scalar(uint(1))),
        ensures
            msg_conforms(self.spec_message(), l),
    {
        let m = self.spec_message();
        reveal_with_fuel(scalar_bound, 6);
        assert forall|i: int| 0 <= i < m.fields.len() implies field_conforms(
            #[trigger] m.fields[i],
            l.fixed@[i],
        ) by {
            reveal_with_fuel(scalar_bound, 6);
        }
        assert forall|i: int| 0 <= i < m.trailing.len() implies elem_conforms(
            #[trigger] m.trailing[i],
            ElemKind::Scalar(uint(1)),
        ) by {
            reveal_with_fuel(scalar_bound, 6);
        }
    }

    /// Lowers this instance into the engine's message form.
    pub fn to_message(&self) -> (m: Message)
        ensures
            m@ == self.spec_message(),
    {
        let mut fields: Vec<FieldValue> = Vec::new();
        fields.push(FieldValue::Scalar(self.packet_id as u64));
        fields.push(FieldValue::Scalar((self.packet_len as u16) as u64));
        fields.push(FieldValue::Scalar(self.version as u64));
        fields.push(FieldValue::Scalar(self.client_type as u64));
        fields.push(FieldValue::Array(byte_elems(&self.id)));
        fields.push(FieldValue::Array(byte_elems(&self.password)));
        let mut mac_elems: Vec<ElemValue> = Vec::new();
        let mut i: usize = 0;
        while i < self.mac_address.len()
            invariant
                0 <= i <= self.mac_address@.len(),
                mac_elems@.len() == i,
                forall|j: int|
                    0 <= j < i ==> (#[trigger] mac_elems@[j]) == ElemValue::Scalar(
                        (self.mac_address@[j] as u8) as u64,
                    ),
            decreases self.mac_address@.len() - i,
        {
            mac_elems.push(ElemValue::Scalar((self.mac_address[i] as u8) as u64));
            i = i + 1;
        }
        proof {
            assert(mac_elems@.map_values(|e: ElemValue| e@) =~= self.mac_address@.map_values(
                |b: i8| ElemValueModel::Scalar((b as u8) as u64),
            ));
        }
        fields.push(FieldValue::Array(mac_elems));
        fields.push(FieldValue::Array(byte_elems(&self.ip)));
        let trailing = byte_elems(&self.t1);
        let m = Message { fields, trailing };
        proof {
            assert(m@.fields =~= self.spec_message().fields);
            assert(m@.trailing =~= self.spec_message().trailing);
            assert(m@ =~= self.spec_message());
        }
        m
    }
}

/// The login-accepted reply: a variable-length message whose trailing list
/// carries one 160-byte record per character server.
#[derive(Debug, PartialEq, Eq)]
pub struct PacketAcAcceptLogin2 {
    pub packet_id: u16,
    pub packet_len: i16,
    pub auth_code: i32,
    pub aid: u32,
    pub user_level: u32,
    pub last_login_ip: u32,
    pub last_login_time: Vec<u8>,
    pub sex: u8,
    pub twitter_auth_token: Vec<u8>,
    pub twitter_flag: u8,
    pub char_server_list: Vec<CharServerList>,
}

impl PacketAcAcceptLogin2 {
    pub open spec fn wf(self) -> bool {
        &&& self.last_login_time@.len() == 26
        &&& self.twitter_auth_token@.len() == 16
        &&& forall|j: int|
            0 <= j < self.char_server_list@.len() ==> (#[trigger] self.char_server_list@[j]).wf()
    }

    pub open spec fn spec_fixed_fields() -> Seq<FieldDesc> {
        seq![
            FieldDesc::Scalar(uint(2)),
            FieldDesc::Scalar(sint(2)),
            FieldDesc::Scalar(sint(4)),
            FieldDesc::Scalar(uint(4)),
            FieldDesc::Scalar(uint(4)),
            FieldDesc::Scalar(uint(4)),
            FieldDesc::FixedArray(ElemKind::Scalar(uint(1)), 26),
            FieldDesc::Scalar(uint(1)),
            FieldDesc::FixedArray(ElemKind::Scalar(uint(1)), 16),
            FieldDesc::Scalar(uint(1)),
        ]
    }

    /// This type's field layout: a 64-byte fixed part, then a trailing list
    /// of 160-byte character-server records.
    pub fn layout() -> (l: FieldLayout)
        ensures
            l.wf(),
            l.fixed@ == Self::spec_fixed_fields(),
            l.trailing matches Some(k) && k matches ElemKind::Record(r) && r.fields@
                == CharServerList::spec_fragment_fields(),
            l.spec_fixed_len() == 64,
            l.spec_var_unit() == 160,
    {
        let mut fixed: Vec<FieldDesc> = Vec::new();
        fixed.push(FieldDesc::Scalar(uint_exec(2)));
        fixed.push(FieldDesc::Scalar(sint_exec(2)));
        fixed.push(FieldDesc::Scalar(sint_exec(4)));
        fixed.push(FieldDesc::Scalar(uint_exec(4)));
        fixed.push(FieldDesc::Scalar(uint_exec(4)));
        fixed.push(FieldDesc::Scalar(uint_exec(4)));
        fixed.push(FieldDesc::FixedArray(ElemKind::Scalar(uint_exec(1)), 26));
        fixed.push(FieldDesc::Scalar(uint_exec(1)));
        fixed.push(FieldDesc::FixedArray(ElemKind::Scalar(uint_exec(1)), 16));
        fixed.push(FieldDesc::Scalar(uint_exec(1)));
        let fragment = CharServerList::fragment_layout();
        let l = FieldLayout { fixed, trailing: Some(ElemKind::Record(fragment)) };
        proof {
            assert(l.fixed@ =~= Self::spec_fixed_fields());
            lemma_accept_fixed_len();
            lemma_fragment_len();
        }
        l
    }

    /// A fresh instance with this type's identifier and zeroed fields.
    pub fn new() -> (p: Self)
        ensures
            p.wf(),
            p.packet_id == 0x0AC4,
            p.packet_len == 0 && p.auth_code == 0 && p.aid == 0,
            p.user_level == 0 && p.last_login_ip == 0 && p.sex == 0 && p.twitter_flag == 0,
            forall|j: int| 0 <= j < 26 ==> p.last_login_time@[j] == 0u8,
            forall|j: int| 0 <= j < 16 ==> p.twitter_auth_token@[j] == 0u8,
            p.char_server_list@.len() == 0,
    {
        PacketAcAcceptLogin2 {
            packet_id: 0x0AC4,
            packet_len: 0,
            auth_code: 0,
            aid: 0,
            user_level: 0,
            last_login_ip: 0,
            last_login_time: zero_bytes(26),
            sex: 0,
            twitter_auth_token: zero_bytes(16),
            twitter_flag: 0,
            char_server_list: Vec::new(),
        }
    }

    pub open spec fn spec_message(self) -> MessageModel {
        MessageModel {
            fields: seq![
                FieldValueModel::Scalar(self.packet_id as u64),
                FieldValueModel::Scalar((self.packet_len as u16) as u64),
                FieldValueModel::Scalar((self.auth_code as u32) as u64),
                FieldValueModel::Scalar(self.aid as u64),
                FieldValueModel::Scalar(self.user_level as u64),
                FieldValueModel::Scalar(self.last_login_ip as u64),
                FieldValueModel::Array(
                    self.last_login_time@.map_values(|b: u8| ElemValueModel::Scalar(b as u64)),
                ),
                FieldValueModel::Scalar(self.sex as u64),
                FieldValueModel::Array(
                    self.twitter_auth_token@.map_values(
                        |b: u8| ElemValueModel::Scalar(b as u64),
                    ),
                ),
                FieldValueModel::Scalar(self.twitter_flag as u64),
            ],
            trailing: self.char_server_list@.map_values(
                |s: CharServerList| ElemValueModel::Record(s.spec_record()),
            ),
        }
    }

    /// A well-formed reply is field-valid for its layout, so encoding one
    /// is owed to succeed, whatever servers it lists.
    pub proof fn lemma_conforms(self, l: FieldLayout, rl: RecordLayout)
        requires
            self.wf(),
            l.fixed@ == Self::spec_fixed_fields(),
            l.trailing == Some(ElemKind::Record(rl)),
            rl.fields@ == CharServerList::spec_fragment_fields(),
        ensures
            msg_conforms(self.spec_message(), l),
    {
        let m = self.spec_message();
        reveal_with_fuel(scalar_bound, 6);
        assert forall|i: int| 0 <= i < m.fields.len() implies field_conforms(
            #[trigger] m.fields[i],
            l.fixed@[i],
        ) by {
            reveal_with_fuel(scalar_bound, 6);
        }
        assert forall|i: int| 0 <= i < m.trailing.len() implies elem_conforms(
            #[trigger] m.trailing[i],
            ElemKind::Record(rl),
        ) by {
            assert(m.trailing[i] == ElemValueModel::Record(
                self.char_server_list@[i].spec_record(),
            ));
            assert(self.char_server_list@[i].wf());
            self.char_server_list@[i].lemma_conforms(rl);
        }
    }

    /// Lowers this instance into the engine's message form.
    pub fn to_message(&self) -> (m: Message)
        ensures
            m@ == self.spec_message(),
    {
        let mut fields: Vec<FieldValue> = Vec::new();
        fields.push(FieldValue::Scalar(self.packet_id as u64));
        fields.push(FieldValue::Scalar((self.packet_len as u16) as u64));
        fields.push(FieldValue::Scalar((self.auth_code as u32) as u64));
        fields.push(FieldValue::Scalar(self.aid as u64));
        fields.push(FieldValue::Scalar(self.user_level as u64));
        fields.push(FieldValue::Scalar(self.last_login_ip as u64));
        fields.push(FieldValue::Array(byte_elems(&self.last_login_time)));
        fields.push(FieldValue::Scalar(self.sex as u64));
        fields.push(FieldValue::Array(byte_elems(&self.twitter_auth_token)));
        fields.push(FieldValue::Scalar(self.twitter_flag as u64));
        let mut trailing: Vec<ElemValue> = Vec::new();
        let mut i: usize = 0;
        while i < self.char_server_list.len()
            invariant
                0 <= i <= self.char_server_list@.len(),
                trailing@.len() == i,
                forall|j: int|
                    0 <= j < i ==> (#[trigger] trailing@[j])@ == ElemValueModel::Record(
                        self.char_server_list@[j].spec_record(),
                    ),
            decreases self.char_server_list@.len() - i,
        {
            let rv = self.char_server_list[i].to_record();
            trailing.push(ElemValue::Record(rv));
            i = i + 1;
        }
        let m = Message { fields, trailing };
        proof {
            assert(m@.fields =~= self.spec_message().fields);
            assert(m@.trailing =~= self.spec_message().trailing);
            assert(m@ =~= self.spec_message());
        }
        m
    }
}

} // verus!
