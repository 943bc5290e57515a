//! Static field layouts.
//!
//! A `FieldLayout` describes one message type: an ordered run of fixed-size
//! fields (scalars, fixed arrays, nested records) followed by at most one
//! trailing variable-length list, which consumes every byte remaining in the
//! message. A nested record is one level deep only: its fields are scalars
//! and fixed arrays of scalars, and it has no trailing list of its own.

use vstd::prelude::*;

verus! {

/// Largest byte length a layout may describe; a message's self-declared
/// length field is 16 bits, so no wire message is longer than this.
pub const MAX_WIRE_LEN: usize = 65535;

/// A single little-endian integer of width 1, 2, 4 or 8 bytes. Signedness
/// does not change the byte layout; it records how consumers interpret the
/// raw value.
#[derive(Clone, Copy, Debug, PartialEq, Eq, Structural)]
pub struct ScalarKind {
    pub width: usize,
    pub signed: bool,
}

impl ScalarKind {
    pub open spec fn wf(self) -> bool {
        self.width == 1 || self.width == 2 || self.width == 4 || self.width == 8
    }
}

/// A field of a nested record: a scalar, or a fixed-count array of scalars.
#[derive(Clone, Copy, Debug, PartialEq, Eq, Structural)]
pub enum RecordField {
    Scalar(ScalarKind),
    FixedArray(ScalarKind, usize),
}

/// A nested record layout: a fixed-length sub-layout usable inside a fixed
/// array or a trailing list.
#[derive(Debug)]
pub struct RecordLayout {
    pub fields: Vec<RecordField>,
}

/// The element kind of a fixed array or trailing list: a scalar or a nested
/// record.
#[derive(Debug)]
pub enum ElemKind {
    Scalar(ScalarKind),
    Record(RecordLayout),
}

/// One fixed-size field descriptor of a message layout.
#[derive(Debug)]
pub enum FieldDesc {
    Scalar(ScalarKind),
    FixedArray(ElemKind, usize),
}

/// The ordered field descriptors of one message type. The trailing list, if
/// present, is by construction the final field, and there is at most one.
#[derive(Debug)]
pub struct FieldLayout {
    pub fixed: Vec<FieldDesc>,
    pub trailing: Option<ElemKind>,
}

/// Byte length of one record field.
pub open spec fn record_field_len(f: RecordField) -> nat {
    match f {
        RecordField::Scalar(k) => k.width as nat,
        RecordField::FixedArray(k, c) => (c as nat) * (k.width as nat),
    }
}

/// Byte length of a nested record: the sum of its fields' lengths.
pub open spec fn record_len(fields: Seq<RecordField>) -> nat
    decreases fields.len(),
{
    if fields.len() == 0 {
        0
    } else {
        record_field_len(fields[0]) + record_len(fields.drop_first())
    }
}

/// Byte length of one array or list element.
pub open spec fn elem_len(k: ElemKind) -> nat {
    match k {
        ElemKind::Scalar(s) => s.width as nat,
        ElemKind::Record(r) => record_len(r.fields@),
    }
}

/// Byte length contributed by one fixed field descriptor.
pub open spec fn desc_len(d: FieldDesc) -> nat {
    match d {
        FieldDesc::Scalar(k) => k.width as nat,
        FieldDesc::FixedArray(k, c) => (c as nat) * elem_len(k),
    }
}

/// Byte length of a run of fixed field descriptors.
pub open spec fn descs_len(ds: Seq<FieldDesc>) -> nat
    decreases ds.len(),
{
    if ds.len() == 0 {
        0
    } else {
        desc_len(ds[0]) + descs_len(ds.drop_first())
    }
}

impl RecordField {
    pub open spec fn wf(self) -> bool {
        match self {
            RecordField::Scalar(k) => k.wf(),
            RecordField::FixedArray(k, c) => k.wf() && c <= MAX_WIRE_LEN,
        }
    }
}

impl RecordLayout {
    pub open spec fn wf(self) -> bool {
        &&& forall|i: int| 0 <= i < self.fields@.len() ==> self.fields@[i].wf()
        &&& record_len(self.fields@) <= MAX_WIRE_LEN
    }
}

impl ElemKind {
    pub open spec fn wf(self) -> bool {
        match self {
            ElemKind::Scalar(s) => s.wf(),
            ElemKind::Record(r) => r.wf(),
        }
    }
}

impl FieldDesc {
    pub open spec fn wf(self) -> bool {
        match self {
            FieldDesc::Scalar(k) => k.wf(),
            FieldDesc::FixedArray(k, c) => k.wf() && c <= MAX_WIRE_LEN,
        }
    }
}

impl FieldLayout {
    /// FixedLen: the constant byte count of the fixed part of a message.
    pub open spec fn spec_fixed_len(self) -> nat {
        descs_len(self.fixed@)
    }

    /// VariableUnitLen: the byte count of one trailing-list element, or 0
    /// when the layout has no trailing list.
    pub open spec fn spec_var_unit(self) -> nat {
        match self.trailing {
            None => 0,
            Some(k) => elem_len(k),
        }
    }

    pub open spec fn wf(self) -> bool {
        &&& forall|i: int| 0 <= i < self.fixed@.len() ==> self.fixed@[i].wf()
        &&& descs_len(self.fixed@) <= MAX_WIRE_LEN
        &&& match self.trailing {
            None => true,
            Some(k) => k.wf() && 1 <= elem_len(k),
        }
    }

    /// The length-validity rule: a byte count `len` is decodable when it
    /// covers the fixed part exactly, or exceeds it by a whole number of
    /// trailing-list elements.
    pub open spec fn spec_valid_len(self, len: int) -> bool {
        &&& len >= self.spec_fixed_len()
        &&& (len == self.spec_fixed_len() || (self.spec_var_unit() > 0 && (len
            - self.spec_fixed_len()) % (self.spec_var_unit() as int) == 0))
    }
}

/// Checks that a scalar width is one of the supported widths.
fn scalar_kind_ok(k: &ScalarKind) -> (b: bool)
    ensures
        b == k.wf(),
{
    k.width == 1 || k.width == 2 || k.width == 4 || k.width == 8
}

/// Computes a nested record's byte length, or reports that the record is not
/// well formed.
fn record_len_checked(r: &RecordLayout) -> (res: Option<usize>)
    ensures
        match res {
            Some(n) => r.wf() && n == record_len(r.fields@),
            None => !r.wf(),
        },
{
    let ghost s = r.fields@;
    proof {
        assert(s.skip(0) =~= s);
    }
    let mut acc: usize = 0;
    let mut i: usize = 0;
    while i < r.fields.len()
        invariant
            0 <= i <= s.len(),
            s == r.fields@,
            acc <= MAX_WIRE_LEN,
            record_len(s) == acc + record_len(s.skip(i as int)),
            forall|j: int| 0 <= j < i ==> s[j].wf(),
        decreases s.len() - i,
    {
        proof {
            assert(s.skip(i as int).drop_first() =~= s.skip(i + 1));
            assert(s.skip(i as int)[0] == s[i as int]);
        }
        let term: usize = match r.fields[i] {
            RecordField::Scalar(k) => {
                if !scalar_kind_ok(&k) {
                    return None;
                }
                k.width
            },
            RecordField::FixedArray(k, c) => {
                if !scalar_kind_ok(&k) || c > MAX_WIRE_LEN {
                    return None;
                }
                proof {
                    assert((c as nat) * (k.width as nat) <= 65535 * 8) by (nonlinear_arith)
                        requires
                            c <= 65535,
                            k.width <= 8,
                    ;
                }
                c * k.width
            },
        };
        if term > MAX_WIRE_LEN - acc {
            proof {
                assert(record_len(s) > MAX_WIRE_LEN);
            }
            return None;
        }
        acc = acc + term;
        i = i + 1;
    }
    proof {
        assert(s.skip(s.len() as int) =~= Seq::<RecordField>::empty());
    }
    Some(acc)
}

/// Computes one element kind's byte length, or reports that it is not well
/// formed.
fn elem_len_checked(k: &ElemKind) -> (res: Option<usize>)
    ensures
        match res {
            Some(n) => k.wf() && n == elem_len(*k) && n <= MAX_WIRE_LEN,
            None => !k.wf(),
        },
{
    match k {
        ElemKind::Scalar(s) => {
            if scalar_kind_ok(s) {
                Some(s.width)
            } else {
                None
            }
        },
        ElemKind::Record(r) => record_len_checked(r),
    }
}

/// Computes one fixed field descriptor's byte length, or reports that it is
/// not well formed.
fn desc_len_checked(d: &FieldDesc) -> (res: Option<usize>)
    ensures
        match res {
            Some(n) => d.wf() && n == desc_len(*d),
            None => !d.wf(),
        },
{
    match d {
        FieldDesc::Scalar(k) => {
            if scalar_kind_ok(k) {
                Some(k.width)
            } else {
                None
            }
        },
        FieldDesc::FixedArray(k, c) => {
            let e = match elem_len_checked(k) {
                Some(e) => e,
                None => {
                    return None;
                },
            };
            if *c > MAX_WIRE_LEN {
                return None;
            }
            proof {
                assert((*c as nat) * elem_len(*k) <= 65535 * 65535) by (nonlinear_arith)
                    requires
                        *c <= 65535,
                        elem_len(*k) <= 65535,
                ;
            }
            Some(*c * e)
        },
    }
}

impl ElemKind {
    /// Byte length of one element of this kind, as an executable value.
    pub fn byte_len(&self) -> (n: usize)
        requires
            self.wf(),
        ensures
            n == elem_len(*self),
            n <= MAX_WIRE_LEN,
    {
        match elem_len_checked(self) {
            Some(n) => n,
            None => {
                proof {
                    assert(false);
                }
                0
            },
        }
    }
}

impl FieldLayout {
    /// Checks the whole layout: supported scalar widths, bounded sizes, and
    /// a trailing list whose element occupies at least one byte.
    pub fn check_wf(&self) -> (b: bool)
        ensures
            b == self.wf(),
    {
        let ghost s = self.fixed@;
        proof {
            assert(s.skip(0) =~= s);
        }
        let mut acc: usize = 0;
        let mut i: usize = 0;
        while i < self.fixed.len()
            invariant
                0 <= i <= s.len(),
                s == self.fixed@,
                acc <= MAX_WIRE_LEN,
                descs_len(s) == acc + descs_len(s.skip(i as int)),
                forall|j: int| 0 <= j < i ==> s[j].wf(),
            decreases s.len() - i,
        {
            proof {
                assert(s.skip(i as int).drop_first() =~= s.skip(i + 1));
                assert(s.skip(i as int)[0] == s[i as int]);
            }
            let term: usize = match desc_len_checked(&self.fixed[i]) {
                Some(n) => n,
                None => {
                    return false;
                },
            };
            if term > MAX_WIRE_LEN - acc {
                proof {
                    assert(descs_len(s) > MAX_WIRE_LEN);
                }
                return false;
            }
            acc = acc + term;
            i = i + 1;
        }
        proof {
            assert(s.skip(s.len() as int) =~= Seq::<FieldDesc>::empty());
        }
        match &self.trailing {
            None => true,
            Some(k) => match elem_len_checked(k) {
                Some(u) => u >= 1,
                None => false,
            },
        }
    }

    /// FixedLen of this layout, as an executable value.
    pub fn fixed_len(&self) -> (n: usize)
        requires
            self.wf(),
        ensures
            n == self.spec_fixed_len(),
            n <= MAX_WIRE_LEN,
    {
        let ghost s = self.fixed@;
        proof {
            assert(s.skip(0) =~= s);
        }
        let mut acc: usize = 0;
        let mut i: usize = 0;
        while i < self.fixed.len()
            invariant
                self.wf(),
                0 <= i <= s.len(),
                s == self.fixed@,
                descs_len(s) == acc + descs_len(s.skip(i as int)),
                descs_len(s) <= MAX_WIRE_LEN,
            decreases s.len() - i,
        {
            proof {
                assert(s.skip(i as int).drop_first() =~= s.skip(i + 1));
                assert(s.skip(i as int)[0] == s[i as int]);
            }
            let term: usize = match desc_len_checked(&self.fixed[i]) {
                Some(n) => n,
                None => {
                    proof {
                        assert(s[i as int].wf());
                        assert(false);
                    }
                    0
                },
            };
            acc = acc + term;
            i = i + 1;
        }
        proof {
            assert(s.skip(s.len() as int) =~= Seq::<FieldDesc>::empty());
        }
        acc
    }

    /// VariableUnitLen of this layout, as an executable value.
    pub fn var_unit(&self) -> (n: usize)
        requires
            self.wf(),
        ensures
            n == self.spec_var_unit(),
            n <= MAX_WIRE_LEN,
    {
        match &self.trailing {
            None => 0,
            Some(k) => match elem_len_checked(k) {
                Some(u) => u,
                None => {
                    proof {
                        assert(false);
                    }
                    0
                },
            },
        }
    }

    /// The length-validity check of a presented byte count against this
    /// layout, exactly the fixed/variable divisibility rule.
    pub fn has_valid_length(&self, length: usize) -> (b: bool)
        requires
            self.wf(),
        ensures
            b == self.spec_valid_len(length as int),
    {
        let f = self.fixed_len();
        if length < f {
            return false;
        }
        let rem = length - f;
        let u = self.var_unit();
        rem == 0 || (u > 0 && rem % u == 0)
    }
}

} // verus!
