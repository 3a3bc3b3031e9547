//! NaN-boxed Lox values.
//!
//! A value is a 64-bit word. Numbers are stored as the raw bits of an IEEE-754
//! double; every other kind of value lives inside the quiet-NaN space: `nil`,
//! `false` and `true` use small tags, and heap objects set the sign bit and
//! keep the object's address (a handle) in the low bits.
use vstd::prelude::*;

verus! {

/// Quiet-NaN bit pattern that marks every non-number value.
pub const QNAN: u64 = 0x7FFC_0000_0000_0000;
/// Sign bit; set on object values.
pub const SIGN_BIT: u64 = 0x8000_0000_0000_0000;
/// The word that encodes `nil`.
pub const NIL_VAL: u64 = 0x7FFC_0000_0000_0001;
/// The word that encodes `false`.
pub const FALSE_VAL: u64 = 0x7FFC_0000_0000_0002;
/// The word that encodes `true`.
pub const TRUE_VAL: u64 = 0x7FFC_0000_0000_0003;
/// Mask of the bits that tag an object value.
pub const OBJ_TAG: u64 = 0xFFFC_0000_0000_0000;

/// A Lox value in its NaN-boxed encoding.
#[derive(Debug, Clone, Copy)]
pub struct Value(pub u64);

/// Number values: every word whose quiet-NaN bits are not all set.
pub open spec fn spec_is_number(bits: u64) -> bool {
    bits & QNAN != QNAN
}

/// Boolean values: exactly the two words for `false` and `true`.
pub open spec fn spec_is_bool(bits: u64) -> bool {
    bits == FALSE_VAL || bits == TRUE_VAL
}

/// The nil value.
pub open spec fn spec_is_nil(bits: u64) -> bool {
    bits == NIL_VAL
}

/// Object values: sign bit and quiet-NaN bits all set.
pub open spec fn spec_is_obj(bits: u64) -> bool {
    bits & OBJ_TAG == OBJ_TAG
}

/// The handle carried by an object value: the word without its tag bits.
pub open spec fn spec_obj_handle(bits: u64) -> u64 {
    bits & !OBJ_TAG
}

/// Handles that survive a round trip through an object value: those that
/// leave every tag bit clear.
pub open spec fn handle_fits(handle: u64) -> bool {
    handle & OBJ_TAG == 0
}

impl Value {
    /// The boolean `b`.
    pub fn from_bool(b: bool) -> (v: Value)
        ensures
            v.0 == (if b { TRUE_VAL } else { FALSE_VAL }),
    {
        Value(if b { TRUE_VAL } else { FALSE_VAL })
    }

    /// An object value for the object at `handle`.
    pub fn from_obj(handle: u64) -> (v: Value)
        ensures
            v.0 == SIGN_BIT | QNAN | handle,
    {
        Value(SIGN_BIT | QNAN | handle)
    }

    /// The value `nil`.
    pub fn nil() -> (v: Value)
        ensures
            v.0 == NIL_VAL,
    {
        Value(NIL_VAL)
    }

    /// Whether this value is a number.
    pub fn is_number(self) -> (r: bool)
        ensures
            r == spec_is_number(self.0),
    {
        (self.0 & QNAN) != QNAN
    }

    /// Whether this value is a boolean.
    pub fn is_bool(self) -> (r: bool)
        ensures
            r == spec_is_bool(self.0),
    {
        let bits = self.0;
        assert((bits | 1) == TRUE_VAL <==> (bits == FALSE_VAL || bits == TRUE_VAL)) by (bit_vector);
        (self.0 | 1) == TRUE_VAL
    }

    /// Whether this value is `nil`.
    pub fn is_nil(self) -> (r: bool)
        ensures
            r == spec_is_nil(self.0),
    {
        self.0 == NIL_VAL
    }

    /// Whether this value is a heap object.
    pub fn is_obj(self) -> (r: bool)
        ensures
            r == spec_is_obj(self.0),
    {
        assert(QNAN | SIGN_BIT == OBJ_TAG) by (bit_vector);
        self.0 & (QNAN | SIGN_BIT) == (QNAN | SIGN_BIT)
    }

    /// Whether this value counts as false in a condition: `nil` and `false`.
    pub fn is_falsey(self) -> (r: bool)
        ensures
            r == (self.0 == NIL_VAL || self.0 == FALSE_VAL),
    {
        self.is_nil() || self.0 == FALSE_VAL
    }

    /// The boolean held by this value (`true` only for the word of `true`).
    pub fn as_bool(self) -> (r: bool)
        ensures
            r == (self.0 == TRUE_VAL),
    {
        self.0 == TRUE_VAL
    }

    /// The object handle held by this value.
    pub fn as_obj(self) -> (h: u64)
        ensures
            h == spec_obj_handle(self.0),
    {
        assert(SIGN_BIT | QNAN == OBJ_TAG) by (bit_vector);
        self.0 & !(SIGN_BIT | QNAN)
    }
}

/// Every value is of at most one kind: number, boolean, nil or object.
pub proof fn lemma_kinds_exclusive(bits: u64)
    ensures
        spec_is_number(bits) ==> !spec_is_bool(bits) && !spec_is_nil(bits) && !spec_is_obj(bits),
        spec_is_bool(bits) ==> !spec_is_nil(bits) && !spec_is_obj(bits),
        spec_is_nil(bits) ==> !spec_is_obj(bits),
{
    assert(bits & 0xFFFC_0000_0000_0000u64 == 0xFFFC_0000_0000_0000u64
        ==> bits & 0x7FFC_0000_0000_0000u64 == 0x7FFC_0000_0000_0000u64) by (bit_vector);
    assert(bits == 0x7FFC_0000_0000_0001u64 || bits == 0x7FFC_0000_0000_0002u64
        || bits == 0x7FFC_0000_0000_0003u64
        ==> bits & 0x7FFC_0000_0000_0000u64 == 0x7FFC_0000_0000_0000u64
            && bits & 0xFFFC_0000_0000_0000u64 != 0xFFFC_0000_0000_0000u64) by (bit_vector);
}

/// The constructors and accessors agree: a boolean reads back as itself,
/// nil is nil, and an object value made from a handle that leaves the tag
/// bits clear is an object that gives the handle back. Exactly `nil` and
/// `false` are falsey among these.
pub proof fn lemma_value_roundtrip(b: bool, handle: u64)
    ensures
        spec_is_bool(if b { TRUE_VAL } else { FALSE_VAL }),
        (if b { TRUE_VAL } else { FALSE_VAL }) == TRUE_VAL <==> b,
        spec_is_nil(NIL_VAL),
        handle_fits(handle) ==> spec_is_obj(SIGN_BIT | QNAN | handle),
        handle_fits(handle) ==> spec_obj_handle(SIGN_BIT | QNAN | handle) == handle,
{
    assert(handle & 0xFFFC_0000_0000_0000u64 == 0 ==> (0x8000_0000_0000_0000u64
        | 0x7FFC_0000_0000_0000u64 | handle) & 0xFFFC_0000_0000_0000u64
        == 0xFFFC_0000_0000_0000u64) by (bit_vector);
    assert(handle & 0xFFFC_0000_0000_0000u64 == 0 ==> (0x8000_0000_0000_0000u64
        | 0x7FFC_0000_0000_0000u64 | handle) & !0xFFFC_0000_0000_0000u64 == handle) by (bit_vector);
}

} // verus!
