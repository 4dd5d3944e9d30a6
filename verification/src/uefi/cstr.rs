//! Nul-terminated UCS-2 strings, as the firmware takes and returns them.
use vstd::prelude::*;
use ucs2::Error as EncodeError;
use super::status::{Status, INVALID_PARAMETER};

verus! {

/// The UCS-2 error type of the `ucs2` crate.
#[verifier::external_type_specification]
#[verifier::external_body]
pub struct ExEncodeError(EncodeError);

/// Why a sequence of UCS-2 units is not a nul-terminated string: no nul, or a nul before the end.
#[derive(Clone, Copy, Debug, PartialEq, Eq, Structural)]
pub struct FromU16sWithNulError;

/// Why a sequence of UCS-2 characters is not a nul-terminated string: no nul, or a nul before the
/// end.
#[derive(Clone, Copy, Debug, PartialEq, Eq, Structural)]
pub struct FromCharsWithNulError;

impl From<FromU16sWithNulError> for Status {
    fn from(e: FromU16sWithNulError) -> (r: Self) {
        Status(INVALID_PARAMETER)
    }
}

impl vstd::std_specs::convert::FromSpecImpl<FromU16sWithNulError> for Status {
    open spec fn obeys_from_spec() -> bool {
        true
    }

    open spec fn from_spec(e: FromU16sWithNulError) -> Self {
        Status(INVALID_PARAMETER)
    }
}

impl From<FromCharsWithNulError> for Status {
    fn from(e: FromCharsWithNulError) -> (r: Self) {
        Status(INVALID_PARAMETER)
    }
}

impl vstd::std_specs::convert::FromSpecImpl<FromCharsWithNulError> for Status {
    open spec fn obeys_from_spec() -> bool {
        true
    }

    open spec fn from_spec(e: FromCharsWithNulError) -> Self {
        Status(INVALID_PARAMETER)
    }
}

/// Whether `units` is a nul-terminated string: it ends in a nul, and holds no other.
pub open spec fn is_nul_terminated(units: Seq<u16>) -> bool {
    &&& units.len() > 0
    &&& units.last() == 0
    &&& forall|i: int| 0 <= i < units.len() - 1 ==> units[i] != 0
}

/// A nul-terminated string of UCS-2 units, with no nul but the last unit.
pub struct U16CStr {
    units: Vec<u16>,
}

impl U16CStr {
    /// The units of the string, the terminating nul included.
    pub closed spec fn view(&self) -> Seq<u16> {
        self.units@
    }

    #[verifier::type_invariant]
    closed spec fn wf(&self) -> bool {
        is_nul_terminated(self.units@)
    }

    /// The string made of the units of `slice`, which must end in its only nul.
    ///
    /// Errors: `FromU16sWithNulError` when `slice` holds no nul or one before its end.
    pub fn from_u16s_with_nul(slice: &[u16]) -> (r: core::result::Result<Self, FromU16sWithNulError>)
        ensures
            is_nul_terminated(slice@) <==> r is Ok,
            r matches Ok(s) ==> s@ == slice@,
    {
        match Self::copy_nul_terminated(slice) {
            Some(s) => Ok(s),
            None => Err(FromU16sWithNulError),
        }
    }

    /// The string made of the characters of `slice`, which must end in its only nul.
    ///
    /// Errors: `FromCharsWithNulError` when `slice` holds no nul or one before its end.
    pub fn from_chars_with_nul(slice: &[u16]) -> (r: core::result::Result<Self, FromCharsWithNulError>)
        ensures
            is_nul_terminated(slice@) <==> r is Ok,
            r matches Ok(s) ==> s@ == slice@,
    {
        match Self::copy_nul_terminated(slice) {
            Some(s) => Ok(s),
            None => Err(FromCharsWithNulError),
        }
    }

    /// Copies `slice` into a string if it ends in its only nul.
    fn copy_nul_terminated(slice: &[u16]) -> (r: Option<Self>)
        ensures
            is_nul_terminated(slice@) <==> r is Some,
            r matches Some(s) ==> s@ == slice@,
    {
        let mut units: Vec<u16> = Vec::new();
        let mut i: usize = 0;
        while i < slice.len()
            invariant
                i <= slice@.len(),
                units@ == slice@.take(i as int),
                forall|j: int| 0 <= j < i ==> slice@[j] != 0,
            decreases slice@.len() - i,
        {
            let c = slice[i];
            if c == 0 {
                if i + 1 != slice.len() {
                    return None;
                }
                units.push(c);
                proof {
                    assert(units@ =~= slice@);
                }
                return Some(U16CStr { units });
            }
            units.push(c);
            proof {
                assert(slice@.take(i + 1) =~= slice@.take(i as int).push(c));
            }
            i = i + 1;
        }
        None
    }

    /// The units of the string, the terminating nul included.
    pub fn to_u16s_with_nul(&self) -> (r: &[u16])
        ensures
            r@ == self@,
            is_nul_terminated(r@),
    {
        proof {
            use_type_invariant(self);
        }
        self.units.as_slice()
    }

    /// The units of the string, the terminating nul included.
    pub fn as_slice(&self) -> (r: &[u16])
        ensures
            r@ == self@,
            is_nul_terminated(r@),
    {
        proof {
            use_type_invariant(self);
        }
        self.units.as_slice()
    }

    /// The units of the string, without the terminating nul.
    pub fn to_u16s(&self) -> (r: &[u16])
        ensures
            r@ == self@.drop_last(),
            forall|i: int| 0 <= i < r@.len() ==> r@[i] != 0,
    {
        proof {
            use_type_invariant(self);
        }
        let all = self.units.as_slice();
        let r = vstd::slice::slice_subrange(all, 0, all.len() - 1);
        proof {
            assert(r@ =~= self@.drop_last());
        }
        r
    }
}

/// How many leading characters of `s` UCS-2 can hold: up to the first character outside the
/// Basic Multilingual Plane.
pub open spec fn bmp_prefix_len(s: Seq<char>) -> int
    decreases s.len(),
{
    if s.len() == 0 {
        0
    } else if s[0] as u32 >= 0x10000 {
        0
    } else {
        1 + bmp_prefix_len(s.drop_first())
    }
}

/// The UCS-2 units of the characters of `s`, each of which lies in the Basic Multilingual Plane.
pub open spec fn ucs2_units(s: Seq<char>) -> Seq<u16> {
    s.map_values(|c: char| (c as u32) as u16)
}

/// Appends `unit` to `units`; used as the sink of the UCS-2 encoder.
fn push_unit(units: &mut Vec<u16>, unit: u16) -> (r: core::result::Result<(), EncodeError>)
    ensures
        final(units)@ == old(units)@.push(unit),
        r is Ok,
{
    units.push(unit);
    Ok(())
}

/// Encodes `s` as UCS-2 with `ucs2::encode_with`, collecting the units it hands out.
///
/// `encode_with` hands out, in order, the code point of each character of `s` up to the first one
/// outside the Basic Multilingual Plane, and fails with `MultiByte` at that character if there is
/// one. The units collected are those of the characters before it.
#[verifier::external_body]
pub(crate) fn ucs2_encode_units(s: &str) -> (r: (Vec<u16>, core::result::Result<(), EncodeError>))
    ensures
        r.0@ == ucs2_units(s@.take(bmp_prefix_len(s@))),
        r.1 is Ok <==> bmp_prefix_len(s@) == s@.len(),
{
    let mut units: Vec<u16> = Vec::new();
    let res = ucs2::encode_with(s, |unit| push_unit(&mut units, unit));
    (units, res)
}

/// The number of leading characters that UCS-2 can hold is at most the length.
pub proof fn lemma_bmp_prefix_len(s: Seq<char>)
    ensures
        0 <= bmp_prefix_len(s) <= s.len(),
        forall|i: int| 0 <= i < bmp_prefix_len(s) ==> (s[i] as u32) < 0x10000,
        bmp_prefix_len(s) < s.len() ==> s[bmp_prefix_len(s)] as u32 >= 0x10000,
    decreases s.len(),
{
    if s.len() > 0 && (s[0] as u32) < 0x10000 {
        lemma_bmp_prefix_len(s.drop_first());
        assert forall|i: int| 0 <= i < bmp_prefix_len(s) implies (s[i] as u32) < 0x10000 by {
            if i > 0 {
                assert(s[i] == s.drop_first()[i - 1]);
            }
        }
    }
}

/// The nul-terminated UCS-2 string holding `lit`, which must hold no nul and only characters of
/// the Basic Multilingual Plane.
pub fn u16cstr(lit: &str) -> (r: U16CStr)
    requires
        bmp_prefix_len(lit@) == lit@.len(),
        forall|i: int| 0 <= i < lit@.len() ==> lit@[i] as u32 != 0,
    ensures
        r@ == ucs2_units(lit@).push(0),
{
    let (mut units, res) = ucs2_encode_units(lit);
    proof {
        lemma_bmp_prefix_len(lit@);
        assert(lit@.take(lit@.len() as int) =~= lit@);
    }
    units.push(0);
    proof {
        let n = lit@.len() as int;
        assert forall|i: int| 0 <= i < units@.len() - 1 implies units@[i] != 0 by {
            let c = lit@[i] as u32;
            assert(units@[i] == c as u16);
            assert(c < 0x10000 && c != 0);
            assert(c < 0x10000 && c != 0 ==> c as u16 != 0) by (bit_vector);
        }
    }
    U16CStr { units }
}

} // verus!
