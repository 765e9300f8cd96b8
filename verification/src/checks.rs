//! Static checks on the total width of a record: a marker type for each
//! remainder modulo eight, of which only the one for zero passes.

use vstd::prelude::*;
use crate::error::LayoutError;

verus! {

/// Implemented by the marker of a total width that is a multiple of eight,
/// and by no other.
pub trait TotalSizeIsMultipleOfEightBits {

}

impl TotalSizeIsMultipleOfEightBits for ZeroMod8 {

}

/// The total width is a multiple of eight.
pub struct ZeroMod8;

/// The total width is one more than a multiple of eight.
pub struct OneMod8;

/// The total width is two more than a multiple of eight.
pub struct TwoMod8;

/// The total width is three more than a multiple of eight.
pub struct ThreeMod8;

/// The total width is four more than a multiple of eight.
pub struct FourMod8;

/// The total width is five more than a multiple of eight.
pub struct FiveMod8;

/// The total width is six more than a multiple of eight.
pub struct SixMod8;

/// The total width is seven more than a multiple of eight.
pub struct SevenMod8;

/// A total width with the remainder `MOD` modulo eight.
pub struct BitSizeMod<const MOD: usize>;

/// Names the marker of a remainder.
pub trait AssertMod8 {
    /// The marker.
    type CheckType;
}

impl AssertMod8 for BitSizeMod<0> {
    type CheckType = ZeroMod8;
}

impl AssertMod8 for BitSizeMod<1> {
    type CheckType = OneMod8;
}

impl AssertMod8 for BitSizeMod<2> {
    type CheckType = TwoMod8;
}

impl AssertMod8 for BitSizeMod<3> {
    type CheckType = ThreeMod8;
}

impl AssertMod8 for BitSizeMod<4> {
    type CheckType = FourMod8;
}

impl AssertMod8 for BitSizeMod<5> {
    type CheckType = FiveMod8;
}

impl AssertMod8 for BitSizeMod<6> {
    type CheckType = SixMod8;
}

impl AssertMod8 for BitSizeMod<7> {
    type CheckType = SevenMod8;
}

impl<const MOD: usize> BitSizeMod<MOD> {
    /// The same check on a remainder that is known only when the program
    /// runs: passes for zero, and reports any other remainder.
    pub fn check() -> (r: Result<(), LayoutError>)
        ensures
            r is Ok <==> MOD == 0,
            r is Err ==> r->Err_0 == (LayoutError::NotByteAligned { remainder: MOD }),
    {
        if MOD == 0 {
            Ok(())
        } else {
            Err(LayoutError::NotByteAligned { remainder: MOD })
        }
    }
}

} // verus!
