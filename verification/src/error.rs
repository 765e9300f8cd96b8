//! What can be wrong with a packed layout or with a closed set of values.

use vstd::prelude::*;

verus! {

/// A defect of a record layout or of an enumeration packed into it.
#[derive(Clone, Copy, Debug, PartialEq, Eq, Structural)]
pub enum LayoutError {
    /// The widths do not add up to whole bytes; `remainder` is the total
    /// modulo eight.
    NotByteAligned { remainder: usize },
    /// Field `field` is annotated with `declared` bits but its type has
    /// `actual` bits.
    WidthMismatch { field: usize, declared: usize, actual: usize },
    /// Variant `variant` of enumeration `enumeration` has a discriminant that
    /// does not fit the bits allotted to the enumeration.
    DiscriminantOutOfRange { enumeration: usize, variant: usize },
    /// A width of `width` bits is more than the widest unsigned integer
    /// holds, or is zero where a backing integer is asked for.
    UnsupportedWidth { width: usize },
    /// The widths add up to more bits than a `usize` can count.
    TooLarge,
}

} // verus!
