//! Value objects for decoded output properties: the constraint sets a
//! backend may attach to a property, copied out of backend memory by the
//! caller that reads them.

use vstd::prelude::*;

verus! {

/// An inclusive range of allowed property values.
#[derive(PartialEq, Eq, Structural, Copy, Clone, Debug)]
pub struct Range<T> {
    pub lower: T,
    pub upper: T,
}

/// Range constraints on a property, one variant per wire encoding.
#[derive(PartialEq, Debug, Clone)]
pub enum Ranges {
    Atom(Vec<Range<String>>),
    Integer8(Vec<Range<i8>>),
    Integer16(Vec<Range<i16>>),
    Integer32(Vec<Range<i32>>),
    Cardinal8(Vec<Range<u8>>),
    Cardinal16(Vec<Range<u16>>),
    Cardinal32(Vec<Range<u32>>),
}

/// The discrete values a property supports, one variant per wire encoding.
#[derive(PartialEq, Debug, Clone)]
pub enum Supported {
    Atom(Vec<String>),
    Integer8(Vec<i8>),
    Integer16(Vec<i16>),
    Integer32(Vec<i32>),
    Cardinal8(Vec<u8>),
    Cardinal16(Vec<u16>),
    Cardinal32(Vec<u32>),
}

} // verus!
