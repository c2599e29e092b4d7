use vstd::prelude::*;

verus! {

/// A key type with a least and a greatest value.
pub trait Bounded: Sized {
    spec fn min_spec() -> Self;

    spec fn max_spec() -> Self;

    fn min() -> (r: Self)
        ensures
            r == Self::min_spec(),
    ;

    fn max() -> (r: Self)
        ensures
            r == Self::max_spec(),
    ;
}

impl Bounded for usize {
    open spec fn min_spec() -> usize { usize::MIN }
    open spec fn max_spec() -> usize { usize::MAX }
    fn min() -> (r: usize) { usize::MIN }
    fn max() -> (r: usize) { usize::MAX }
}

impl Bounded for u8 {
    open spec fn min_spec() -> u8 { u8::MIN }
    open spec fn max_spec() -> u8 { u8::MAX }
    fn min() -> (r: u8) { u8::MIN }
    fn max() -> (r: u8) { u8::MAX }
}

impl Bounded for u16 {
    open spec fn min_spec() -> u16 { u16::MIN }
    open spec fn max_spec() -> u16 { u16::MAX }
    fn min() -> (r: u16) { u16::MIN }
    fn max() -> (r: u16) { u16::MAX }
}

impl Bounded for u32 {
    open spec fn min_spec() -> u32 { u32::MIN }
    open spec fn max_spec() -> u32 { u32::MAX }
    fn min() -> (r: u32) { u32::MIN }
    fn max() -> (r: u32) { u32::MAX }
}

impl Bounded for u64 {
    open spec fn min_spec() -> u64 { u64::MIN }
    open spec fn max_spec() -> u64 { u64::MAX }
    fn min() -> (r: u64) { u64::MIN }
    fn max() -> (r: u64) { u64::MAX }
}

impl Bounded for u128 {
    open spec fn min_spec() -> u128 { u128::MIN }
    open spec fn max_spec() -> u128 { u128::MAX }
    fn min() -> (r: u128) { u128::MIN }
    fn max() -> (r: u128) { u128::MAX }
}

impl Bounded for isize {
    open spec fn min_spec() -> isize { isize::MIN }
    open spec fn max_spec() -> isize { isize::MAX }
    fn min() -> (r: isize) { isize::MIN }
    fn max() -> (r: isize) { isize::MAX }
}

impl Bounded for i8 {
    open spec fn min_spec() -> i8 { i8::MIN }
    open spec fn max_spec() -> i8 { i8::MAX }
    fn min() -> (r: i8) { i8::MIN }
    fn max() -> (r: i8) { i8::MAX }
}

impl Bounded for i16 {
    open spec fn min_spec() -> i16 { i16::MIN }
    open spec fn max_spec() -> i16 { i16::MAX }
    fn min() -> (r: i16) { i16::MIN }
    fn max() -> (r: i16) { i16::MAX }
}

impl Bounded for i32 {
    open spec fn min_spec() -> i32 { i32::MIN }
    open spec fn max_spec() -> i32 { i32::MAX }
    fn min() -> (r: i32) { i32::MIN }
    fn max() -> (r: i32) { i32::MAX }
}

impl Bounded for i64 {
    open spec fn min_spec() -> i64 { i64::MIN }
    open spec fn max_spec() -> i64 { i64::MAX }
    fn min() -> (r: i64) { i64::MIN }
    fn max() -> (r: i64) { i64::MAX }
}

impl Bounded for i128 {
    open spec fn min_spec() -> i128 { i128::MIN }
    open spec fn max_spec() -> i128 { i128::MAX }
    fn min() -> (r: i128) { i128::MIN }
    fn max() -> (r: i128) { i128::MAX }
}

} // verus!
