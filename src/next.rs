use vstd::prelude::*;

verus! {

/// A key type with a successor, used to turn inclusive bounds into half-open ones.
pub trait Next: Sized {
    /// The successor of `self`, or `None` where `self` is the largest value.
    spec fn next_spec(&self) -> Option<Self>;

    fn next_checked(&self) -> (r: Option<Self>)
        ensures
            r == self.next_spec(),
    ;

    fn next_unchecked(&self) -> (r: Self)
        requires
            self.next_spec() is Some,
        ensures
            self.next_spec() == Some(r),
    {
        self.next_checked().unwrap()
    }
}

impl Next for usize {
    open spec fn next_spec(&self) -> Option<usize> {
        if *self < usize::MAX { Some((*self + 1) as usize) } else { None }
    }

    fn next_checked(&self) -> (r: Option<usize>) {
        self.checked_add(1)
    }
}

impl Next for u8 {
    open spec fn next_spec(&self) -> Option<u8> {
        if *self < u8::MAX { Some((*self + 1) as u8) } else { None }
    }

    fn next_checked(&self) -> (r: Option<u8>) {
        self.checked_add(1)
    }
}

impl Next for u16 {
    open spec fn next_spec(&self) -> Option<u16> {
        if *self < u16::MAX { Some((*self + 1) as u16) } else { None }
    }

    fn next_checked(&self) -> (r: Option<u16>) {
        self.checked_add(1)
    }
}

impl Next for u32 {
    open spec fn next_spec(&self) -> Option<u32> {
        if *self < u32::MAX { Some((*self + 1) as u32) } else { None }
    }

    fn next_checked(&self) -> (r: Option<u32>) {
        self.checked_add(1)
    }
}

impl Next for u64 {
    open spec fn next_spec(&self) -> Option<u64> {
        if *self < u64::MAX { Some((*self + 1) as u64) } else { None }
    }

    fn next_checked(&self) -> (r: Option<u64>) {
        self.checked_add(1)
    }
}

impl Next for u128 {
    open spec fn next_spec(&self) -> Option<u128> {
        if *self < u128::MAX { Some((*self + 1) as u128) } else { None }
    }

    fn next_checked(&self) -> (r: Option<u128>) {
        self.checked_add(1)
    }
}

impl Next for isize {
    open spec fn next_spec(&self) -> Option<isize> {
        if *self < isize::MAX { Some((*self + 1) as isize) } else { None }
    }

    fn next_checked(&self) -> (r: Option<isize>) {
        self.checked_add(1)
    }
}

impl Next for i8 {
    open spec fn next_spec(&self) -> Option<i8> {
        if *self < i8::MAX { Some((*self + 1) as i8) } else { None }
    }

    fn next_checked(&self) -> (r: Option<i8>) {
        self.checked_add(1)
    }
}

impl Next for i16 {
    open spec fn next_spec(&self) -> Option<i16> {
        if *self < i16::MAX { Some((*self + 1) as i16) } else { None }
    }

    fn next_checked(&self) -> (r: Option<i16>) {
        self.checked_add(1)
    }
}

impl Next for i32 {
    open spec fn next_spec(&self) -> Option<i32> {
        if *self < i32::MAX { Some((*self + 1) as i32) } else { None }
    }

    fn next_checked(&self) -> (r: Option<i32>) {
        self.checked_add(1)
    }
}

impl Next for i64 {
    open spec fn next_spec(&self) -> Option<i64> {
        if *self < i64::MAX { Some((*self + 1) as i64) } else { None }
    }

    fn next_checked(&self) -> (r: Option<i64>) {
        self.checked_add(1)
    }
}

impl Next for i128 {
    open spec fn next_spec(&self) -> Option<i128> {
        if *self < i128::MAX { Some((*self + 1) as i128) } else { None }
    }

    fn next_checked(&self) -> (r: Option<i128>) {
        self.checked_add(1)
    }
}

} // verus!
