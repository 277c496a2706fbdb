use vstd::prelude::*;
use std::ops::Add;
use std::ops::AddAssign;
use std::ops::Sub;
use std::ops::SubAssign;

verus! {

/// A handle on `data` together with a position inside it.
#[derive(Clone, Copy)]
pub struct WithOffset<T> {
    pub data: T,
    pub offset: usize,
}

/// `offset` moved by the signed `delta`, wrapping around the range of `usize`.
pub open spec fn offset_add_signed(offset: usize, delta: isize) -> usize {
    vstd::wrapping::usize_specs::wrapping_add_signed(offset, delta)
}

impl<T> AddAssign<usize> for WithOffset<T> {
    /// Moves the position forward; the position must not pass `usize::MAX`.
    fn add_assign(&mut self, rhs: usize)
        requires
            old(self).offset + rhs <= usize::MAX,
        ensures
            final(self).data == old(self).data,
            final(self).offset == old(self).offset + rhs,
    {
        self.offset += rhs;
    }
}

impl<T> SubAssign<usize> for WithOffset<T> {
    /// Moves the position back; the position must not pass `0`.
    fn sub_assign(&mut self, rhs: usize)
        requires
            rhs <= old(self).offset,
        ensures
            final(self).data == old(self).data,
            final(self).offset == old(self).offset - rhs,
    {
        self.offset -= rhs;
    }
}

impl<T> AddAssign<isize> for WithOffset<T> {
    /// Moves the position by a signed amount, wrapping around the range of `usize`.
    fn add_assign(&mut self, rhs: isize)
        ensures
            final(self).data == old(self).data,
            final(self).offset == offset_add_signed(old(self).offset, rhs),
    {
        self.offset = self.offset.wrapping_add_signed(rhs);
    }
}

impl<T> SubAssign<isize> for WithOffset<T> {
    /// Moves the position back by a signed amount, wrapping around the range
    /// of `usize`; `rhs` must have a negation in `isize`.
    fn sub_assign(&mut self, rhs: isize)
        requires
            rhs != isize::MIN,
        ensures
            final(self).data == old(self).data,
            final(self).offset == offset_add_signed(old(self).offset, (-rhs) as isize),
    {
        self.offset = self.offset.wrapping_add_signed(-rhs);
    }
}

impl<T> vstd::std_specs::ops::AddSpecImpl<usize> for WithOffset<T> {
    open spec fn obeys_add_spec() -> bool {
        true
    }

    open spec fn add_req(self, rhs: usize) -> bool {
        self.offset + rhs <= usize::MAX
    }

    open spec fn add_spec(self, rhs: usize) -> WithOffset<T> {
        WithOffset { data: self.data, offset: (self.offset + rhs) as usize }
    }
}

impl<T> Add<usize> for WithOffset<T> {
    type Output = Self;

    fn add(self, rhs: usize) -> (r: Self)
        ensures
            r.data == self.data,
            r.offset == self.offset + rhs,
    {
        let mut r = self;
        r.add_assign(rhs);
        r
    }
}

impl<T> vstd::std_specs::ops::SubSpecImpl<usize> for WithOffset<T> {
    open spec fn obeys_sub_spec() -> bool {
        true
    }

    open spec fn sub_req(self, rhs: usize) -> bool {
        rhs <= self.offset
    }

    open spec fn sub_spec(self, rhs: usize) -> WithOffset<T> {
        WithOffset { data: self.data, offset: (self.offset - rhs) as usize }
    }
}

impl<T> Sub<usize> for WithOffset<T> {
    type Output = Self;

    fn sub(self, rhs: usize) -> (r: Self)
        ensures
            r.data == self.data,
            r.offset == self.offset - rhs,
    {
        let mut r = self;
        r.sub_assign(rhs);
        r
    }
}

impl<T> vstd::std_specs::ops::AddSpecImpl<isize> for WithOffset<T> {
    open spec fn obeys_add_spec() -> bool {
        true
    }

    open spec fn add_req(self, rhs: isize) -> bool {
        true
    }

    open spec fn add_spec(self, rhs: isize) -> WithOffset<T> {
        WithOffset { data: self.data, offset: offset_add_signed(self.offset, rhs) }
    }
}

impl<T> Add<isize> for WithOffset<T> {
    type Output = Self;

    fn add(self, rhs: isize) -> (r: Self)
        ensures
            r.data == self.data,
            r.offset == offset_add_signed(self.offset, rhs),
    {
        let mut r = self;
        r.add_assign(rhs);
        r
    }
}

impl<T> vstd::std_specs::ops::SubSpecImpl<isize> for WithOffset<T> {
    open spec fn obeys_sub_spec() -> bool {
        true
    }

    open spec fn sub_req(self, rhs: isize) -> bool {
        rhs != isize::MIN
    }

    open spec fn sub_spec(self, rhs: isize) -> WithOffset<T> {
        WithOffset { data: self.data, offset: offset_add_signed(self.offset, (-rhs) as isize) }
    }
}

impl<T> Sub<isize> for WithOffset<T> {
    type Output = Self;

    fn sub(self, rhs: isize) -> (r: Self)
        ensures
            r.data == self.data,
            r.offset == offset_add_signed(self.offset, (-rhs) as isize),
    {
        let mut r = self;
        r.sub_assign(rhs);
        r
    }
}

/// Moving forward by `n` and back by `n` returns to the same position.
pub proof fn lemma_add_then_sub(offset: usize, n: usize)
    requires
        offset + n <= usize::MAX,
    ensures
        ((offset + n) as usize - n) as usize == offset,
{
}

/// Moving by a signed amount and then back by it returns to the same
/// position, whatever wrapping happened on the way.
pub proof fn lemma_add_signed_then_sub_signed(offset: usize, delta: isize)
    requires
        delta != isize::MIN,
    ensures
        offset_add_signed(offset_add_signed(offset, delta), (-delta) as isize) == offset,
{
}

/// Moving by a signed amount that does not leave the range of `usize` is
/// plain addition.
pub proof fn lemma_add_signed_in_range(offset: usize, delta: isize)
    requires
        0 <= offset + delta <= usize::MAX,
    ensures
        offset_add_signed(offset, delta) == offset + delta,
{
}

} // verus!
