use vstd::prelude::*;

verus! {

/// Holds a value that a parallel algorithm hands from one worker to the
/// next: whoever acquires it has it alone, for as long as the guard lives.
pub struct ExplicitSyncWrapper<T> {
    value: T,
}

/// Exclusive access to the value of an `ExplicitSyncWrapper`.
pub struct Guard<'a, T> {
    pub value: &'a mut T,
}

impl<T> View for ExplicitSyncWrapper<T> {
    type V = T;

    closed spec fn view(&self) -> T {
        self.value
    }
}

impl<T> ExplicitSyncWrapper<T> {
    pub fn new(value: T) -> (r: Self)
        ensures
            r@ == value,
    {
        ExplicitSyncWrapper { value }
    }

    pub fn acquire(&mut self) -> (g: Guard<'_, T>)
        ensures
            *g.value == old(self)@,
            final(self)@ == *final(g.value),
    {
        Guard { value: &mut self.value }
    }

    pub fn dereference(&self) -> (r: &T)
        ensures
            *r == self@,
    {
        &self.value
    }

    pub fn dereference_mut(&mut self) -> (r: &mut T)
        ensures
            *r == old(self)@,
            final(self)@ == *final(r),
    {
        &mut self.value
    }

    pub fn into_inner(self) -> (r: T)
        ensures
            r == self@,
    {
        self.value
    }
}

impl<'a, T> Guard<'a, T> {
    pub fn dereference(&self) -> (r: &T)
        ensures
            *r == *old(self.value),
    {
        &*self.value
    }

    pub fn dereference_mut(&mut self) -> (r: &mut T)
        ensures
            *r == *old(self).value,
            *final(self).value == *final(r),
            *final(final(self).value) == *final(old(self).value),
    {
        &mut *self.value
    }
}

} // verus!
