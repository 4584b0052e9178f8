use vstd::prelude::*;

verus! {

/// A value that is to be read and written with volatile accesses only, such
/// as a cell of memory-mapped hardware. The accesses themselves go through
/// [`Volatile::value`] and [`Volatile::value_mut`].
#[derive(Clone, Copy)]
pub struct Volatile<T> {
    value: T,
}

impl<T> Volatile<T> {
    /// The value held.
    pub closed spec fn contents(&self) -> T {
        self.value
    }

    /// Wraps `value`.
    pub fn new(value: T) -> (r: Volatile<T>)
        ensures
            r.contents() == value,
    {
        Volatile { value }
    }

    /// The place that holds the value, for a volatile read.
    pub fn value(&self) -> (r: &T)
        ensures
            *r == self.contents(),
    {
        &self.value
    }

    /// The place that holds the value, for a volatile write.
    pub fn value_mut(&mut self) -> (r: &mut T)
        ensures
            *r == old(self).contents(),
            final(self).contents() == *final(r),
    {
        &mut self.value
    }
}

impl<T> From<T> for Volatile<T> {
    fn from(value: T) -> (r: Volatile<T>) {
        Volatile { value }
    }
}

impl<T> vstd::std_specs::convert::FromSpecImpl<T> for Volatile<T> {
    open spec fn obeys_from_spec() -> bool {
        true
    }

    closed spec fn from_spec(v: T) -> Volatile<T> {
        Volatile { value: v }
    }
}

} // verus!
