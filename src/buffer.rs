//! A fixed-capacity buffer filled one slot at a time.
use vstd::prelude::*;

verus! {

/// Relies on `<[T; N] as TryFrom<Vec<T>>>::try_from`: it hands back the
/// vector's contents as an array exactly when the length is `N`.
#[verifier::external_body]
fn vec_into_array<T, const N: usize>(v: Vec<T>) -> (r: Option<[T; N]>)
    ensures
        r.is_some() == (v@.len() == N as int),
        r matches Some(a) ==> a@ == v@,
{
    <[T; N]>::try_from(v).ok()
}

/// Storage for up to `N` values of `T`, written strictly in order.
///
/// The values written so far are owned by the buffer; dropping it without
/// finalizing releases each of them exactly once.
pub struct PartiallyInitArray<T, const N: usize> {
    items: Vec<T>,
}

impl<T, const N: usize> View for PartiallyInitArray<T, N> {
    type V = Seq<T>;

    /// The values written so far, in write order.
    closed spec fn view(&self) -> Seq<T> {
        self.items@
    }
}

impl<T, const N: usize> PartiallyInitArray<T, N> {
    /// The live count never exceeds the capacity.
    pub open spec fn wf(&self) -> bool {
        self@.len() <= N
    }

    /// An empty buffer.
    pub fn uninit() -> (r: Self)
        ensures
            r.wf(),
            r@ == Seq::<T>::empty(),
    {
        PartiallyInitArray { items: Vec::new() }
    }

    /// Number of slots written so far.
    pub fn len(&self) -> (r: usize)
        requires
            self.wf(),
        ensures
            r == self@.len(),
    {
        self.items.len()
    }

    /// Writes `value` into the next free slot.
    pub fn write(&mut self, value: T)
        requires
            old(self).wf(),
            old(self)@.len() < N,
        ensures
            final(self).wf(),
            final(self)@ == old(self)@.push(value),
    {
        self.items.push(value);
    }

    /// Whether every slot has been written.
    pub fn is_init(&self) -> (r: bool)
        requires
            self.wf(),
        ensures
            r == (self@.len() == N),
    {
        self.items.len() == N
    }

    /// Hands out the full array; the buffer must be full.
    pub fn assume_init(self) -> (r: [T; N])
        requires
            self.wf(),
            self@.len() == N,
        ensures
            r@ == self@,
    {
        vec_into_array(self.items).unwrap()
    }

    /// Hands out the array if the buffer is full; otherwise releases the
    /// values written so far and gives `None`.
    pub fn try_init(self) -> (r: Option<[T; N]>)
        requires
            self.wf(),
        ensures
            r.is_some() == (self@.len() == N),
            r matches Some(a) ==> a@ == self@,
    {
        vec_into_array(self.items)
    }
}

} // verus!
