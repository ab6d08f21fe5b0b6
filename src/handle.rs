use std::marker::PhantomData;
use std::sync::Arc;
use vstd::prelude::*;

verus! {

/// Ids are kept below this bound, which the presence bitset can address on
/// every target (its smallest limit is `2^20`).
pub const MAX_ID: u32 = 1048576;

/// The number of clones of each live handle that the storage itself keeps.
pub const STORE_COPIES: usize = 1;

/// Relies on `Arc::strong_count`: the number of `Arc` pointers to the shared
/// cell, which counts `cell` itself.
#[verifier::external_body]
fn strong_count(cell: &Arc<u32>) -> (r: usize)
    ensures
        r >= 1,
{
    Arc::strong_count(cell)
}

/// Relies on `Arc::clone`: the clone points at the same value.
#[verifier::external_body]
pub(crate) fn share<T>(cell: &Arc<T>) -> (r: Arc<T>)
    ensures
        *r == **cell,
{
    cell.clone()
}

/// Whether a reference count means one outside holder besides the storage's own copies.
pub fn count_is_unique(count: usize) -> (r: bool)
    ensures
        r == (count == STORE_COPIES + 1),
{
    count == STORE_COPIES + 1
}

/// Whether a reference count means that only the storage's own copies remain.
pub fn count_is_unused(count: usize) -> (r: bool)
    ensures
        r == (count == STORE_COPIES),
{
    count == STORE_COPIES
}

/// A handle to an asset: a shared, reference-counted id.
pub struct Handle<A> {
    id: Arc<u32>,
    marker: PhantomData<A>,
}

impl<A> View for Handle<A> {
    type V = u32;

    closed spec fn view(&self) -> u32 {
        *self.id
    }
}

impl<A> Handle<A> {
    #[verifier::type_invariant]
    spec fn id_in_range(self) -> bool {
        *self.id < MAX_ID
    }

    /// A first handle to `id`.
    pub(crate) fn fresh(id: u32) -> (r: Self)
        requires
            id < MAX_ID,
        ensures
            r@ == id,
    {
        Handle { id: Arc::new(id), marker: PhantomData }
    }

    /// Return the 32 bit id of this handle.
    pub fn id(&self) -> (r: u32)
        ensures
            r == self@,
            r < MAX_ID,
    {
        proof { use_type_invariant(self); }
        *self.id
    }

    /// Returns `true` if this is the only handle to the asset it points at
    /// (excluding the handle owned by the asset storage).
    pub fn is_unique(&self) -> bool {
        count_is_unique(strong_count(&self.id))
    }

    /// Returns `true` if only the storage's own copy of this handle remains.
    pub fn is_unused(&self) -> bool {
        count_is_unused(strong_count(&self.id))
    }
}

impl<A> Clone for Handle<A> {
    fn clone(&self) -> (r: Self)
        ensures
            r@ == self@,
    {
        proof { use_type_invariant(self); }
        Handle { id: share(&self.id), marker: PhantomData }
    }
}

impl<A> PartialEq for Handle<A> {
    fn eq(&self, other: &Handle<A>) -> (r: bool) {
        self.id() == other.id()
    }
}

impl<A> vstd::std_specs::cmp::PartialEqSpecImpl for Handle<A> {
    open spec fn obeys_eq_spec() -> bool {
        true
    }

    open spec fn eq_spec(&self, other: &Handle<A>) -> bool {
        self@ == other@
    }
}

impl<A> Eq for Handle<A> {
}

} // verus!
