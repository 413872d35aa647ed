pub mod block;
pub mod buf;
pub mod compact;
pub mod elementwise_pipeline;
pub mod out_buf;
pub mod params;

use vstd::prelude::*;

verus! {

/// A view of a storage by reference, used in place of the storage itself without cloning it.
pub struct View<'a, S>(pub &'a S);

impl<'a, S> View<'a, S> {
    /// A view of `storage`.
    pub fn new(storage: &'a S) -> (r: Self)
        ensures
            *r.0 == *storage,
    {
        View(storage)
    }
}

} // verus!
