//! Settings of a store.
use crate::db::DEFAULT_WRITE_BUFFER_SIZE;
use vstd::prelude::*;

verus! {

/// Settings of a store.
pub struct Configure {
    /// The memtable size, in bytes, past which it is rotated.
    pub write_buffer_size: usize,
}

impl Default for Configure {
    fn default() -> (r: Configure)
        ensures
            r.write_buffer_size == DEFAULT_WRITE_BUFFER_SIZE,
    {
        Configure { write_buffer_size: DEFAULT_WRITE_BUFFER_SIZE }
    }
}

} // verus!
