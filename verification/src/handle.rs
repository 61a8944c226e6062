//! Identities used to address registry-resident entities without ownership.

use vstd::prelude::*;

verus! {

/// Index of a lazy buffer in the engine's append-only node registry.
#[derive(Debug, Copy, Clone, PartialEq, Eq, Hash, Structural)]
pub struct LazyBufferHandle(pub usize);

/// Sentinel identity meaning "no lazy buffer"; used for untracked temporary
/// device buffers, which are never registry-resident.
pub const LAZYBUFFER_HANDLE_NULL_ID: usize = usize::MAX;

/// The sentinel handle that denotes "no lazy buffer".
pub fn lazybuffer_handle_null() -> (h: LazyBufferHandle)
    ensures
        h.0 == LAZYBUFFER_HANDLE_NULL_ID,
{
    LazyBufferHandle(LAZYBUFFER_HANDLE_NULL_ID)
}

/// Index of a tensor in the engine's tensor table.
#[derive(Debug, Copy, Clone, PartialEq, Eq, Hash, Structural)]
pub struct TensorId(pub usize);

/// Device-side buffer handle: the lazy-buffer identity the backend keyed the
/// buffer under, together with its element count.
#[derive(Debug, Copy, Clone, PartialEq, Eq, Structural)]
pub struct BufferHandle {
    pub id: LazyBufferHandle,
    pub size: usize,
}

} // verus!
