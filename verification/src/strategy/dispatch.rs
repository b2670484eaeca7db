//! Strategy dispatch records.

use vstd::prelude::*;

use crate::strategy::PeerId;

verus! {

/// Strategy-local opaque token correlating a [`ChunkDispatch`] returned
/// from [`crate::strategy::Strategy::poll_chunks`] back to the
/// [`crate::strategy::Strategy::chunk_sent`] callback.
///
/// Values are not meaningful across strategy instances or sessions.
/// Strategies generate handles internally, typically as a monotonic
/// counter, and treat them as opaque from the trait's perspective.
pub type DispatchHandle = u64;

/// Outbound chunk dispatch returned by
/// [`crate::strategy::Strategy::poll_chunks`].
#[derive(Debug, Clone, PartialEq, Eq)]
pub struct ChunkDispatch<CI> {
    /// Target peer.
    pub peer: PeerId,
    /// Strategy-specific chunk identifier.
    pub chunk_id: CI,
    /// Correlation handle for the matching `chunk_sent` callback.
    pub handle: DispatchHandle,
    /// The bytes to write on the CHUNK stream's payload section.
    pub payload: Vec<u8>,
}

/// Contents of a [`ChunkDispatch`].
#[verifier::ext_equal]
pub ghost struct DispatchView<CI> {
    pub peer: PeerId,
    pub chunk_id: CI,
    pub handle: DispatchHandle,
    pub payload: Seq<u8>,
}

impl<CI> View for ChunkDispatch<CI> {
    type V = DispatchView<CI>;

    open spec fn view(&self) -> DispatchView<CI> {
        DispatchView {
            peer: self.peer,
            chunk_id: self.chunk_id,
            handle: self.handle,
            payload: self.payload@,
        }
    }
}

/// Contents of a list of dispatches.
pub open spec fn dispatches<CI>(v: Seq<ChunkDispatch<CI>>) -> Seq<DispatchView<CI>> {
    v.map_values(|d: ChunkDispatch<CI>| d@)
}

} // verus!
