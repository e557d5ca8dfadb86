//! The chunks as other languages call them, by the address of their slot.
use crate::fill::chunk::{
    payload_address, ChunkStore, DelugeChunkConvertState, StoredChunk, StreamedChunk,
};
use vstd::prelude::*;

verus! {

/// Constructs a chunk at `dest` for cluster `index`, with `len` zero bytes of payload.
/// Neither `ctx` nor `owner` matters to a streamed chunk.
pub fn deluge_streaming_chunk_construct(
    store: &mut ChunkStore,
    _ctx: usize,
    _owner: usize,
    index: u32,
    dest: usize,
    len: usize,
)
    ensures
        final(store)@ == old(store)@.insert(dest, final(store)@[dest]),
        final(store)@[dest].header.fresh(index, payload_address(dest)),
        final(store)@[dest].bytes@ == Seq::new(len as nat, |i: int| 0u8),
{
    store.construct(dest, index, len);
}

/// The address of the chunk's payload.
pub fn deluge_streaming_chunk_payload(store: &ChunkStore, backing: usize) -> (r: usize)
    requires
        store@.dom().contains(backing),
    ensures
        r == store@[backing].header.payload,
{
    store.payload(backing)
}

/// Whether the chunk's payload is there.
pub fn deluge_streaming_chunk_loaded(store: &ChunkStore, backing: usize) -> (r: bool)
    requires
        store@.dom().contains(backing),
    ensures
        r == store@[backing].header.loaded,
{
    store.loaded(backing)
}

/// Says that the chunk's payload is there.
pub fn deluge_streaming_chunk_set_loaded(store: &mut ChunkStore, backing: usize)
    requires
        old(store)@.dom().contains(backing),
    ensures
        final(store)@ == old(store)@.insert(
            backing,
            StoredChunk {
                header: StreamedChunk { loaded: true, ..old(store)@[backing].header },
                ..old(store)@[backing]
            },
        ),
{
    store.set_loaded(backing);
}

/// Whether the chunk cannot be loaded.
pub fn deluge_streaming_chunk_unloadable(store: &ChunkStore, backing: usize) -> (r: bool)
    requires
        store@.dom().contains(backing),
    ensures
        r == store@[backing].header.unloadable,
{
    store.unloadable(backing)
}

/// Says that the chunk cannot be loaded.
pub fn deluge_streaming_chunk_set_unloadable(store: &mut ChunkStore, backing: usize)
    requires
        old(store)@.dom().contains(backing),
    ensures
        final(store)@ == old(store)@.insert(
            backing,
            StoredChunk {
                header: StreamedChunk { unloadable: true, ..old(store)@[backing].header },
                ..old(store)@[backing]
            },
        ),
{
    store.set_unloadable(backing);
}

/// What the chunk's conversion has done so far.
pub fn deluge_streaming_chunk_convert_state(
    store: &ChunkStore,
    backing: usize,
) -> (r: DelugeChunkConvertState)
    requires
        store@.dom().contains(backing),
    ensures
        r == store@[backing].header.state(),
{
    store.convert_state(backing)
}

/// Says what the chunk's conversion has done so far.
pub fn deluge_streaming_chunk_set_convert_state(
    store: &mut ChunkStore,
    backing: usize,
    state: DelugeChunkConvertState,
)
    requires
        old(store)@.dom().contains(backing),
    ensures
        final(store)@ == old(store)@.insert(
            backing,
            StoredChunk {
                header: old(store)@[backing].header.with_state(state),
                ..old(store)@[backing]
            },
        ),
{
    store.set_convert_state(backing, state);
}

} // verus!
