use deluge_rust::fill::abi::{
    deluge_streaming_chunk_construct, deluge_streaming_chunk_convert_state,
    deluge_streaming_chunk_loaded, deluge_streaming_chunk_payload,
    deluge_streaming_chunk_set_convert_state, deluge_streaming_chunk_set_loaded,
    deluge_streaming_chunk_set_unloadable, deluge_streaming_chunk_unloadable,
};
use deluge_rust::fill::chunk::{
    deluge_streamed_chunk_payload_offset, rust_chunk_payload_offset, ChunkStore,
    DelugeChunkConvertState, StreamedChunk, CACHE_LINE,
};

const DEST: usize = 0x4000;

#[test]
fn payload_offset_clears_the_front_guard() {
    // The payload sits one cache line past the header, so the guard between them covers
    // what cache maintenance rounds to and what the application reads before the start.
    assert!(rust_chunk_payload_offset() >= std::mem::size_of::<StreamedChunk>() + CACHE_LINE);
    assert_eq!(
        rust_chunk_payload_offset() - std::mem::size_of::<StreamedChunk>(),
        CACHE_LINE
    );
    assert_eq!(
        deluge_streamed_chunk_payload_offset() as usize,
        rust_chunk_payload_offset()
    );
}

fn constructed(index: u32) -> ChunkStore {
    let mut store = ChunkStore::new();
    store.construct(DEST, index, 64);
    store
}

#[test]
fn construct_sets_payload_index_and_defaults() {
    let store = constructed(7);
    let c = store.header(DEST);
    assert_eq!(c.cluster_index, 7);
    assert!(!c.loaded);
    assert!(!c.unloadable);
    assert_eq!(c.payload, DEST + rust_chunk_payload_offset());
    assert_eq!(c.first_three_bytes, [0; 3]);
    assert!(!c.extra_bytes_start_converted && !c.extra_bytes_end_converted);
    assert_eq!(store.bytes(DEST), Some(&vec![0; 64]));
}

#[test]
fn construct_c_abi_matches_direct_construct() {
    let mut store = ChunkStore::new();
    deluge_streaming_chunk_construct(&mut store, 0, 0, 11, DEST, 64);
    let c = store.header(DEST);
    assert_eq!(c.cluster_index, 11);
    assert_eq!(c.payload, DEST + rust_chunk_payload_offset());
    assert_eq!(
        deluge_streaming_chunk_payload(&store, DEST),
        DEST + rust_chunk_payload_offset()
    );
    assert_eq!(c, StreamedChunk::new(11, DEST + rust_chunk_payload_offset()));
    assert_eq!(store.bytes(DEST), Some(&vec![0; 64]));
}

#[test]
fn loaded_flag_round_trips() {
    let mut store = constructed(0);
    assert!(!deluge_streaming_chunk_loaded(&store, DEST));
    deluge_streaming_chunk_set_loaded(&mut store, DEST);
    assert!(deluge_streaming_chunk_loaded(&store, DEST));
    assert!(!store.unloadable(DEST));
}

#[test]
fn unloadable_flag_round_trips() {
    let mut store = constructed(0);
    assert!(!deluge_streaming_chunk_unloadable(&store, DEST));
    deluge_streaming_chunk_set_unloadable(&mut store, DEST);
    assert!(deluge_streaming_chunk_unloadable(&store, DEST));
    assert!(!store.loaded(DEST));
}

#[test]
fn convert_state_round_trips() {
    let mut store = constructed(0);
    let written = DelugeChunkConvertState {
        first_three_bytes: [0xDE, 0xAD, 0xBE],
        start_converted: true,
        end_converted: false,
    };
    deluge_streaming_chunk_set_convert_state(&mut store, DEST, written);
    let read = deluge_streaming_chunk_convert_state(&store, DEST);
    assert_eq!(read.first_three_bytes, written.first_three_bytes);
    assert_eq!(read.start_converted, written.start_converted);
    assert_eq!(read.end_converted, written.end_converted);
    assert!(!store.loaded(DEST)); // nothing else changed
    assert_eq!(store.header(DEST).cluster_index, 0);
}

#[test]
fn chunks_are_taken_and_put_back() {
    let mut store = constructed(3);
    assert!(store.contains(DEST));
    let c = store.take(DEST).unwrap();
    assert!(!store.contains(DEST));
    assert!(store.take(DEST).is_none());
    store.put(DEST + 1, c);
    assert_eq!(store.header(DEST + 1).cluster_index, 3);
    store.construct(DEST + 1, 4, 2); // anew
    assert_eq!(store.header(DEST + 1).cluster_index, 4);
    assert_eq!(store.bytes(DEST + 1).unwrap().len(), 2);
}
