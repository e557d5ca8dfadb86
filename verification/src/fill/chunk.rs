//! The chunk of streamed audio: its header, and the cluster's bytes behind it.
use std::collections::HashMap;
use vstd::layout::{layout_for_type_is_valid, size_of};
use vstd::prelude::*;

verus! {

broadcast use vstd::std_specs::hash::group_hash_axioms;

/// A cache line; the guard between a chunk's header and its payload is this long.
pub const CACHE_LINE: usize = 32;

/// The header of a chunk of streamed audio.
#[derive(Clone, Copy, PartialEq, Eq, Debug)]
pub struct StreamedChunk {
    pub cluster_index: u32,
    /// The payload is there; the region cursor polls it.
    pub loaded: bool,
    pub unloadable: bool,
    /// The cluster's first bytes before conversion, for its neighbour's stitch.
    pub first_three_bytes: [u8; 3],
    pub extra_bytes_start_converted: bool,
    pub extra_bytes_end_converted: bool,
    /// The payload's address.
    pub payload: usize,
}

/// What a chunk's conversion has done so far.
#[derive(Clone, Copy, PartialEq, Eq, Debug)]
pub struct DelugeChunkConvertState {
    pub first_three_bytes: [u8; 3],
    pub start_converted: bool,
    pub end_converted: bool,
}

/// A chunk with its cluster's bytes.
pub struct StoredChunk {
    pub header: StreamedChunk,
    pub bytes: Vec<u8>,
}

impl StreamedChunk {
    /// A header as `construct` leaves it: nothing loaded and nothing converted.
    pub open spec fn fresh(self, index: u32, payload: usize) -> bool {
        &&& self.cluster_index == index
        &&& !self.loaded
        &&& !self.unloadable
        &&& self.first_three_bytes@ == seq![0u8, 0u8, 0u8]
        &&& !self.extra_bytes_start_converted
        &&& !self.extra_bytes_end_converted
        &&& self.payload == payload
    }

    /// What the conversion has done so far.
    pub open spec fn state(self) -> DelugeChunkConvertState {
        DelugeChunkConvertState {
            first_three_bytes: self.first_three_bytes,
            start_converted: self.extra_bytes_start_converted,
            end_converted: self.extra_bytes_end_converted,
        }
    }

    /// The header with that conversion state.
    pub open spec fn with_state(self, s: DelugeChunkConvertState) -> StreamedChunk {
        StreamedChunk {
            first_three_bytes: s.first_three_bytes,
            extra_bytes_start_converted: s.start_converted,
            extra_bytes_end_converted: s.end_converted,
            ..self
        }
    }

    /// What the chunk's conversion has done so far.
    pub fn convert_state(&self) -> (r: DelugeChunkConvertState)
        ensures
            r == self.state(),
    {
        DelugeChunkConvertState {
            first_three_bytes: self.first_three_bytes,
            start_converted: self.extra_bytes_start_converted,
            end_converted: self.extra_bytes_end_converted,
        }
    }

    /// A header for the payload at `payload`, with nothing loaded.
    pub fn new(index: u32, payload: usize) -> (r: StreamedChunk)
        ensures
            r.fresh(index, payload),
    {
        let r = StreamedChunk {
            cluster_index: index,
            loaded: false,
            unloadable: false,
            first_three_bytes: [0, 0, 0],
            extra_bytes_start_converted: false,
            extra_bytes_end_converted: false,
            payload,
        };
        assert(r.first_three_bytes@ =~= seq![0u8, 0u8, 0u8]);
        r
    }
}

/// The chunks of streamed audio, by the address of their slot.
pub struct ChunkStore {
    chunks: HashMap<usize, StoredChunk>,
}

impl ChunkStore {
    /// The constructed chunks.
    pub closed spec fn view(&self) -> Map<usize, StoredChunk> {
        self.chunks@
    }

    /// A store without chunks.
    pub fn new() -> (r: ChunkStore)
        ensures
            r@ == Map::<usize, StoredChunk>::empty(),
    {
        ChunkStore { chunks: HashMap::new() }
    }

    /// Whether a chunk was constructed at `backing`.
    pub fn contains(&self, backing: usize) -> (r: bool)
        ensures
            r == self@.dom().contains(backing),
    {
        self.chunks.contains_key(&backing)
    }

    /// Takes a chunk out of the store.
    pub fn take(&mut self, backing: usize) -> (r: Option<StoredChunk>)
        ensures
            final(self)@ == old(self)@.remove(backing),
            r == (if old(self)@.dom().contains(backing) { Some(old(self)@[backing]) } else { None }),
    {
        self.chunks.remove(&backing)
    }

    /// Puts a chunk into the store, in place of any that is there.
    pub fn put(&mut self, backing: usize, c: StoredChunk)
        ensures
            final(self)@ == old(self)@.insert(backing, c),
    {
        let _ = self.chunks.insert(backing, c);
    }

    /// Constructs a chunk at `dest` for cluster `index`, with `len` zero bytes of payload.
    /// What was there is gone.
    pub fn construct(&mut self, dest: usize, index: u32, len: usize)
        ensures
            final(self)@.dom() == old(self)@.dom().insert(dest),
            final(self)@ == old(self)@.insert(dest, final(self)@[dest]),
            final(self)@[dest].header.fresh(index, payload_address(dest)),
            final(self)@[dest].bytes@ == Seq::new(len as nat, |i: int| 0u8),
    {
        let mut bytes: Vec<u8> = Vec::new();
        let mut i: usize = 0;
        while i < len
            invariant
                i <= len,
                bytes@ == Seq::new(i as nat, |j: int| 0u8),
            decreases len - i,
        {
            bytes.push(0);
            i = i + 1;
            assert(bytes@ =~= Seq::new(i as nat, |j: int| 0u8));
        }
        let header = StreamedChunk::new(index, dest.wrapping_add(rust_chunk_payload_offset()));
        self.put(dest, StoredChunk { header, bytes });
        assert(self@.dom() =~= old(self)@.dom().insert(dest));
        assert(self@ =~= old(self)@.insert(dest, self@[dest]));
    }

    /// The header of the chunk at `backing`.
    pub fn header(&self, backing: usize) -> (r: StreamedChunk)
        requires
            self@.dom().contains(backing),
        ensures
            r == self@[backing].header,
    {
        match self.chunks.get(&backing) {
            Some(c) => c.header,
            None => StreamedChunk::new(0, 0),
        }
    }

    /// Writes the header of the chunk at `backing`.
    fn set_header(&mut self, backing: usize, header: StreamedChunk)
        requires
            old(self)@.dom().contains(backing),
        ensures
            final(self)@ == old(self)@.insert(
                backing,
                StoredChunk { header, ..old(self)@[backing] },
            ),
    {
        match self.take(backing) {
            Some(c) => self.put(backing, StoredChunk { header, bytes: c.bytes }),
            None => {},
        }
        assert(self@ =~= old(self)@.insert(
            backing,
            StoredChunk { header, ..old(self)@[backing] },
        ));
    }

    /// The address of the chunk's payload.
    pub fn payload(&self, backing: usize) -> (r: usize)
        requires
            self@.dom().contains(backing),
        ensures
            r == self@[backing].header.payload,
    {
        self.header(backing).payload
    }

    /// The chunk's bytes.
    pub fn bytes(&self, backing: usize) -> (r: Option<&Vec<u8>>)
        ensures
            match r {
                Some(b) => self@.dom().contains(backing) && *b == self@[backing].bytes,
                None => !self@.dom().contains(backing),
            },
    {
        match self.chunks.get(&backing) {
            Some(c) => Some(&c.bytes),
            None => None,
        }
    }

    /// Whether the chunk's payload is there.
    pub fn loaded(&self, backing: usize) -> (r: bool)
        requires
            self@.dom().contains(backing),
        ensures
            r == self@[backing].header.loaded,
    {
        self.header(backing).loaded
    }

    /// Says that the chunk's payload is there.
    pub fn set_loaded(&mut self, backing: usize)
        requires
            old(self)@.dom().contains(backing),
        ensures
            final(self)@ == old(self)@.insert(
                backing,
                StoredChunk {
                    header: StreamedChunk { loaded: true, ..old(self)@[backing].header },
                    ..old(self)@[backing]
                },
            ),
    {
        let mut h = self.header(backing);
        h.loaded = true;
        self.set_header(backing, h);
    }

    /// Whether the chunk cannot be loaded.
    pub fn unloadable(&self, backing: usize) -> (r: bool)
        requires
            self@.dom().contains(backing),
        ensures
            r == self@[backing].header.unloadable,
    {
        self.header(backing).unloadable
    }

    /// Says that the chunk cannot be loaded.
    pub fn set_unloadable(&mut self, backing: usize)
        requires
            old(self)@.dom().contains(backing),
        ensures
            final(self)@ == old(self)@.insert(
                backing,
                StoredChunk {
                    header: StreamedChunk { unloadable: true, ..old(self)@[backing].header },
                    ..old(self)@[backing]
                },
            ),
    {
        let mut h = self.header(backing);
        h.unloadable = true;
        self.set_header(backing, h);
    }

    /// What the chunk's conversion has done so far.
    pub fn convert_state(&self, backing: usize) -> (r: DelugeChunkConvertState)
        requires
            self@.dom().contains(backing),
        ensures
            r == self@[backing].header.state(),
    {
        self.header(backing).convert_state()
    }

    /// Says what the chunk's conversion has done so far.
    pub fn set_convert_state(&mut self, backing: usize, state: DelugeChunkConvertState)
        requires
            old(self)@.dom().contains(backing),
        ensures
            final(self)@ == old(self)@.insert(
                backing,
                StoredChunk {
                    header: old(self)@[backing].header.with_state(state),
                    ..old(self)@[backing]
                },
            ),
    {
        let mut h = self.header(backing);
        h.first_three_bytes = state.first_three_bytes;
        h.extra_bytes_start_converted = state.start_converted;
        h.extra_bytes_end_converted = state.end_converted;
        self.set_header(backing, h);
    }
}

/// Where a chunk's payload starts in its slot: one guard behind the header.
pub open spec fn payload_offset() -> nat {
    size_of::<StreamedChunk>() + CACHE_LINE as nat
}

/// Where a chunk's payload starts in its slot: one guard behind the header.
pub fn rust_chunk_payload_offset() -> (r: usize)
    ensures
        r == payload_offset(),
        r == size_of::<StreamedChunk>() + CACHE_LINE,
{
    layout_for_type_is_valid::<StreamedChunk>();
    core::mem::size_of::<StreamedChunk>() + CACHE_LINE
}

/// Where the payload of the chunk in the slot at `dest` is.
pub open spec fn payload_address(dest: usize) -> usize {
    dest.wrapping_add(payload_offset() as usize)
}

/// The state that was written is the state that is read.
pub proof fn convert_state_round_trips(h: StreamedChunk, s: DelugeChunkConvertState)
    ensures
        h.with_state(s).state() == s,
        h.with_state(h.state()) == h,
        h.with_state(s).loaded == h.loaded,
        h.with_state(s).payload == h.payload,
{
}

/// Where a chunk's payload starts in its slot, for those who size the slots.
pub fn deluge_streamed_chunk_payload_offset() -> (r: u32)
    ensures
        r == (size_of::<StreamedChunk>() + CACHE_LINE) as u32,
{
    rust_chunk_payload_offset() as u32
}

/// A chunk's payload starts 32 bytes behind the end of its header, and a chunk that is
/// constructed has its payload there.
pub proof fn payloads_start_behind_the_guard(dest: usize)
    requires
        dest + size_of::<StreamedChunk>() + 32 <= usize::MAX,
    ensures
        payload_offset() == size_of::<StreamedChunk>() + 32,
        payload_address(dest) == dest + size_of::<StreamedChunk>() + 32,
{
}

} // verus!
