//! Where the frames of a sample are in its file, worked out on its own.
use crate::reader::sample_reader;
use crate::source::geometry;
use vstd::prelude::*;

verus! {

/// As much of a sample's geometry as the mapping needs.
#[derive(Clone, Copy, PartialEq, Eq, Debug)]
pub struct Geometry {
    pub audio_data_start_bytes: u32,
    pub audio_data_length_bytes: u64,
    pub cluster_size_bytes: u32,
    pub byte_depth: u8,
    pub num_channels: u8,
}

impl Geometry {
    /// Bytes of one frame.
    pub open spec fn stride(self) -> int {
        self.byte_depth * self.num_channels
    }

    /// Bytes of one frame.
    pub fn frame_stride(&self) -> (r: u64)
        ensures
            r == self.stride(),
            r <= 65025,
    {
        assert(0 <= self.byte_depth * self.num_channels <= 65025) by (nonlinear_arith)
            requires
                0 <= self.byte_depth <= 255,
                0 <= self.num_channels <= 255,
        ;
        self.byte_depth as u64 * self.num_channels as u64
    }

    /// How many frames lie wholly in the audio data.
    pub fn total_frames(&self) -> (r: u64)
        requires
            self.stride() > 0,
        ensures
            r * self.stride() <= self.audio_data_length_bytes < (r + 1) * self.stride(),
    {
        let st: u64 = self.frame_stride();
        let r: u64 = self.audio_data_length_bytes / st;
        proof {
            let l = self.audio_data_length_bytes as int;
            let d = st as int;
            vstd::arithmetic::div_mod::lemma_fundamental_div_mod(l, d);
            vstd::arithmetic::div_mod::lemma_mod_bound(l, d);
            assert((r + 1) * d == d * r + d) by (nonlinear_arith);
            assert(r * d == d * r) by (nonlinear_arith);
        }
        r
    }
}

/// The cluster that a frame starts in, and where in it.
pub fn locate(frame: u64, geo: &Geometry) -> (r: (u32, u32))
    requires
        geo.cluster_size_bytes > 0,
        geo.audio_data_start_bytes + frame * geo.stride() <= u64::MAX,
    ensures
        ({
            let pos = geo.audio_data_start_bytes + frame * geo.stride();
            &&& r.0 == (pos / geo.cluster_size_bytes as int) % 0x1_0000_0000
            &&& r.1 == pos % geo.cluster_size_bytes as int
        }),
{
    let st: u64 = geo.frame_stride();
    proof {
        assert(0 <= frame * st) by (nonlinear_arith)
            requires
                0 <= frame,
                0 <= st,
        ;
    }
    let abs_byte_pos: u64 = geo.audio_data_start_bytes as u64 + frame * st;
    let cluster_size: u64 = geo.cluster_size_bytes as u64;
    let quotient: u64 = abs_byte_pos / cluster_size;
    assert(quotient as u32 as u64 == quotient % 0x1_0000_0000u64) by (bit_vector);
    (quotient as u32, (abs_byte_pos % cluster_size) as u32)
}

/// A frame lies wholly in the audio data exactly if it is one of the total.
pub proof fn total_frames_excludes_a_partial_tail(geo: Geometry, total: int, frame: int)
    requires
        geo.stride() > 0,
        0 <= total,
        0 <= frame,
        total * geo.stride() <= geo.audio_data_length_bytes < (total + 1) * geo.stride(),
    ensures
        frame < total <==> (frame + 1) * geo.stride() <= geo.audio_data_length_bytes,
{
    let d = geo.stride();
    if frame < total {
        assert((frame + 1) * d <= total * d) by (nonlinear_arith)
            requires
                frame + 1 <= total,
                d > 0,
        ;
    } else {
        assert((frame + 1) * d >= (total + 1) * d) by (nonlinear_arith)
            requires
                frame + 1 >= total + 1,
                d > 0,
        ;
    }
}

/// The reader's mapping and this one agree, wherever the file can be addressed in 64 bits
/// and its clusters be counted in 32.
pub proof fn reader_maps_frames_alike(geo: Geometry, read: geometry::Geometry, frame: u64)
    requires
        read.audio_data_start_bytes == geo.audio_data_start_bytes,
        read.cluster_size_bytes == geo.cluster_size_bytes,
        read.byte_depth == geo.byte_depth,
        read.num_channels == geo.num_channels,
        geo.cluster_size_bytes > 0,
        geo.audio_data_start_bytes + frame * geo.stride() <= u64::MAX,
        (geo.audio_data_start_bytes + frame * geo.stride()) / geo.cluster_size_bytes as int
            <= u32::MAX,
    ensures
        ({
            let pos = geo.audio_data_start_bytes + frame * geo.stride();
            &&& sample_reader::frame_cluster(frame, read) == (pos / geo.cluster_size_bytes as int)
                % 0x1_0000_0000
            &&& sample_reader::frame_offset(frame, read) == pos % geo.cluster_size_bytes as int
        }),
{
    let pos = geo.audio_data_start_bytes + frame * geo.stride();
    assert(0 <= frame * geo.stride()) by (nonlinear_arith)
        requires
            0 <= frame,
            0 <= geo.stride(),
    ;
    vstd::arithmetic::div_mod::lemma_div_pos_is_pos(pos, geo.cluster_size_bytes as int);
    vstd::arithmetic::div_mod::lemma_small_mod(
        (pos / geo.cluster_size_bytes as int) as nat,
        0x1_0000_0000,
    );
}

} // verus!
