//! A sample's audio geometry, and how much of each cluster is audio.
use vstd::prelude::*;

verus! {

/// The length of a recording that is still under way.
pub const UNKNOWN_LENGTH_SENTINEL: u64 = 0x8FFF_FFFF_FFFF_FFFF;

/// The geometry of one sample's audio data.
#[derive(Clone, Copy, PartialEq, Eq, Debug)]
pub struct Geometry {
    pub audio_data_start_bytes: u32,
    pub audio_data_length_bytes: u64,
    pub cluster_size_bytes: u32,
    pub byte_depth: u8,
    pub num_channels: u8,
    pub raw_data_format: u8,
}

impl Geometry {
    /// The audio data's length is known.
    pub open spec fn length_known(self) -> bool {
        self.audio_data_length_bytes != 0 && self.audio_data_length_bytes
            != UNKNOWN_LENGTH_SENTINEL
    }

    /// Where the audio data ends in the file.
    pub open spec fn end(self) -> int {
        self.audio_data_start_bytes + self.audio_data_length_bytes
    }

    /// Bytes of cluster `index` up to the end of the audio data; the whole cluster while
    /// the length is not known.
    pub open spec fn resident(self, index: int) -> int {
        let left = self.end() - index * self.cluster_size_bytes;
        if !self.length_known() || left >= self.cluster_size_bytes {
            self.cluster_size_bytes as int
        } else if left > 0 {
            left
        } else {
            0
        }
    }
}

impl Default for Geometry {
    fn default() -> (r: Geometry)
        ensures
            r == (Geometry {
                audio_data_start_bytes: 0,
                audio_data_length_bytes: 0,
                cluster_size_bytes: 0,
                byte_depth: 0,
                num_channels: 0,
                raw_data_format: 0,
            }),
    {
        Geometry {
            audio_data_start_bytes: 0,
            audio_data_length_bytes: 0,
            cluster_size_bytes: 0,
            byte_depth: 0,
            num_channels: 0,
            raw_data_format: 0,
        }
    }
}

/// Valid bytes of cluster `index`: all of it for a full cluster, the rest for a short last
/// one, none for a cluster past the end, and all of it while the length is not known.
pub fn resident_bytes_for(index: u32, geo: &Geometry) -> (r: u32)
    ensures
        r == geo.resident(index as int),
{
    let cluster_size: u32 = geo.cluster_size_bytes;
    if geo.audio_data_length_bytes == 0 || geo.audio_data_length_bytes == UNKNOWN_LENGTH_SENTINEL {
        return cluster_size;
    }
    let audio_data_end: u64 = geo.audio_data_length_bytes.saturating_add(
        geo.audio_data_start_bytes as u64,
    );
    assert(0 <= index * cluster_size <= 0xFFFF_FFFE_0000_0001) by (nonlinear_arith)
        requires
            0 <= index <= 0xFFFF_FFFF,
            0 <= cluster_size <= 0xFFFF_FFFF,
    ;
    let start_this_cluster: u64 = index as u64 * cluster_size as u64;
    if audio_data_end <= start_this_cluster {
        return 0;
    }
    let bytes_to_read: u64 = audio_data_end - start_this_cluster;
    if bytes_to_read < cluster_size as u64 {
        bytes_to_read as u32
    } else {
        cluster_size
    }
}

/// A cluster that is not full is the last one with audio.
pub proof fn nothing_follows_a_short_cluster(geo: Geometry, i: int, j: int)
    requires
        0 <= i < j,
        geo.cluster_size_bytes > 0,
        geo.resident(i) < geo.cluster_size_bytes,
    ensures
        geo.resident(j) == 0,
{
    assert(j * geo.cluster_size_bytes >= i * geo.cluster_size_bytes + geo.cluster_size_bytes)
        by (nonlinear_arith)
        requires
            j >= i + 1,
            geo.cluster_size_bytes > 0,
    ;
}

/// The valid bytes of the first `n` clusters are the file up to the end of the audio data,
/// or all `n` clusters if it goes on.
pub proof fn clusters_cover_the_audio(geo: Geometry, n: nat)
    requires
        geo.length_known(),
    ensures
        resident_total(geo, n) == if n * geo.cluster_size_bytes <= geo.end() {
            n * geo.cluster_size_bytes
        } else {
            geo.end()
        },
    decreases n,
{
    if n > 0 {
        clusters_cover_the_audio(geo, (n - 1) as nat);
        assert(n * geo.cluster_size_bytes == (n - 1) * geo.cluster_size_bytes
            + geo.cluster_size_bytes) by (nonlinear_arith);
    } else {
        assert(0 * geo.cluster_size_bytes == 0) by (nonlinear_arith);
    }
}

/// The valid bytes of the first `n` clusters.
pub open spec fn resident_total(geo: Geometry, n: nat) -> int
    decreases n,
{
    if n == 0 {
        0
    } else {
        resident_total(geo, (n - 1) as nat) + geo.resident(n - 1)
    }
}

/// A byte of a cluster is audio, or comes before it, exactly if it lies before the end of the
/// audio data in the file; of a recording whose length is not known every byte counts. A length
/// of 0 is not known, and neither is that of a recording under way.
pub proof fn bytes_before_the_end_are_resident(geo: Geometry, index: int, at: int)
    requires
        0 <= index,
        0 <= at < geo.cluster_size_bytes,
    ensures
        geo.audio_data_length_bytes != 0 && geo.audio_data_length_bytes != 0x8FFF_FFFF_FFFF_FFFF
            ==> (at < geo.resident(index) <==> index * geo.cluster_size_bytes + at
            < geo.audio_data_start_bytes + geo.audio_data_length_bytes),
        geo.audio_data_length_bytes == 0 || geo.audio_data_length_bytes == 0x8FFF_FFFF_FFFF_FFFF
            ==> at < geo.resident(index),
        0 <= geo.resident(index) <= geo.cluster_size_bytes,
{
}

} // verus!
