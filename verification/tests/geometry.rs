use deluge_rust::reader::sample_reader;
use deluge_rust::source::geometry::{resident_bytes_for, Geometry, UNKNOWN_LENGTH_SENTINEL};

fn geo(len: u64) -> Geometry {
    Geometry {
        audio_data_start_bytes: 0,
        audio_data_length_bytes: len,
        cluster_size_bytes: 16,
        byte_depth: 2,
        num_channels: 1,
        raw_data_format: 0,
    }
}

#[test]
fn full_clusters_and_short_last_and_sentinel() {
    let g = geo(68); // 4*16 + 4: clusters 0..3 are full, cluster 4 has 4 bytes
    assert_eq!(resident_bytes_for(0, &g), 16);
    assert_eq!(resident_bytes_for(3, &g), 16);
    assert_eq!(resident_bytes_for(4, &g), 4);
    // A cluster past the end.
    assert_eq!(resident_bytes_for(5, &g), 0);
    // Still recording: the whole cluster, whatever the index.
    let s = geo(0x8FFFFFFFFFFFFFFF);
    assert_eq!(resident_bytes_for(99, &s), 16);
    // Zero length: unknown too.
    let z = geo(0);
    assert_eq!(resident_bytes_for(0, &z), 16);
}

#[test]
fn resident_bytes_for_full_clusters_short_last_and_sentinel() {
    let g: sample_reader::Geometry = geo(68);
    assert_eq!(sample_reader::resident_bytes_for(0, &g), 16);
    assert_eq!(sample_reader::resident_bytes_for(3, &g), 16);
    assert_eq!(sample_reader::resident_bytes_for(4, &g), 4);
    assert_eq!(sample_reader::resident_bytes_for(5, &g), 0);
    let s = geo(sample_reader::UNKNOWN_LENGTH_SENTINEL);
    assert_eq!(sample_reader::resident_bytes_for(99, &s), 16);
    let z = geo(0);
    assert_eq!(sample_reader::resident_bytes_for(0, &z), 16);
}

#[test]
fn lengths_near_the_top_do_not_wrap() {
    let mut g = geo(u64::MAX);
    g.audio_data_start_bytes = u32::MAX;
    assert_eq!(resident_bytes_for(u32::MAX, &g), 16);
    assert_eq!(UNKNOWN_LENGTH_SENTINEL, 0x8FFF_FFFF_FFFF_FFFF);
}

#[test]
fn clusters_add_up_to_the_audio() {
    for len in 1..200u64 {
        let mut g = geo(len);
        g.audio_data_start_bytes = 3;
        let total: u64 = (0..20).map(|i| resident_bytes_for(i, &g) as u64).sum();
        assert_eq!(total, len + 3);
        let mut ended = false;
        for i in 0..20 {
            let n = resident_bytes_for(i, &g);
            assert!(!ended || n == 0);
            ended = ended || n < 16;
        }
    }
}
