use deluge_rust::fill::fill_logic::{
    begin, finish_convert_stitch, raw_data_format_from_u8, ConvertCall, ConvertGeometry,
    ConvertState, Converted, FillGeometry, NeighbourView, NextEdge, PrevEdge, RawDataFormat,
    SampleConvert, StitchCall, Stitched, UNKNOWN_LENGTH_SENTINEL,
};

/// 32 KiB clusters (magnitude 15), a common FAT cluster size.
const CLUSTER_SIZE: u32 = 32768;
const CLUSTER_MAGNITUDE: u32 = 15;

fn geo(audio_data_length_bytes: u64) -> FillGeometry {
    FillGeometry {
        audio_data_start_pos_bytes: 0,
        audio_data_length_bytes,
        first_cluster_index_with_no_audio_data: -1,
        cluster_size: CLUSTER_SIZE,
        cluster_size_magnitude: CLUSTER_MAGNITUDE,
        raw_data_format: 0,
    }
}

#[test]
fn full_cluster_at_index_zero() {
    let g = geo(100_000);
    let r = begin(0, &g);
    assert!(r.ok);
    assert_eq!(r.num_sectors, CLUSTER_SIZE >> 9); // 64
    assert_eq!(r.byte_offset, 0);
}

#[test]
fn full_cluster_at_mid_stream_index() {
    let g = geo(100_000);
    let r = begin(1, &g);
    assert!(r.ok);
    assert_eq!(r.num_sectors, 64);
    assert_eq!(r.byte_offset, 32768);
}

#[test]
fn short_last_cluster_rounds_sectors_up() {
    // 1696 bytes are left: four sectors.
    let g = geo(100_000);
    let r = begin(3, &g);
    assert!(r.ok);
    assert_eq!(r.num_sectors, 4);
    assert_eq!(r.byte_offset, 98304);
}

#[test]
fn cluster_wholly_past_audio_end_is_not_ok() {
    let g = geo(100_000);
    let r = begin(4, &g);
    assert!(!r.ok);
    assert_eq!(r.num_sectors, 0);
    assert_eq!(r.byte_offset, 0);
}

#[test]
fn unknown_length_sentinel_yields_full_cluster() {
    let g = geo(UNKNOWN_LENGTH_SENTINEL);
    let r = begin(7, &g);
    assert!(r.ok);
    assert_eq!(r.num_sectors, 64);
    assert_eq!(r.byte_offset, 7 << CLUSTER_MAGNITUDE);
}

#[test]
fn zero_length_yields_full_cluster() {
    let g = geo(0);
    let r = begin(2, &g);
    assert!(r.ok);
    assert_eq!(r.num_sectors, 64);
    assert_eq!(r.byte_offset, 2 << CLUSTER_MAGNITUDE);
}

#[test]
fn nonzero_audio_data_start_pos_shifts_the_end() {
    // The audio ends at 51000, so 18232 bytes of cluster 1: 36 sectors.
    let mut g = geo(50_000);
    g.audio_data_start_pos_bytes = 1000;
    let r = begin(1, &g);
    assert!(r.ok);
    assert_eq!(r.num_sectors, 36);
    assert_eq!(r.byte_offset, 32768);
}

#[test]
fn positions_are_cut_to_thirty_two_bits() {
    // The audio ends 512 bytes past 4 GiB: as a 32-bit position that is 512.
    let g = geo(0x1_0000_0200);
    let r = begin(0, &g);
    assert!(r.ok);
    assert_eq!((r.num_sectors, r.byte_offset), (1, 0));
    assert!(!begin(1, &g).ok);
}

#[test]
fn formats_outside_the_range_are_native() {
    let want = [
        RawDataFormat::Native,
        RawDataFormat::Float,
        RawDataFormat::Unsigned8,
        RawDataFormat::EndiannessWrong16,
        RawDataFormat::EndiannessWrong24,
        RawDataFormat::EndiannessWrong32,
        RawDataFormat::Native,
    ];
    for (v, w) in want.iter().enumerate() {
        assert_eq!(raw_data_format_from_u8(v as u8), *w);
    }
    assert_eq!(raw_data_format_from_u8(255), RawDataFormat::Native);
}

// A misaligned geometry, so that a word straddles each boundary.
const SMALL: usize = 32;
const MAGNITUDE: u32 = 5;

fn stitch_geo() -> FillGeometry {
    FillGeometry {
        audio_data_start_pos_bytes: 1,
        audio_data_length_bytes: 1000,
        first_cluster_index_with_no_audio_data: 10,
        cluster_size: SMALL as u32,
        cluster_size_magnitude: MAGNITUDE,
        raw_data_format: 2, // Unsigned8
    }
}

/// `cluster_size + 7` bytes, each its distance from `base`.
fn ramp(base: u8) -> Vec<u8> {
    (0..SMALL + 7).map(|i| base.wrapping_add(i as u8)).collect()
}

fn convert_geometry() -> ConvertGeometry {
    ConvertGeometry {
        audio_data_start_pos_bytes: 1,
        audio_data_length_bytes: 1000,
        first_cluster_index_with_no_audio_data: 10,
    }
}

/// A conversion whose results depend on every argument: it keeps the first three bytes,
/// flips the sign bit of each byte, and stitches each boundary once.
struct Conv;

impl SampleConvert for Conv {
    fn convert_cluster(call: ConvertCall) -> Converted {
        assert_eq!(call.cluster.len(), call.cluster_size);
        assert_eq!(call.cluster_size, 1 << call.cluster_size_magnitude);
        assert_eq!(call.geometry, convert_geometry());
        assert_eq!(call.format, RawDataFormat::Unsigned8);
        Converted {
            first_three_bytes: [call.cluster[0], call.cluster[1], call.cluster[2]],
            cluster: call.cluster.iter().map(|b| b ^ 0x80).collect(),
        }
    }

    fn stitch_boundaries(call: StitchCall) -> Stitched {
        assert_eq!(call.format, RawDataFormat::Unsigned8);
        let cs = call.cluster_size;
        let shift = call.audio_data_start_pos_bytes as usize + call.index as usize;
        let mut span = call.span;
        let mut start_converted = call.start_converted;
        let mut end_converted = call.end_converted;
        let prev = call.prev.map(|PrevEdge { tail, end_boundary_converted }| {
            let mut tail = tail;
            assert_eq!(tail.len(), 11);
            if !end_boundary_converted {
                span[0] = span[0].wrapping_add(tail[3]).wrapping_add(shift as u8);
                tail[3] ^= 0x55;
            }
            tail[4..11].copy_from_slice(&span[0..7]);
            start_converted = true;
            (tail, true)
        });
        let next = call.next.map(
            |NextEdge { head, unconverted_head, start_boundary_converted }| {
                let mut head = head;
                assert_eq!(head.len(), 7);
                if !start_boundary_converted {
                    head[0] = head[0].wrapping_add(unconverted_head[1]);
                    span[cs - 1] ^= 0x33;
                }
                span[cs..cs + 7].copy_from_slice(&head);
                end_converted = true;
                (head, true)
            },
        );
        Stitched {
            span,
            start_converted,
            end_converted,
            prev,
            next,
        }
    }
}

fn view(payload: Vec<u8>, head: [u8; 3], start: bool, end: bool) -> Option<NeighbourView> {
    Some(NeighbourView {
        payload,
        unconverted_head: head,
        start_converted: start,
        end_converted: end,
    })
}

/// The conversion alone, written back where it belongs.
fn convert_directly(payload: &mut Vec<u8>, index: i32) -> [u8; 3] {
    let c = Conv::convert_cluster(ConvertCall {
        cluster: payload[..SMALL].to_vec(),
        index,
        format: RawDataFormat::Unsigned8,
        geometry: convert_geometry(),
        cluster_size: SMALL,
        cluster_size_magnitude: MAGNITUDE as usize,
        first_three_bytes: [0; 3],
    });
    payload[..SMALL].copy_from_slice(&c.cluster);
    c.first_three_bytes
}

/// The stitch alone, written back where it belongs.
#[allow(clippy::too_many_arguments)]
fn stitch_directly(
    payload: &mut Vec<u8>,
    index: i32,
    start: &mut bool,
    end: &mut bool,
    prev: Option<(&mut Vec<u8>, &mut bool)>,
    next: Option<(&mut Vec<u8>, [u8; 3], &mut bool)>,
) {
    let s = Conv::stitch_boundaries(StitchCall {
        span: payload.clone(),
        index,
        format: RawDataFormat::Unsigned8,
        audio_data_start_pos_bytes: 1,
        cluster_size: SMALL,
        start_converted: *start,
        end_converted: *end,
        prev: prev.as_ref().map(|(p, e)| PrevEdge {
            tail: p[SMALL - 4..SMALL + 7].to_vec(),
            end_boundary_converted: **e,
        }),
        next: next.as_ref().map(|(n, h, b)| NextEdge {
            head: n[0..7].to_vec(),
            unconverted_head: *h,
            start_boundary_converted: **b,
        }),
    });
    *payload = s.span;
    *start = s.start_converted;
    *end = s.end_converted;
    if let (Some((p, e)), Some((tail, flag))) = (prev, s.prev) {
        p[SMALL - 4..SMALL + 7].copy_from_slice(&tail);
        *e = flag;
    }
    if let (Some((n, _, b)), Some((head, flag))) = (next, s.next) {
        n[0..7].copy_from_slice(&head);
        *b = flag;
    }
}

#[test]
fn convert_then_stitch_matches_calling_the_underlying_crate_directly_both_neighbours() {
    let geo = stitch_geo();
    let next_unconv: [u8; 3] = [70, 71, 72];

    // -- Run A: through finish_convert_stitch. --
    let mut self_a = ramp(10);
    let mut self_state_a = ConvertState::default();
    let (prev_a, next_a) = finish_convert_stitch::<Conv>(
        &mut self_a,
        1,
        &geo,
        &mut self_state_a,
        view(ramp(50), [0; 3], false, false),
        view(ramp(90), next_unconv, false, false),
    );
    let (prev_a, next_a) = (prev_a.unwrap(), next_a.unwrap());

    // -- Run B: directly. --
    let mut self_b = ramp(10);
    let mut prev_b = ramp(50);
    let mut next_b = ramp(90);
    let head_b = convert_directly(&mut self_b, 1);
    let mut self_start_b = false;
    let mut self_end_b = false;
    let mut prev_end_b = false;
    let mut next_start_b = false;
    stitch_directly(
        &mut self_b,
        1,
        &mut self_start_b,
        &mut self_end_b,
        Some((&mut prev_b, &mut prev_end_b)),
        Some((&mut next_b, next_unconv, &mut next_start_b)),
    );

    assert_eq!(self_a, self_b, "self payload diverged");
    assert_eq!(prev_a.payload, prev_b, "prev payload diverged");
    assert_eq!(next_a.payload, next_b, "next payload diverged");
    assert_eq!(self_state_a.first_three_bytes, head_b);
    assert_eq!(self_state_a.start_converted, self_start_b);
    assert_eq!(self_state_a.end_converted, self_end_b);
    assert_eq!(prev_a.end_converted, prev_end_b);
    assert_eq!(next_a.start_converted, next_start_b);
    // A boundary conversion happened.
    assert!(self_state_a.start_converted);
    assert!(self_state_a.end_converted);
}

#[test]
fn prev_only_matches_the_underlying_crate_directly() {
    let geo = stitch_geo();
    let mut self_a = ramp(5);
    let mut self_state_a = ConvertState::default();
    let (prev_a, next_a) = finish_convert_stitch::<Conv>(
        &mut self_a,
        1,
        &geo,
        &mut self_state_a,
        view(ramp(60), [0; 3], false, false),
        None,
    );
    assert!(next_a.is_none());
    let prev_a = prev_a.unwrap();

    let mut self_b = ramp(5);
    let mut prev_b = ramp(60);
    convert_directly(&mut self_b, 1);
    let mut self_start_b = false;
    let mut self_end_b = false;
    let mut prev_end_b = false;
    stitch_directly(
        &mut self_b,
        1,
        &mut self_start_b,
        &mut self_end_b,
        Some((&mut prev_b, &mut prev_end_b)),
        None,
    );

    assert_eq!(self_a, self_b);
    assert_eq!(prev_a.payload, prev_b);
    assert_eq!(self_state_a.start_converted, self_start_b);
    assert!(
        self_state_a.start_converted,
        "prev present -> self_start set true"
    );
    assert_eq!(self_state_a.end_converted, self_end_b);
    assert!(
        !self_state_a.end_converted,
        "no next -> self_end left false"
    );
    assert_eq!(prev_a.end_converted, prev_end_b);
}

#[test]
fn next_only_matches_the_underlying_crate_directly() {
    let geo = stitch_geo();
    let next_unconv: [u8; 3] = [33, 34, 35];
    let mut self_a = ramp(7);
    let mut self_state_a = ConvertState::default();
    let (prev_a, next_a) = finish_convert_stitch::<Conv>(
        &mut self_a,
        1,
        &geo,
        &mut self_state_a,
        None,
        view(ramp(80), next_unconv, false, false),
    );
    assert!(prev_a.is_none());
    let next_a = next_a.unwrap();

    let mut self_b = ramp(7);
    let mut next_b = ramp(80);
    convert_directly(&mut self_b, 1);
    let mut self_start_b = false;
    let mut self_end_b = false;
    let mut next_start_b = false;
    stitch_directly(
        &mut self_b,
        1,
        &mut self_start_b,
        &mut self_end_b,
        None,
        Some((&mut next_b, next_unconv, &mut next_start_b)),
    );

    assert_eq!(self_a, self_b);
    assert_eq!(next_a.payload, next_b);
    assert_eq!(self_state_a.start_converted, self_start_b);
    assert!(
        !self_state_a.start_converted,
        "no prev -> self_start left false"
    );
    assert_eq!(self_state_a.end_converted, self_end_b);
    assert!(
        self_state_a.end_converted,
        "next present -> self_end set true"
    );
    assert_eq!(next_a.start_converted, next_start_b);
}

#[test]
fn no_neighbours_converts_but_leaves_flags_and_buffer_unstitched() {
    let geo = stitch_geo();
    let mut self_a = ramp(3);
    let mut self_state_a = ConvertState::default();
    finish_convert_stitch::<Conv>(&mut self_a, 1, &geo, &mut self_state_a, None, None);

    let mut self_b = ramp(3);
    let head_b = convert_directly(&mut self_b, 1);
    assert_eq!(self_a, self_b);
    assert_eq!(self_state_a.first_three_bytes, head_b);
    assert!(!self_state_a.start_converted);
    assert!(!self_state_a.end_converted);
}

#[test]
fn second_visit_from_the_other_side_is_idempotent() {
    let geo = stitch_geo();

    // -- Run A: through finish_convert_stitch, chunk 0 then chunk 1. --
    let mut c0_a = ramp(1);
    let mut c0_state_a = ConvertState::default();
    let (_, c1) = finish_convert_stitch::<Conv>(
        &mut c0_a,
        0,
        &geo,
        &mut c0_state_a,
        None,
        view(ramp(200), [0; 3], false, false),
    );
    let c1 = c1.unwrap();
    assert!(
        c1.start_converted,
        "the first visit must mark the shared boundary converted on chunk 1's side too"
    );
    let mut c1_a = c1.payload;
    let mut c1_state_a = ConvertState {
        first_three_bytes: [0; 3],
        start_converted: c1.start_converted,
        end_converted: c1.end_converted,
    };
    let (c0, _) = finish_convert_stitch::<Conv>(
        &mut c1_a,
        1,
        &geo,
        &mut c1_state_a,
        view(
            c0_a,
            [0; 3],
            c0_state_a.start_converted,
            c0_state_a.end_converted,
        ),
        None,
    );
    let c0 = c0.unwrap();

    // -- Run B: the same two visits, directly. --
    let mut c0_b = ramp(1);
    let mut c1_b = ramp(200);
    let mut c0_start_b = false;
    let mut c0_end_b = false;
    let mut c1_start_b = false;
    let mut c1_end_b = false;
    convert_directly(&mut c0_b, 0);
    stitch_directly(
        &mut c0_b,
        0,
        &mut c0_start_b,
        &mut c0_end_b,
        None,
        Some((&mut c1_b, [0; 3], &mut c1_start_b)),
    );
    let c1_head_b = convert_directly(&mut c1_b, 1);
    stitch_directly(
        &mut c1_b,
        1,
        &mut c1_start_b,
        &mut c1_end_b,
        Some((&mut c0_b, &mut c0_end_b)),
        None,
    );

    assert_eq!(c0.payload, c0_b, "chunk 0 payload diverged");
    assert_eq!(c1_a, c1_b, "chunk 1 payload diverged");
    assert_eq!(c0.end_converted, c0_end_b);
    assert_eq!(c1_state_a.start_converted, c1_start_b);
    assert_eq!(c1_state_a.first_three_bytes, c1_head_b);
}

/// A conversion that gives too little and too much back.
struct Unruly;

impl SampleConvert for Unruly {
    fn convert_cluster(_call: ConvertCall) -> Converted {
        Converted {
            cluster: vec![9; 100],
            first_three_bytes: [1, 2, 3],
        }
    }

    fn stitch_boundaries(call: StitchCall) -> Stitched {
        Stitched {
            span: vec![8; 2],
            start_converted: true,
            end_converted: false,
            prev: call.prev.map(|_| (vec![7; 50], true)),
            next: call.next.map(|_| (vec![6; 50], true)),
        }
    }
}

#[test]
fn only_the_chunk_and_the_edges_can_change() {
    let mut me = ramp(0);
    let mut state = ConvertState::default();
    let (p, n) = finish_convert_stitch::<Unruly>(
        &mut me,
        1,
        &stitch_geo(),
        &mut state,
        view(ramp(50), [0; 3], false, false),
        view(ramp(90), [4; 3], false, true),
    );
    let mut want = ramp(0);
    want[..SMALL].fill(9); // not the slack
    want[..2].fill(8);
    assert_eq!(me, want);
    assert_eq!(
        state,
        ConvertState {
            first_three_bytes: [1, 2, 3],
            start_converted: true,
            end_converted: false
        }
    );
    let (p, n) = (p.unwrap(), n.unwrap());
    let mut want = ramp(50);
    want[SMALL - 4..].fill(7);
    assert_eq!((p.payload, p.start_converted, p.end_converted), (want, false, true));
    let mut want = ramp(90);
    want[..7].fill(6);
    assert_eq!((n.payload, n.unconverted_head), (want, [4; 3]));
    assert!(n.start_converted && n.end_converted);
}
