//! The arithmetic of a cluster's read, and the steps after it.
use vstd::prelude::*;

verus! {

/// The length of a recording that is still under way.
pub const UNKNOWN_LENGTH_SENTINEL: u64 = 0x8FFF_FFFF_FFFF_FFFF;

/// The geometry of one asset, as far as the fill reads it.
#[derive(Clone, Copy, PartialEq, Eq, Debug)]
pub struct FillGeometry {
    pub audio_data_start_pos_bytes: u32,
    pub audio_data_length_bytes: u64,
    pub first_cluster_index_with_no_audio_data: i32,
    pub cluster_size: u32,
    pub cluster_size_magnitude: u32,
    pub raw_data_format: u8,
}

/// How much of a cluster to read, and from where.
#[derive(Clone, Copy, PartialEq, Eq, Debug, Structural)]
pub struct BeginResult {
    /// Sectors of 512 bytes.
    pub num_sectors: u32,
    pub byte_offset: u32,
    /// False if the cluster is wholly past the audio data.
    pub ok: bool,
}

/// The number whose 32-bit pattern is `x`, read as signed.
pub open spec fn signed32(x: int) -> int {
    let m = x % 0x1_0000_0000;
    if m < 0x8000_0000 {
        m
    } else {
        m - 0x1_0000_0000
    }
}

impl FillGeometry {
    /// The audio data's length is known.
    pub open spec fn length_known(self) -> bool {
        self.audio_data_length_bytes != 0 && self.audio_data_length_bytes
            != UNKNOWN_LENGTH_SENTINEL
    }

    /// Bytes from the start of cluster `index` to the end of the audio data, in 32 bits.
    pub open spec fn bytes_left(self, index: u32) -> int {
        signed32(
            self.audio_data_length_bytes + self.audio_data_start_pos_bytes - self.byte_offset(
                index,
            ),
        )
    }

    /// Where cluster `index` starts in the file.
    pub open spec fn byte_offset(self, index: u32) -> u32 {
        index << self.cluster_size_magnitude
    }

    /// The cluster is wholly past the audio data.
    pub open spec fn past_end(self, index: u32) -> bool {
        self.length_known() && self.bytes_left(index) <= 0
    }

    /// Sectors to read: the cluster's, or if the audio data ends in it just enough to hold
    /// what is left.
    pub open spec fn sectors(self, index: u32) -> int {
        if self.length_known() && self.bytes_left(index) < signed32(self.cluster_size as int) {
            (self.bytes_left(index) + 511) / 512
        } else {
            self.cluster_size as int / 512
        }
    }
}

/// What to read of cluster `index`. Positions are computed in 32 bits and wrap.
pub fn begin(index: u32, geo: &FillGeometry) -> (r: BeginResult)
    requires
        geo.cluster_size_magnitude < 32,
    ensures
        r.ok == !geo.past_end(index),
        r.ok ==> r.num_sectors == geo.sectors(index) && r.byte_offset == geo.byte_offset(index),
        !r.ok ==> r.num_sectors == 0 && r.byte_offset == 0,
        r.num_sectors * 512 <= u32::MAX,
{
    let full: u32 = geo.cluster_size;
    assert(full >> 9u32 == full / 512u32) by (bit_vector);
    let mut num_sectors: u32 = full >> 9u32;
    if geo.audio_data_length_bytes != 0 && geo.audio_data_length_bytes != UNKNOWN_LENGTH_SENTINEL {
        let sum: u64 = geo.audio_data_length_bytes.wrapping_add(
            geo.audio_data_start_pos_bytes as u64,
        );
        let audio_data_end_pos_bytes: u32 = sum as u32;
        let start_byte_this_cluster: u32 = index << geo.cluster_size_magnitude;
        let diff: u32 = audio_data_end_pos_bytes.wrapping_sub(start_byte_this_cluster);
        let bytes_to_read: i32 = diff as i32;
        proof {
            lemma_bytes_left(*geo, index, sum, audio_data_end_pos_bytes, diff);
        }
        if bytes_to_read <= 0 {
            return BeginResult { num_sectors: 0, byte_offset: 0, ok: false };
        }
        if bytes_to_read < geo.cluster_size as i32 {
            let last: u32 = (bytes_to_read - 1) as u32;
            assert(last >> 9u32 == last / 512u32) by (bit_vector);
            num_sectors = (last >> 9u32) + 1;
        }
    }
    let byte_offset: u32 = index << geo.cluster_size_magnitude;
    BeginResult { num_sectors, byte_offset, ok: true }
}

/// The wrapped sum and difference have the pattern of the whole ones.
proof fn lemma_bytes_left(geo: FillGeometry, index: u32, sum: u64, end: u32, diff: u32)
    requires
        sum == geo.audio_data_length_bytes.wrapping_add(geo.audio_data_start_pos_bytes as u64),
        end == sum as u32,
        diff == end.wrapping_sub(geo.byte_offset(index)),
    ensures
        diff as i32 == geo.bytes_left(index),
        geo.cluster_size as i32 == signed32(geo.cluster_size as int),
{
    let whole = geo.audio_data_length_bytes + geo.audio_data_start_pos_bytes;
    let r = 0x1_0000_0000int;
    lemma_truncate(sum);
    vstd::arithmetic::div_mod::lemma_fundamental_div_mod(whole, r);
    assert(sum as int % r == whole % r) by {
        if whole > u64::MAX {
            vstd::arithmetic::div_mod::lemma_mod_multiples_vanish(
                0x1_0000_0000,
                whole - 0x1_0000_0000_0000_0000,
                r,
            );
        }
    }
    assert(end as int == whole % r);
    let off = geo.byte_offset(index) as int;
    assert(diff as int == (whole - off) % r) by {
        vstd::arithmetic::div_mod::lemma_sub_mod_noop(whole, off, r);
        vstd::arithmetic::div_mod::lemma_small_mod(off as nat, r as nat);
        if end < off {
            vstd::arithmetic::div_mod::lemma_mod_add_multiples_vanish(end - off, r);
            vstd::arithmetic::div_mod::lemma_small_mod((end - off + r) as nat, r as nat);
        } else {
            vstd::arithmetic::div_mod::lemma_small_mod((end - off) as nat, r as nat);
        }
    }
    lemma_reinterpret(diff);
    lemma_reinterpret(geo.cluster_size);
    vstd::arithmetic::div_mod::lemma_small_mod(geo.cluster_size as nat, r as nat);
}

proof fn lemma_truncate(x: u64)
    ensures
        (x as u32) as int == x as int % 0x1_0000_0000,
{
    assert(x as u32 as u64 == x % 0x1_0000_0000u64) by (bit_vector);
}

proof fn lemma_reinterpret(x: u32)
    ensures
        (x as i32) as int == (if x < 0x8000_0000 {
            x as int
        } else {
            x as int - 0x1_0000_0000
        }),
{
    assert(x < 0x8000_0000u32 ==> (x as i32) as i64 == x as i64) by (bit_vector);
    assert(x >= 0x8000_0000u32 ==> (x as i32) as i64 == x as i64 - 0x1_0000_0000i64) by (bit_vector);
}

// ---- after the read: convert, then stitch the boundaries ----

/// How samples are laid out in the file.
#[derive(Clone, Copy, PartialEq, Eq, Debug, Structural)]
pub enum RawDataFormat {
    Native,
    Float,
    Unsigned8,
    EndiannessWrong16,
    EndiannessWrong24,
    EndiannessWrong32,
}

/// The format that a registered byte stands for; an unknown byte needs no conversion.
pub open spec fn format_of(v: u8) -> RawDataFormat {
    if v == 1 {
        RawDataFormat::Float
    } else if v == 2 {
        RawDataFormat::Unsigned8
    } else if v == 3 {
        RawDataFormat::EndiannessWrong16
    } else if v == 4 {
        RawDataFormat::EndiannessWrong24
    } else if v == 5 {
        RawDataFormat::EndiannessWrong32
    } else {
        RawDataFormat::Native
    }
}

/// The format that a registered byte stands for; an unknown byte needs no conversion.
pub fn raw_data_format_from_u8(v: u8) -> (r: RawDataFormat)
    ensures
        r == format_of(v),
{
    match v {
        1 => RawDataFormat::Float,
        2 => RawDataFormat::Unsigned8,
        3 => RawDataFormat::EndiannessWrong16,
        4 => RawDataFormat::EndiannessWrong24,
        5 => RawDataFormat::EndiannessWrong32,
        _ => RawDataFormat::Native,
    }
}

/// What a chunk's conversion has done so far: its first bytes before conversion, which a
/// neighbour's stitch reads, and whether each of its boundaries is converted.
#[derive(Clone, Copy, PartialEq, Eq, Debug)]
pub struct ConvertState {
    pub first_three_bytes: [u8; 3],
    pub start_converted: bool,
    pub end_converted: bool,
}

impl Default for ConvertState {
    fn default() -> (r: ConvertState)
        ensures
            r.first_three_bytes@ == seq![0u8, 0u8, 0u8],
            !r.start_converted,
            !r.end_converted,
    {
        let r = ConvertState {
            first_three_bytes: [0, 0, 0],
            start_converted: false,
            end_converted: false,
        };
        assert(r.first_three_bytes@ =~= seq![0u8, 0u8, 0u8]);
        r
    }
}

/// A neighbour that is loaded: its bytes with the slack behind them, and its conversion
/// state.
pub struct NeighbourView {
    pub payload: Vec<u8>,
    /// Read only of the next neighbour.
    pub unconverted_head: [u8; 3],
    /// Changed only of the next neighbour.
    pub start_converted: bool,
    /// Changed only of the previous neighbour.
    pub end_converted: bool,
}

/// The part of the geometry that the conversion reads.
#[derive(Clone, Copy, PartialEq, Eq, Debug)]
pub struct ConvertGeometry {
    pub audio_data_start_pos_bytes: u32,
    pub audio_data_length_bytes: u64,
    pub first_cluster_index_with_no_audio_data: i32,
}

/// What the conversion of one cluster is given.
pub struct ConvertCall {
    pub cluster: Vec<u8>,
    pub index: i32,
    pub format: RawDataFormat,
    pub geometry: ConvertGeometry,
    pub cluster_size: usize,
    pub cluster_size_magnitude: usize,
    pub first_three_bytes: [u8; 3],
}

/// What the conversion of one cluster gives back.
pub struct Converted {
    pub cluster: Vec<u8>,
    pub first_three_bytes: [u8; 3],
}

/// The previous neighbour's last bytes and slack.
pub struct PrevEdge {
    pub tail: Vec<u8>,
    pub end_boundary_converted: bool,
}

/// The next neighbour's first bytes.
pub struct NextEdge {
    pub head: Vec<u8>,
    pub unconverted_head: [u8; 3],
    pub start_boundary_converted: bool,
}

/// What the stitching of a cluster's boundaries is given.
pub struct StitchCall {
    pub span: Vec<u8>,
    pub index: i32,
    pub format: RawDataFormat,
    pub audio_data_start_pos_bytes: u32,
    pub cluster_size: usize,
    pub start_converted: bool,
    pub end_converted: bool,
    pub prev: Option<PrevEdge>,
    pub next: Option<NextEdge>,
}

/// What the stitching of a cluster's boundaries gives back; an edge that is missing is
/// left as it was.
pub struct Stitched {
    pub span: Vec<u8>,
    pub start_converted: bool,
    pub end_converted: bool,
    pub prev: Option<(Vec<u8>, bool)>,
    pub next: Option<(Vec<u8>, bool)>,
}

/// The conversion of sample formats. Nothing is known of what it gives back but that it
/// gave it for that call.
pub trait SampleConvert {
    fn convert_cluster(call: ConvertCall) -> Converted;

    fn stitch_boundaries(call: StitchCall) -> Stitched;
}

/// `buf` with the first `n` bytes of `data`, or as many as there are, written at `at`.
pub open spec fn overlay(buf: Seq<u8>, at: int, data: Seq<u8>, n: int) -> Seq<u8> {
    Seq::new(
        buf.len(),
        |i: int|
            if at <= i < at + n && i - at < data.len() {
                data[i - at]
            } else {
                buf[i]
            },
    )
}

/// Writes the first `n` bytes of `data`, or as many as there are, at `at`.
pub fn write_over(buf: &mut Vec<u8>, at: usize, data: &Vec<u8>, n: usize)
    requires
        at + n <= old(buf)@.len(),
    ensures
        final(buf)@ == overlay(old(buf)@, at as int, data@, n as int),
{
    let ghost b = buf@;
    let total: usize = buf.len();
    let mut i: usize = 0;
    while i < n && i < data.len()
        invariant
            total == b.len(),
            i <= n,
            i <= data@.len(),
            at + n <= b.len(),
            buf@ == overlay(b, at as int, data@, i as int),
        decreases n - i,
    {
        buf.set(at + i, data[i]);
        i = i + 1;
        assert(buf@ =~= overlay(b, at as int, data@, i as int));
    }
    assert(buf@ =~= overlay(b, at as int, data@, n as int));
}

/// A copy of the bytes from `from` to `to`.
pub fn copy_range(buf: &Vec<u8>, from: usize, to: usize) -> (r: Vec<u8>)
    requires
        from <= to <= buf@.len(),
    ensures
        r@ == buf@.subrange(from as int, to as int),
{
    let mut r: Vec<u8> = Vec::new();
    let mut i: usize = from;
    while i < to
        invariant
            from <= i <= to <= buf@.len(),
            r@ == buf@.subrange(from as int, i as int),
        decreases to - i,
    {
        r.push(buf[i]);
        i = i + 1;
        assert(r@ =~= buf@.subrange(from as int, i as int));
    }
    r
}

/// Bytes of slack behind a cluster's payload.
pub const TRAILING_SLACK: usize = 7;

/// What the conversion is given of the chunk `payload` of cluster `index`: the cluster's
/// own bytes, without the slack.
pub open spec fn converts(
    payload: Seq<u8>,
    index: u32,
    geo: FillGeometry,
    first_three_bytes: [u8; 3],
    c: ConvertCall,
) -> bool {
    &&& c.cluster@ == payload.subrange(0, geo.cluster_size as int)
    &&& c.index == index as i32
    &&& c.format == format_of(geo.raw_data_format)
    &&& c.geometry == (ConvertGeometry {
        audio_data_start_pos_bytes: geo.audio_data_start_pos_bytes,
        audio_data_length_bytes: geo.audio_data_length_bytes,
        first_cluster_index_with_no_audio_data: geo.first_cluster_index_with_no_audio_data,
    })
    &&& c.cluster_size == geo.cluster_size
    &&& c.cluster_size_magnitude == geo.cluster_size_magnitude
    &&& c.first_three_bytes == first_three_bytes
}

/// What the stitching is given: the chunk with its slack; of the previous neighbour the
/// last four bytes and the slack; of the next the first seven bytes.
pub open spec fn stitches(
    payload: Seq<u8>,
    index: u32,
    geo: FillGeometry,
    state: ConvertState,
    prev: Option<NeighbourView>,
    next: Option<NeighbourView>,
    s: StitchCall,
) -> bool {
    let cs = geo.cluster_size as int;
    &&& s.span@ == payload
    &&& s.index == index as i32
    &&& s.format == format_of(geo.raw_data_format)
    &&& s.audio_data_start_pos_bytes == geo.audio_data_start_pos_bytes
    &&& s.cluster_size == geo.cluster_size
    &&& s.start_converted == state.start_converted
    &&& s.end_converted == state.end_converted
    &&& match prev {
        Some(p) => {
            &&& s.prev is Some
            &&& s.prev->0.tail@ == p.payload@.subrange(cs - 4, cs + 7)
            &&& s.prev->0.end_boundary_converted == p.end_converted
        },
        None => s.prev is None,
    }
    &&& match next {
        Some(n) => {
            &&& s.next is Some
            &&& s.next->0.head@ == n.payload@.subrange(0, 7)
            &&& s.next->0.unconverted_head == n.unconverted_head
            &&& s.next->0.start_boundary_converted == n.start_converted
        },
        None => s.next is None,
    }
}

/// The call that converts the chunk `payload` of cluster `index`.
pub fn convert_call(
    payload: &Vec<u8>,
    index: u32,
    geo: &FillGeometry,
    first_three_bytes: [u8; 3],
) -> (c: ConvertCall)
    requires
        geo.cluster_size <= payload@.len(),
    ensures
        converts(payload@, index, *geo, first_three_bytes, c),
{
    ConvertCall {
        cluster: copy_range(payload, 0, geo.cluster_size as usize),
        index: index as i32,
        format: raw_data_format_from_u8(geo.raw_data_format),
        geometry: ConvertGeometry {
            audio_data_start_pos_bytes: geo.audio_data_start_pos_bytes,
            audio_data_length_bytes: geo.audio_data_length_bytes,
            first_cluster_index_with_no_audio_data: geo.first_cluster_index_with_no_audio_data,
        },
        cluster_size: geo.cluster_size as usize,
        cluster_size_magnitude: geo.cluster_size_magnitude as usize,
        first_three_bytes,
    }
}

/// The call that stitches the boundaries of the chunk `payload` of cluster `index`.
pub fn stitch_call(
    payload: &Vec<u8>,
    index: u32,
    geo: &FillGeometry,
    state: &ConvertState,
    prev: &Option<NeighbourView>,
    next: &Option<NeighbourView>,
) -> (s: StitchCall)
    requires
        prev is Some ==> geo.cluster_size >= 4 && geo.cluster_size + 7 <= prev->0.payload@.len(),
        next is Some ==> 7 <= next->0.payload@.len(),
    ensures
        stitches(payload@, index, *geo, *state, *prev, *next, s),
{
    let cs: usize = geo.cluster_size as usize;
    let p = match prev {
        Some(p) => {
            assert(p.payload.len() >= cs + 7);
            Some(
                PrevEdge {
                    tail: copy_range(&p.payload, cs - 4, cs + TRAILING_SLACK),
                    end_boundary_converted: p.end_converted,
                },
            )
        },
        None => None,
    };
    let n = match next {
        Some(n) => Some(
            NextEdge {
                head: copy_range(&n.payload, 0, TRAILING_SLACK),
                unconverted_head: n.unconverted_head,
                start_boundary_converted: n.start_converted,
            },
        ),
        None => None,
    };
    let span = copy_range(payload, 0, payload.len());
    assert(span@ =~= payload@);
    StitchCall {
        span,
        index: index as i32,
        format: raw_data_format_from_u8(geo.raw_data_format),
        audio_data_start_pos_bytes: geo.audio_data_start_pos_bytes,
        cluster_size: cs,
        start_converted: state.start_converted,
        end_converted: state.end_converted,
        prev: p,
        next: n,
    }
}

/// A previous neighbour after the stitch: only its last four bytes, its slack and its end
/// boundary can differ.
pub open spec fn prev_stitched(
    v: Option<NeighbourView>,
    cs: int,
    edge: Option<(Vec<u8>, bool)>,
    w: Option<NeighbourView>,
) -> bool {
    match v {
        Some(v) => {
            &&& w is Some
            &&& w->0.unconverted_head == v.unconverted_head
            &&& w->0.start_converted == v.start_converted
            &&& match edge {
                Some((tail, end)) => {
                    &&& w->0.payload@ == overlay(v.payload@, cs - 4, tail@, 11)
                    &&& w->0.end_converted == end
                },
                None => w->0.payload@ == v.payload@ && w->0.end_converted == v.end_converted,
            }
        },
        None => w is None,
    }
}

/// A next neighbour after the stitch: only its first seven bytes and its start boundary
/// can differ.
pub open spec fn next_stitched(
    v: Option<NeighbourView>,
    edge: Option<(Vec<u8>, bool)>,
    w: Option<NeighbourView>,
) -> bool {
    match v {
        Some(v) => {
            &&& w is Some
            &&& w->0.unconverted_head == v.unconverted_head
            &&& w->0.end_converted == v.end_converted
            &&& match edge {
                Some((head, start)) => {
                    &&& w->0.payload@ == overlay(v.payload@, 0, head@, 7)
                    &&& w->0.start_converted == start
                },
                None => w->0.payload@ == v.payload@ && w->0.start_converted == v.start_converted,
            }
        },
        None => w is None,
    }
}

/// The chunk and its neighbours after a conversion that gave `c` and a stitch that gave
/// `s`.
pub open spec fn finished(
    payload: Seq<u8>,
    geo: FillGeometry,
    c: Converted,
    s: Stitched,
    new_payload: Seq<u8>,
    new_state: ConvertState,
) -> bool {
    let converted = overlay(payload, 0, c.cluster@, geo.cluster_size as int);
    &&& new_payload == overlay(converted, 0, s.span@, payload.len() as int)
    &&& new_state == (ConvertState {
        first_three_bytes: c.first_three_bytes,
        start_converted: s.start_converted,
        end_converted: s.end_converted,
    })
}

/// The conversion gave `c` for the chunk `payload`, and the stitch gave `s` for the chunk
/// so converted.
pub open spec fn gave<C: SampleConvert>(
    payload: Seq<u8>,
    index: u32,
    geo: FillGeometry,
    state: ConvertState,
    prev: Option<NeighbourView>,
    next: Option<NeighbourView>,
    c: Converted,
    s: Stitched,
) -> bool {
    &&& exists|call: ConvertCall|
        converts(payload, index, geo, state.first_three_bytes, call) && #[trigger] call_ensures(
            C::convert_cluster,
            (call,),
            c,
        )
    &&& exists|call: StitchCall|
        stitches(
            overlay(payload, 0, c.cluster@, geo.cluster_size as int),
            index,
            geo,
            ConvertState { first_three_bytes: c.first_three_bytes, ..state },
            prev,
            next,
            call,
        ) && #[trigger] call_ensures(C::stitch_boundaries, (call,), s)
}

/// Writes back what the conversion gave.
pub fn apply_converted(
    payload: &mut Vec<u8>,
    geo: &FillGeometry,
    state: &mut ConvertState,
    c: &Converted,
)
    requires
        geo.cluster_size <= old(payload)@.len(),
    ensures
        final(payload)@ == overlay(old(payload)@, 0, c.cluster@, geo.cluster_size as int),
        *final(state) == (ConvertState {
            first_three_bytes: c.first_three_bytes,
            ..*old(state)
        }),
{
    write_over(payload, 0, &c.cluster, geo.cluster_size as usize);
    state.first_three_bytes = c.first_three_bytes;
}

/// Writes back what the stitch gave the chunk itself.
pub fn apply_stitched(payload: &mut Vec<u8>, state: &mut ConvertState, s: &Stitched)
    ensures
        final(payload)@ == overlay(old(payload)@, 0, s.span@, old(payload)@.len() as int),
        *final(state) == (ConvertState {
            start_converted: s.start_converted,
            end_converted: s.end_converted,
            ..*old(state)
        }),
{
    let n: usize = payload.len();
    write_over(payload, 0, &s.span, n);
    state.start_converted = s.start_converted;
    state.end_converted = s.end_converted;
}

/// Writes back what the stitch gave the previous neighbour.
pub fn apply_prev(
    prev: Option<NeighbourView>,
    cs: usize,
    edge: &Option<(Vec<u8>, bool)>,
) -> (r: Option<NeighbourView>)
    requires
        prev is Some ==> cs >= 4 && cs + 7 <= prev->0.payload@.len(),
    ensures
        prev_stitched(prev, cs as int, *edge, r),
{
    match prev {
        Some(v) => {
            let mut w = v;
            match edge {
                Some((tail, end)) => {
                    write_over(&mut w.payload, cs - 4, tail, 11);
                    w.end_converted = *end;
                },
                None => {},
            }
            Some(w)
        },
        None => None,
    }
}

/// Writes back what the stitch gave the next neighbour.
pub fn apply_next(next: Option<NeighbourView>, edge: &Option<(Vec<u8>, bool)>) -> (r: Option<
    NeighbourView,
>)
    requires
        next is Some ==> 7 <= next->0.payload@.len(),
    ensures
        next_stitched(next, *edge, r),
{
    match next {
        Some(v) => {
            let mut w = v;
            match edge {
                Some((head, start)) => {
                    write_over(&mut w.payload, 0, head, TRAILING_SLACK);
                    w.start_converted = *start;
                },
                None => {},
            }
            Some(w)
        },
        None => None,
    }
}

/// Converts the chunk `payload` of cluster `index`, then stitches its boundaries with the
/// neighbours that are loaded. Gives the neighbours back. Whatever the conversion and the
/// stitch give, the chunk keeps its length, and of a neighbour only the edge changes.
pub fn finish_convert_stitch<C: SampleConvert>(
    payload: &mut Vec<u8>,
    index: u32,
    geo: &FillGeometry,
    self_state: &mut ConvertState,
    prev: Option<NeighbourView>,
    next: Option<NeighbourView>,
) -> (r: (Option<NeighbourView>, Option<NeighbourView>))
    requires
        geo.cluster_size + 7 <= old(payload)@.len(),
        prev is Some ==> geo.cluster_size >= 4 && geo.cluster_size + 7 <= prev->0.payload@.len(),
        next is Some ==> 7 <= next->0.payload@.len(),
    ensures
        exists|c: Converted, s: Stitched|
            {
                &&& #[trigger] finished(
                    old(payload)@,
                    *geo,
                    c,
                    s,
                    final(payload)@,
                    *final(self_state),
                )
                &&& gave::<C>(old(payload)@, index, *geo, *old(self_state), prev, next, c, s)
                &&& prev_stitched(prev, geo.cluster_size as int, s.prev, r.0)
                &&& next_stitched(next, s.next, r.1)
            },
        final(payload)@.len() == old(payload)@.len(),
{
    let call = convert_call(payload, index, geo, self_state.first_three_bytes);
    let c = C::convert_cluster(call);
    assert(call_ensures(C::convert_cluster, (call,), c));
    apply_converted(payload, geo, self_state, &c);
    let call = stitch_call(payload, index, geo, self_state, &prev, &next);
    let s = C::stitch_boundaries(call);
    assert(call_ensures(C::stitch_boundaries, (call,), s));
    apply_stitched(payload, self_state, &s);
    let p = apply_prev(prev, geo.cluster_size as usize, &s.prev);
    let n = apply_next(next, &s.next);
    assert(finished(old(payload)@, *geo, c, s, payload@, *self_state));
    (p, n)
}

} // verus!
