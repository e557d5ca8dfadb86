//! The reference for the end of a fill: one call over plain buffers to another
//! implementation of conversion and stitching.
use crate::fill::fill_logic::{copy_range, overlay, write_over};
use vstd::prelude::*;

verus! {

/// The geometry that the reference takes.
#[derive(Clone, Copy, PartialEq, Eq, Debug)]
pub struct Geometry {
    pub audio_data_start_pos_bytes: u32,
    pub audio_data_length_bytes: u64,
    pub first_cluster_index_with_no_audio_data: i32,
    pub cluster_size: usize,
    pub cluster_size_magnitude: usize,
    pub raw_data_format: u8,
}

/// A neighbour that is loaded: its bytes with the slack, and its conversion state.
pub struct Neighbour {
    pub payload: Vec<u8>,
    pub unconverted_head: [u8; 3],
    pub start_converted: bool,
    pub end_converted: bool,
}

/// What a chunk's conversion has done so far.
#[derive(Clone, Copy, PartialEq, Eq, Debug)]
pub struct ConvertState {
    pub first_three_bytes: [u8; 3],
    pub start_converted: bool,
    pub end_converted: bool,
}

impl Default for ConvertState {
    fn default() -> (r: ConvertState)
        ensures
            r.first_three_bytes@ == seq![0u8, 0u8, 0u8],
            !r.start_converted,
            !r.end_converted,
    {
        let r = ConvertState {
            first_three_bytes: [0, 0, 0],
            start_converted: false,
            end_converted: false,
        };
        assert(r.first_three_bytes@ =~= seq![0u8, 0u8, 0u8]);
        r
    }
}

/// What the reference is given. Of the previous neighbour it sees the bytes and the end
/// boundary, of the next the bytes, the first bytes before conversion and the start
/// boundary.
pub struct ReferenceCall {
    pub payload: Vec<u8>,
    pub cluster_index: i32,
    pub geometry: Geometry,
    pub state: ConvertState,
    pub prev: Option<(Vec<u8>, bool)>,
    pub next: Option<(Vec<u8>, [u8; 3], bool)>,
}

/// What the reference gives back.
pub struct ReferenceResult {
    pub payload: Vec<u8>,
    pub state: ConvertState,
    pub prev: Option<(Vec<u8>, bool)>,
    pub next: Option<(Vec<u8>, bool)>,
}

/// The reference implementation. Nothing is known of what it gives back but that it gave
/// it for that call.
pub trait FillReference {
    fn finish_fill(call: ReferenceCall) -> ReferenceResult;
}

/// `c` is the call for those buffers.
pub open spec fn reference_given(
    payload: Seq<u8>,
    index: u32,
    geo: Geometry,
    state: ConvertState,
    prev: Option<Neighbour>,
    next: Option<Neighbour>,
    c: ReferenceCall,
) -> bool {
    &&& c.payload@ == payload
    &&& c.cluster_index == index as i32
    &&& c.geometry == geo
    &&& c.state == state
    &&& match prev {
        Some(p) => c.prev is Some && (c.prev->0).0@ == p.payload@ && (c.prev->0).1
            == p.end_converted,
        None => c.prev is None,
    }
    &&& match next {
        Some(n) => c.next is Some && (c.next->0).0@ == n.payload@ && (c.next->0).1
            == n.unconverted_head && (c.next->0).2 == n.start_converted,
        None => c.next is None,
    }
}

/// The call for those buffers.
pub fn reference_call(
    payload: &Vec<u8>,
    index: u32,
    geo: &Geometry,
    state: &ConvertState,
    prev: &Option<Neighbour>,
    next: &Option<Neighbour>,
) -> (c: ReferenceCall)
    ensures
        reference_given(payload@, index, *geo, *state, *prev, *next, c),
{
    let p = match prev {
        Some(p) => {
            let bytes = copy_range(&p.payload, 0, p.payload.len());
            assert(bytes@ =~= p.payload@);
            Some((bytes, p.end_converted))
        },
        None => None,
    };
    let n = match next {
        Some(n) => {
            let bytes = copy_range(&n.payload, 0, n.payload.len());
            assert(bytes@ =~= n.payload@);
            Some((bytes, n.unconverted_head, n.start_converted))
        },
        None => None,
    };
    let bytes = copy_range(payload, 0, payload.len());
    assert(bytes@ =~= payload@);
    ReferenceCall {
        payload: bytes,
        cluster_index: index as i32,
        geometry: *geo,
        state: *state,
        prev: p,
        next: n,
    }
}

/// A neighbour after the reference gave `edge` for it: its bytes, and one boundary.
pub open spec fn neighbour_after(
    v: Option<Neighbour>,
    edge: Option<(Vec<u8>, bool)>,
    is_prev: bool,
    w: Option<Neighbour>,
) -> bool {
    match v {
        Some(v) => {
            &&& w is Some
            &&& w->0.unconverted_head == v.unconverted_head
            &&& match edge {
                Some((bytes, flag)) => {
                    &&& w->0.payload@ == overlay(v.payload@, 0, bytes@, v.payload@.len() as int)
                    &&& w->0.start_converted == (if is_prev {
                        v.start_converted
                    } else {
                        flag
                    })
                    &&& w->0.end_converted == (if is_prev {
                        flag
                    } else {
                        v.end_converted
                    })
                },
                None => w == Some(v),
            }
        },
        None => w is None,
    }
}

fn apply_neighbour(
    v: Option<Neighbour>,
    edge: &Option<(Vec<u8>, bool)>,
    is_prev: bool,
) -> (w: Option<Neighbour>)
    ensures
        neighbour_after(v, *edge, is_prev, w),
{
    match v {
        Some(v) => {
            let mut w = v;
            match edge {
                Some((bytes, flag)) => {
                    let n: usize = w.payload.len();
                    write_over(&mut w.payload, 0, bytes, n);
                    if is_prev {
                        w.end_converted = *flag;
                    } else {
                        w.start_converted = *flag;
                    }
                },
                None => {},
            }
            Some(w)
        },
        None => None,
    }
}

/// Runs the reference over the chunk `payload` of cluster `index` and the neighbours that
/// are loaded, and writes back what it gives. The neighbours come back.
pub fn finish_fill_over_buffers<R: FillReference>(
    payload: &mut Vec<u8>,
    index: u32,
    geo: &Geometry,
    self_state: &mut ConvertState,
    prev: Option<Neighbour>,
    next: Option<Neighbour>,
) -> (r: (Option<Neighbour>, Option<Neighbour>))
    requires
        geo.cluster_size + 7 <= old(payload)@.len(),
        geo.cluster_size >= 11,
    ensures
        exists|call: ReferenceCall, z: ReferenceResult|
            {
                &&& reference_given(
                    old(payload)@,
                    index,
                    *geo,
                    *old(self_state),
                    prev,
                    next,
                    call,
                )
                &&& #[trigger] call_ensures(R::finish_fill, (call,), z)
                &&& final(payload)@ == overlay(
                    old(payload)@,
                    0,
                    z.payload@,
                    old(payload)@.len() as int,
                )
                &&& *final(self_state) == z.state
                &&& neighbour_after(prev, z.prev, true, r.0)
                &&& neighbour_after(next, z.next, false, r.1)
            },
        final(payload)@.len() == old(payload)@.len(),
{
    let call = reference_call(payload, index, geo, self_state, &prev, &next);
    let z = R::finish_fill(call);
    assert(call_ensures(R::finish_fill, (call,), z));
    let n: usize = payload.len();
    write_over(payload, 0, &z.payload, n);
    *self_state = z.state;
    let p = apply_neighbour(prev, &z.prev, true);
    let q = apply_neighbour(next, &z.next, false);
    (p, q)
}

/// The reference is given the chunk and its neighbours as they are, and of each neighbour its
/// mark at the seam; what it gives back replaces their bytes, and that mark alone.
pub proof fn the_reference_sees_and_changes_the_seams(
    payload: Seq<u8>,
    index: u32,
    geo: Geometry,
    state: ConvertState,
    prev: Neighbour,
    next: Neighbour,
    c: ReferenceCall,
    bytes: Vec<u8>,
    flag: bool,
    p: Option<Neighbour>,
    n: Option<Neighbour>,
    i: int,
)
    requires
        reference_given(payload, index, geo, state, Some(prev), Some(next), c),
        neighbour_after(Some(prev), Some((bytes, flag)), true, p),
        neighbour_after(Some(next), Some((bytes, flag)), false, n),
        0 <= i < prev.payload@.len(),
        i < next.payload@.len(),
    ensures
        c.payload@ == payload,
        c.cluster_index == index as i32,
        c.geometry == geo,
        c.state == state,
        c.prev is Some && (c.prev->0).0@ == prev.payload@ && (c.prev->0).1 == prev.end_converted,
        c.next is Some && (c.next->0).0@ == next.payload@ && (c.next->0).1 == next.unconverted_head
            && (c.next->0).2 == next.start_converted,
        p is Some && p->0.end_converted == flag && p->0.start_converted == prev.start_converted
            && p->0.unconverted_head == prev.unconverted_head,
        n is Some && n->0.start_converted == flag && n->0.end_converted == next.end_converted
            && n->0.unconverted_head == next.unconverted_head,
        p->0.payload@.len() == prev.payload@.len(),
        p->0.payload@[i] == (if i < bytes@.len() {
            bytes@[i]
        } else {
            prev.payload@[i]
        }),
        n->0.payload@[i] == (if i < bytes@.len() {
            bytes@[i]
        } else {
            next.payload@[i]
        }),
{
}

} // verus!
