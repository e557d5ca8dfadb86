//! The reader and the reservation as other languages call them: a handle may be missing,
//! and then nothing happens.
use crate::fill::native::{Host, Streaming};
use crate::reader::reservation::{
    anchored, count_leased, inert, released_all, same_anchor, DelugeSampleReservation, LoadMode,
    Reservation,
};
use crate::reader::sample_reader::{
    advanced_reader, context_geometry, file_clusters, invalidate, invalidated, peek, peek_outcome,
    read_outcome, released_held, window_outcome, ReadHint, Reader, ReaderView, Window,
};
use crate::resource::facade::Backend;
use crate::source::geometry::Geometry;
use vstd::prelude::*;

verus! {

/// A reader, under the name that other languages have for it.
pub type DelugeSampleReader = Reader;

/// A run of frames, by address; no frames have the address 0.
#[derive(Clone, Copy, PartialEq, Eq, Debug, Structural)]
pub struct DelugeFrameWindow {
    pub frames: usize,
    pub frame_count: u32,
}

/// Opens a reader.
pub fn deluge_sample_reader_open<B: Backend, H: Host>(
    s: &Streaming<B, H>,
    source_id: u32,
    start_frame: u64,
    direction: i8,
    hint: ReadHint,
) -> (r: DelugeSampleReader)
    requires
        s.wf(),
    ensures
        r.wf(),
        r@.asset == source_id,
        r@.direction == direction,
        r@.hint == hint,
        r@.current_frame == start_frame,
        r@.held is None,
        r@.ok == s.contexts@.dom().contains(source_id),
        r@.geometry == (if s.contexts@.dom().contains(source_id) {
            context_geometry(s.contexts@[source_id])
        } else {
            Geometry {
                audio_data_start_bytes: 0,
                audio_data_length_bytes: 0,
                cluster_size_bytes: 0,
                byte_depth: 0,
                num_channels: 0,
                raw_data_format: 0,
            }
        }),
{
    Reader::open(s, source_id, start_frame, direction, hint)
}

/// Moves a reader's cursor.
pub fn deluge_sample_reader_seek<B: Backend, H: Host>(
    reader: Option<&mut DelugeSampleReader>,
    s: &mut Streaming<B, H>,
    frame: u64,
)
    requires
        old(s).wf(),
    ensures
        final(s).wf(),
        match reader {
            Some(r) => {
                &&& final(r)@ == (ReaderView { held: None, current_frame: frame, ..r@ })
                &&& *final(s) == (Streaming { res: final(s).res, ..*old(s) })
                &&& final(s).res.trace() == old(s).res.trace()
                &&& final(s).res.backend == old(s).res.backend
                &&& final(s).res.reclaim == old(s).res.reclaim
                &&& final(s).res@ == released_held(old(s).res@, r@.held)
            },
            None => *final(s) == *old(s),
        },
{
    match reader {
        Some(r) => r.seek(s, frame),
        None => {},
    }
}

/// Closes a reader.
pub fn deluge_sample_reader_close<B: Backend, H: Host>(
    reader: Option<DelugeSampleReader>,
    s: &mut Streaming<B, H>,
)
    requires
        old(s).wf(),
    ensures
        final(s).wf(),
        match reader {
            Some(r) => {
                &&& *final(s) == (Streaming { res: final(s).res, ..*old(s) })
                &&& final(s).res.trace() == old(s).res.trace()
                &&& final(s).res.backend == old(s).res.backend
                &&& final(s).res.reclaim == old(s).res.reclaim
                &&& final(s).res@ == released_held(old(s).res@, r@.held)
            },
            None => *final(s) == *old(s),
        },
{
    match reader {
        Some(r) => r.close(s),
        None => {},
    }
}

/// The run of frames at a reader's cursor; none without a reader.
pub fn deluge_sample_reader_window<B: Backend, H: Host>(
    reader: Option<&mut DelugeSampleReader>,
    s: &mut Streaming<B, H>,
) -> (w: DelugeFrameWindow)
    requires
        old(s).wf(),
        reader is Some ==> reader->0.wf(),
    ensures
        final(s).wf(),
        match reader {
            Some(r) => {
                &&& final(r).wf()
                &&& final(s).follows(*old(s))
                &&& exists|z: Window|
                    {
                        &&& #[trigger] window_outcome::<H>(
                            r@,
                            old(s).res@,
                            old(s).contexts@,
                            old(s).data(),
                            z,
                            final(r)@,
                            final(s).res@,
                            final(s).data(),
                        )
                        &&& w.frames == z.frames
                        &&& w.frame_count == z.frame_count
                    }
            },
            None => *final(s) == *old(s) && w.frames == 0 && w.frame_count == 0,
        },
{
    match reader {
        Some(r) => {
            let z = r.window(s);
            DelugeFrameWindow { frames: z.frames, frame_count: z.frame_count }
        },
        None => DelugeFrameWindow { frames: 0, frame_count: 0 },
    }
}

/// Moves a reader's cursor on.
pub fn deluge_sample_reader_advance<B: Backend, H: Host>(
    reader: Option<&mut DelugeSampleReader>,
    s: &mut Streaming<B, H>,
    frames: u32,
)
    requires
        old(s).wf(),
    ensures
        final(s).wf(),
        match reader {
            Some(r) => {
                &&& final(r)@ == advanced_reader(r@, frames)
                &&& *final(s) == (Streaming { res: final(s).res, ..*old(s) })
                &&& final(s).res.trace() == old(s).res.trace()
                &&& final(s).res.backend == old(s).res.backend
                &&& final(s).res.reclaim == old(s).res.reclaim
                &&& final(s).res@ == (if final(r)@.held == r@.held {
                    old(s).res@
                } else {
                    released_held(old(s).res@, r@.held)
                })
            },
            None => *final(s) == *old(s),
        },
{
    match reader {
        Some(r) => r.advance(s, frames),
        None => {},
    }
}

/// Whether a reader's last window was not a failure; a missing reader is not ok.
pub fn deluge_sample_reader_ok(reader: Option<&DelugeSampleReader>) -> (r: bool)
    ensures
        r == (match reader {
            Some(x) => x@.ok,
            None => false,
        }),
{
    match reader {
        Some(x) => x.ok(),
        None => false,
    }
}

/// Copies frames of a sample. Without streaming there are none.
pub fn deluge_sample_read<B: Backend, H: Host>(
    s: Option<&mut Streaming<B, H>>,
    source_id: u32,
    start_frame: u64,
    num_frames: u32,
    dest: &mut Vec<u8>,
) -> (r: u32)
    requires
        s is Some ==> s->0.wf(),
    ensures
        r <= num_frames,
        final(dest)@.len() == old(dest)@.len(),
        match s {
            Some(x) => {
                &&& final(x).wf()
                &&& final(x).follows(*x)
                &&& read_outcome::<H>(
                    x.res@,
                    x.contexts@,
                    x.data(),
                    source_id,
                    start_frame,
                    num_frames,
                    old(dest)@,
                    r,
                    final(dest)@,
                    final(x).res@,
                    final(x).data(),
                )
            },
            None => r == 0 && final(dest)@ == old(dest)@,
        },
{
    match s {
        Some(x) => Reader::read(x, source_id, start_frame, num_frames, dest),
        None => 0,
    }
}

/// The resident frames at a frame of a sample. Without streaming there are none.
pub fn deluge_sample_peek<B: Backend, H: Host>(
    s: Option<&mut Streaming<B, H>>,
    source_id: u32,
    start_frame: u64,
    direction: i8,
) -> (w: DelugeFrameWindow)
    requires
        s is Some ==> s->0.wf(),
    ensures
        match s {
            Some(x) => {
                &&& final(x).wf()
                &&& *final(x) == (Streaming { res: final(x).res, ..*x })
                &&& final(x).res.trace() == x.res.trace()
                &&& final(x).res.backend == x.res.backend
                &&& final(x).res.reclaim == x.res.reclaim
                &&& peek_outcome(
                    x.res@,
                    x.contexts@,
                    x.chunks@,
                    source_id,
                    start_frame,
                    direction,
                    (w.frames, w.frame_count),
                    final(x).res@,
                )
            },
            None => w.frames == 0 && w.frame_count == 0,
        },
{
    match s {
        Some(x) => {
            let (frames, frame_count): (usize, u32) = peek(x, source_id, start_frame, direction);
            DelugeFrameWindow { frames, frame_count }
        },
        None => DelugeFrameWindow { frames: 0, frame_count: 0 },
    }
}

/// Invalidates the resident clusters of a sample.
pub fn deluge_sample_invalidate<B: Backend, H: Host>(
    s: Option<&mut Streaming<B, H>>,
    source_id: u32,
)
    requires
        s is Some ==> s->0.wf(),
    ensures
        match s {
            Some(x) => {
                &&& final(x).wf()
                &&& final(x).contexts == x.contexts
                &&& final(x).host == x.host
                &&& final(x).history == x.history
                &&& final(x).res.trace() == x.res.trace()
                &&& final(x).res.backend == x.res.backend
                &&& final(x).res.reclaim == x.res.reclaim
                &&& (final(x).res@, final(x).chunks@) == (if x.contexts@.dom().contains(
                    source_id,
                ) {
                    invalidated(
                        x.res@,
                        x.chunks@,
                        source_id,
                        file_clusters(x.contexts@[source_id]) as nat,
                    )
                } else {
                    (x.res@, x.chunks@)
                })
            },
            None => true,
        },
{
    match s {
        Some(x) => invalidate(x, source_id),
        None => {},
    }
}

/// Opens a reservation. Without streaming it covers nothing.
pub fn deluge_sample_reserve_open<B: Backend, H: Host>(
    s: Option<&mut Streaming<B, H>>,
    source_id: u32,
    marker_frame: u64,
    direction: i8,
    load_mode: LoadMode,
) -> (r: DelugeSampleReservation)
    requires
        s is Some ==> s->0.wf(),
    ensures
        r.wf(),
        match s {
            Some(x) => {
                &&& final(x).wf()
                &&& final(x).follows(*x)
                &&& anchored::<H>(
                    x.res@,
                    x.contexts@,
                    x.data(),
                    source_id,
                    marker_frame,
                    direction,
                    load_mode,
                    r@,
                    final(x).res@,
                    final(x).data(),
                )
            },
            None => r@ == inert(source_id),
        },
{
    match s {
        Some(x) => Reservation::open(x, source_id, marker_frame, direction, load_mode),
        None => Reservation::inert(source_id),
    }
}

/// Moves a reservation to a marker.
pub fn deluge_sample_reserve_move<B: Backend, H: Host>(
    res: &mut DelugeSampleReservation,
    s: &mut Streaming<B, H>,
    source_id: u32,
    marker_frame: u64,
    direction: i8,
    load_mode: LoadMode,
)
    requires
        old(s).wf(),
        old(res).wf(),
    ensures
        final(s).wf(),
        final(res).wf(),
        final(s).follows(*old(s)),
        if same_anchor(old(res)@, old(s).contexts@, source_id, marker_frame) {
            *final(res) == *old(res) && *final(s) == *old(s)
        } else {
            anchored::<H>(
                released_all(old(s).res@, old(res)@.addrs),
                old(s).contexts@,
                old(s).data(),
                source_id,
                marker_frame,
                direction,
                load_mode,
                final(res)@,
                final(s).res@,
                final(s).data(),
            )
        },
{
    res.reanchor(s, source_id, marker_frame, direction, load_mode);
}

/// The asset that a reservation covers; the largest number without one.
pub fn deluge_sample_reserve_asset(res: Option<&DelugeSampleReservation>) -> (r: u32)
    ensures
        r == (match res {
            Some(x) => x@.asset,
            None => u32::MAX,
        }),
{
    match res {
        Some(x) => x.asset(),
        None => u32::MAX,
    }
}

/// How many clusters a reservation covers.
pub fn deluge_sample_reserve_covered_count(res: Option<&DelugeSampleReservation>) -> (r: u32)
    requires
        res is Some ==> res->0.wf(),
    ensures
        r == (match res {
            Some(x) => x@.covered.len() as int,
            None => 0,
        }),
{
    match res {
        Some(x) => {
            proof {
                x.lemma_wf();
            }
            x.covered_indices().len() as u32
        },
        None => 0,
    }
}

/// How many clusters a reservation holds leased.
pub fn deluge_sample_reserve_leased_count(res: Option<&DelugeSampleReservation>) -> (r: u32)
    requires
        res is Some ==> res->0.wf(),
    ensures
        r == (match res {
            Some(x) => count_leased(x@.addrs) as int,
            None => 0,
        }),
{
    match res {
        Some(x) => {
            proof {
                x.lemma_wf();
            }
            x.num_leased() as u32
        },
        None => 0,
    }
}

/// The cluster that a reservation covers at position `slot`; the largest number past its
/// end.
pub fn deluge_sample_reserve_covered_index(
    res: Option<&DelugeSampleReservation>,
    slot: u32,
) -> (r: u32)
    ensures
        r == (match res {
            Some(x) => if slot < x@.covered.len() {
                x@.covered[slot as int]
            } else {
                u32::MAX
            },
            None => u32::MAX,
        }),
{
    match res {
        Some(x) => x.covered_index(slot),
        None => u32::MAX,
    }
}

/// Closes a reservation.
pub fn deluge_sample_reserve_close<B: Backend, H: Host>(
    res: Option<DelugeSampleReservation>,
    s: &mut Streaming<B, H>,
)
    requires
        old(s).wf(),
        res is Some ==> res->0.wf(),
    ensures
        final(s).wf(),
        match res {
            Some(x) => {
                &&& *final(s) == (Streaming { res: final(s).res, ..*old(s) })
                &&& final(s).res.trace() == old(s).res.trace()
                &&& final(s).res.backend == old(s).res.backend
                &&& final(s).res.reclaim == old(s).res.reclaim
                &&& final(s).res@ == released_all(old(s).res@, x@.addrs)
            },
            None => *final(s) == *old(s),
        },
{
    match res {
        Some(x) => x.close(s),
        None => {},
    }
}

} // verus!
