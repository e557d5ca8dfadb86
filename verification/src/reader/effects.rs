//! What reading and reserving are for: where frames are, which of them a window holds, where a
//! cursor goes, and which clusters a marker or an invalidation reaches.
use crate::fill::chunk::StoredChunk;
use crate::fill::context::FillContext;
use crate::fill::effects::fills_convert_and_stitch_as_registered;
use crate::fill::fill_logic::SampleConvert;
use crate::fill::native::{
    after_next, after_prev, fill_descriptor, fill_now_outcome, fill_outcome, finish_outcome,
    next_leased, prev_leased, read_event, read_into, released_if, reserved_for, resolved,
    tables_after_finish, whole_read, HostEvent, StreamView,
};
use crate::reader::laws::{
    invalidation_reaches_every_resident_cluster, lemma_invalidated_places, lemma_reserved_at,
};
use crate::reader::reservation::{
    anchored, enqueued_unfilled, load_outcome, loaded_as, same_anchor, walk, walk_geometry, woken,
    LoadMode, ReservationView, DEPTH,
};
use crate::reader::sample_reader::{
    acquire_fill_outcome, advanced_reader, asked_active, context_geometry, copied, file_clusters,
    filled_or_released, frame_cluster, frame_offset, frame_pos, invalidated, lemma_plan,
    lemma_whole, peek_outcome, step_frames, stride, window_of, window_outcome, window_plan,
    ReaderView, Window, WindowPlan,
};
use crate::resource::effects::{
    backs_first, chunks_are_found_by_address, chunks_are_found_by_key, leased_and_used,
    leasing_makes_most_recent, only_slot, waits,
};
use crate::resource::leases::{
    lemma_same_consistent, lemma_same_resident, lemma_same_slot, same_places,
};
use crate::resource::model::{lemma_resident, lemma_slot_at, unique_addresses, Model};
use crate::source::geometry::Geometry;
use vstd::arithmetic::power2::pow2;
use vstd::prelude::*;

verus! {

// ---- frames in the file ----

/// A reader's geometry is the registered one.
pub proof fn readers_go_by_the_registered_geometry(ctx: FillContext)
    ensures
        context_geometry(ctx).audio_data_start_bytes == ctx.audio_data_start_pos_bytes,
        context_geometry(ctx).audio_data_length_bytes == ctx.audio_data_length_bytes,
        context_geometry(ctx).cluster_size_bytes == ctx.cluster_size,
        context_geometry(ctx).byte_depth == ctx.byte_depth,
        context_geometry(ctx).num_channels == ctx.num_channels,
        context_geometry(ctx).raw_data_format == ctx.raw_data_format,
        stride(context_geometry(ctx)) == ctx.byte_depth * ctx.num_channels,
{
}

/// Cluster `c` is the one that frame `frame` starts in.
pub open spec fn starts_in(geo: Geometry, frame: u64, c: int) -> bool {
    let pos = geo.audio_data_start_bytes + frame * (geo.byte_depth * geo.num_channels);
    &&& c * geo.cluster_size_bytes <= pos
    &&& pos < c * geo.cluster_size_bytes + geo.cluster_size_bytes
    &&& pos <= u64::MAX
    &&& 0 <= c < u32::MAX
}

/// A frame is in the cluster that holds its first byte, that far from the cluster's start.
/// Frames follow each other from the start of the audio on, each as long as its channels' bytes.
pub proof fn frames_are_where_their_first_byte_is(geo: Geometry, frame: u64, c: int)
    requires
        starts_in(geo, frame, c),
    ensures
        frame_pos(frame, geo) == geo.audio_data_start_bytes + frame * (geo.byte_depth
            * geo.num_channels),
        frame_cluster(frame, geo) == c,
        frame_offset(frame, geo) == geo.audio_data_start_bytes + frame * (geo.byte_depth
            * geo.num_channels) - c * geo.cluster_size_bytes,
{
    let cs = geo.cluster_size_bytes as int;
    let st = geo.byte_depth * geo.num_channels;
    let pos = geo.audio_data_start_bytes + frame * st;
    assert(0 <= st) by (nonlinear_arith)
        requires
            st == geo.byte_depth * geo.num_channels,
    ;
    assert(0 <= frame * st) by (nonlinear_arith)
        requires
            0 <= frame,
            0 <= st,
    ;
    let o = pos - c * cs;
    vstd::arithmetic::div_mod::lemma_fundamental_div_mod_converse(pos, cs, c, o);
}

/// The end of the audio comes after `byte`, or is not known.
pub open spec fn audio_until(geo: Geometry, byte: int) -> bool {
    ||| geo.audio_data_length_bytes == 0
    ||| geo.audio_data_length_bytes == 0x8FFF_FFFF_FFFF_FFFF
    ||| byte <= geo.audio_data_start_bytes + geo.audio_data_length_bytes
}

/// A window forward holds the frames from the cursor on that start in its cluster and are whole
/// audio, all of them; there is none only if the frame at the cursor is not whole audio. The
/// next cluster is needed exactly if the last of them reaches into it.
pub proof fn windows_run_forward_to_the_clusters_end(
    geo: Geometry,
    frame: u64,
    c: int,
    direction: i8,
)
    requires
        starts_in(geo, frame, c),
        geo.byte_depth * geo.num_channels > 0,
        direction >= 0,
    ensures
        ({
            let st = geo.byte_depth * geo.num_channels;
            let pos = geo.audio_data_start_bytes + frame * st;
            let next = c * geo.cluster_size_bytes + geo.cluster_size_bytes;
            match window_plan(geo, frame, direction) {
                WindowPlan::Serve { cluster, byte_offset, frame_count, needs_next } => {
                    &&& cluster == c
                    &&& byte_offset == pos - c * geo.cluster_size_bytes
                    &&& frame_count >= 1
                    &&& pos + (frame_count - 1) * st < next
                    &&& audio_until(geo, pos + frame_count * st)
                    &&& pos + frame_count * st >= next || !audio_until(
                        geo,
                        pos + frame_count * st + st,
                    )
                    &&& needs_next <==> pos + frame_count * st > next
                },
                WindowPlan::End => !audio_until(geo, pos + st),
                WindowPlan::Malformed => false,
            }
        }),
{
    let st = stride(geo);
    let cs = geo.cluster_size_bytes as int;
    let pos = geo.audio_data_start_bytes + frame * st;
    frames_are_where_their_first_byte_is(geo, frame, c);
    lemma_plan(geo, frame, direction);
    let offset = frame_offset(frame, geo);
    let resident = geo.resident(c);
    let left = resident - offset;
    if left > 0 {
        lemma_whole(left, st);
        let w = left / st;
        assert((w + 1) * st == w * st + st) by (nonlinear_arith);
        assert((w - 1) * st == w * st - st) by (nonlinear_arith);
        assert((w + 1 - 1) * st == w * st);
    }
    match window_plan(geo, frame, direction) {
        WindowPlan::Serve { cluster, byte_offset, frame_count, needs_next } => {
            let w = left / st;
            if needs_next {
                assert(frame_count == w + 1);
            } else {
                assert(frame_count == w);
                assert(w >= 1);
            }
        },
        _ => {
            if left > 0 {
                assert(0 * st == 0);
            }
        },
    }
}

/// A window backward holds the frame at the cursor and those before it that start in the same
/// cluster, all of them; there is none only if the frame at the cursor is not whole audio. The
/// next cluster is needed exactly if that frame reaches into it.
pub proof fn windows_run_backward_to_the_clusters_start(
    geo: Geometry,
    frame: u64,
    c: int,
    direction: i8,
)
    requires
        starts_in(geo, frame, c),
        geo.byte_depth * geo.num_channels > 0,
        direction < 0,
    ensures
        ({
            let st = geo.byte_depth * geo.num_channels;
            let pos = geo.audio_data_start_bytes + frame * st;
            let start = c * geo.cluster_size_bytes;
            match window_plan(geo, frame, direction) {
                WindowPlan::Serve { cluster, byte_offset, frame_count, needs_next } => {
                    &&& cluster == c
                    &&& byte_offset == pos - start
                    &&& frame_count >= 1
                    &&& pos - (frame_count - 1) * st >= start
                    &&& pos - frame_count * st < start
                    &&& audio_until(geo, pos + st)
                    &&& needs_next <==> pos + st > start + geo.cluster_size_bytes
                },
                WindowPlan::End => !audio_until(geo, pos + st),
                WindowPlan::Malformed => false,
            }
        }),
{
    let st = stride(geo);
    frames_are_where_their_first_byte_is(geo, frame, c);
    lemma_plan(geo, frame, direction);
    let offset = frame_offset(frame, geo);
    lemma_whole(offset, st);
    let b = offset / st;
    assert((b + 1) * st == b * st + st) by (nonlinear_arith);
    assert((b + 1 - 1) * st == b * st);
}

/// A frame that needs a next cluster which is not there is left out: forward it is the last,
/// backward the one at the cursor, and the window starts one frame further back. Nothing is
/// left if it was the only one.
pub proof fn windows_leave_out_what_is_not_there(
    geo: Geometry,
    byte_offset: u32,
    frame_count: u32,
    needs_next: bool,
    next: bool,
    direction: i8,
)
    requires
        frame_count >= 1,
        direction < 0 && frame_count > 1 ==> byte_offset >= geo.byte_depth * geo.num_channels,
    ensures
        ({
            let r = window_of(geo, byte_offset, frame_count, needs_next, next, direction);
            let st = geo.byte_depth * geo.num_channels;
            &&& !needs_next || next ==> r == Some((byte_offset, frame_count))
            &&& needs_next && !next && frame_count == 1 ==> r is None
            &&& needs_next && !next && frame_count > 1 ==> r is Some && (r->0).1 == frame_count - 1
            &&& needs_next && !next && frame_count > 1 && direction >= 0 ==> (r->0).0 == byte_offset
            &&& needs_next && !next && frame_count > 1 && direction < 0 ==> (r->0).0 == byte_offset
                - st
        }),
{
    assert(0 <= geo.byte_depth * geo.num_channels) by (nonlinear_arith);
}

/// A cursor moves by that many frames in its direction, not before the first frame, and, if the
/// length is known, not past the last whole one. It keeps the cluster it holds exactly if it is
/// still in it.
pub proof fn cursors_move_within_the_audio(v: ReaderView, frames: u32, total: int)
    requires
        ({
            let geo = v.geometry;
            let st = geo.byte_depth * geo.num_channels;
            &&& st > 0
            &&& total * st <= geo.audio_data_length_bytes < total * st + st
        }),
        v.current_frame + frames <= u64::MAX,
    ensures
        ({
            let geo = v.geometry;
            let known = geo.audio_data_length_bytes != 0 && geo.audio_data_length_bytes
                != 0x8FFF_FFFF_FFFF_FFFF;
            let w = advanced_reader(v, frames);
            let to = w.current_frame;
            &&& v.direction == 1 && !known ==> to == v.current_frame + frames
            &&& v.direction == 1 && known && v.current_frame + frames <= total ==> to
                == v.current_frame + frames
            &&& v.direction == 1 && known && v.current_frame + frames > total ==> to == total
            &&& v.direction == -1 && frames <= v.current_frame && (!known || v.current_frame
                <= total) ==> to == v.current_frame - frames
            &&& v.direction == -1 && frames > v.current_frame ==> to == 0
            &&& v.direction == 0 && !known ==> to == v.current_frame
            &&& w.held is None || w.held == v.held
            &&& w.asset == v.asset && w.geometry == v.geometry && w.direction == v.direction
                && w.hint == v.hint && w.ok == v.ok
            &&& forall|c: int|
                #![trigger starts_in(geo, to, c)]
                starts_in(geo, to, c) && v.held is Some ==> (w.held == v.held <==> (v.held->0).1
                    == c)
        }),
{
    let geo = v.geometry;
    let st = geo.byte_depth * geo.num_channels;
    let length = geo.audio_data_length_bytes as int;
    let w = advanced_reader(v, frames);
    let to = w.current_frame;
    assert(total >= 0) by (nonlinear_arith)
        requires
            0 <= length < total * st + st,
            st > 0,
    ;
    vstd::arithmetic::div_mod::lemma_fundamental_div_mod_converse(
        length,
        st,
        total,
        length - total * st,
    );
    assert(frames * 1 == frames && frames * -1 == -frames && frames * 0 == 0);
    assert forall|c: int|
        #![trigger starts_in(geo, to, c)]
        starts_in(geo, to, c) && v.held is Some implies (w.held == v.held <==> (v.held->0).1
        == c) by {
        frames_are_where_their_first_byte_is(geo, to, c);
    }
}

/// A step of a read copies as many frames as the window has, as are wanted and as fit, and one
/// of the three is used up.
pub proof fn steps_copy_what_fits(in_window: int, wanted: int, room: int, st: int)
    requires
        st > 0,
        0 <= in_window,
        0 <= wanted,
        0 <= room,
    ensures
        ({
            let n = step_frames(in_window, wanted, room, st);
            &&& 0 <= n <= in_window
            &&& n <= wanted
            &&& n * st <= room
            &&& n == in_window || n == wanted || n * st + st > room
        }),
{
    let n = step_frames(in_window, wanted, room, st);
    lemma_whole(room, st);
    let k = room / st;
    assert(n * st <= k * st) by (nonlinear_arith)
        requires
            n <= k,
            st > 0,
    ;
}

/// Copying puts the bytes at their place, in their order, and no others anywhere.
pub proof fn copying_moves_bytes(
    dest: Seq<u8>,
    at: int,
    src: Seq<u8>,
    from: int,
    n: int,
    i: int,
)
    requires
        0 <= at,
        0 <= i < dest.len(),
    ensures
        copied(dest, at, src, from, n).len() == dest.len(),
        at <= i && i < at + n ==> copied(dest, at, src, from, n)[i] == src[from + (i - at)],
        i < at || at + n <= i ==> copied(dest, at, src, from, n)[i] == dest[i],
{
}

/// A peek gives frames only of a cluster that is resident and ready, from the frame's place in
/// it: forward all that are whole in the cluster's audio, backward those that start in it. It
/// leases nothing, loads nothing, and is no use of the chunk.
pub proof fn peeks_show_what_is_ready(
    m: Model,
    contexts: Map<u32, FillContext>,
    chunks: Map<usize, StoredChunk>,
    asset: u32,
    frame: u64,
    direction: i8,
    r: (usize, u32),
    n: Model,
    c: int,
    i: int,
)
    requires
        m.consistent(),
        m.unique_keys(),
        unique_addresses(m),
        asset != u32::MAX,
        contexts.dom().contains(asset),
        starts_in(context_geometry(contexts[asset]), frame, c),
        contexts[asset].byte_depth * contexts[asset].num_channels > 0,
        peek_outcome(m, contexts, chunks, asset, frame, direction, r, n),
    ensures
        n.chunks == m.chunks,
        n.tick == m.tick,
        0 <= i < m.chunks.len() && m.chunks[i].backing != 0 && m.chunks[i].asset == asset
            && m.chunks[i].index == c ==> {
            let ctx = contexts[asset];
            let st = ctx.byte_depth * ctx.num_channels;
            let pos = ctx.audio_data_start_pos_bytes + frame * st;
            let q = m.chunks[i].backing;
            let next = c * ctx.cluster_size + ctx.cluster_size;
            let geo = context_geometry(ctx);
            &&& !m.chunks[i].ready || !chunks.dom().contains(q) || !audio_until(geo, pos + 1) ==> r
                == (0usize, 0u32)
            &&& m.chunks[i].ready && chunks.dom().contains(q) && audio_until(geo, pos + 1) ==> {
                &&& r.0 == chunks[q].header.payload.wrapping_add((pos - c * ctx.cluster_size) as usize)
                &&& direction >= 0 ==> pos + r.1 * st <= next && audio_until(geo, pos + r.1 * st)
                    && (pos + r.1 * st + st > next || !audio_until(geo, pos + r.1 * st + st))
                &&& direction < 0 ==> r.1 >= 1 && pos - (r.1 - 1) * st >= c * ctx.cluster_size && pos
                    - r.1 * st < c * ctx.cluster_size
            }
        },
        (forall|j: int|
            0 <= j < m.chunks.len() ==> (#[trigger] m.chunks[j]).backing == 0 || m.chunks[j].asset
                != asset || m.chunks[j].index != c) ==> r == (0usize, 0u32),
{
    let ctx = contexts[asset];
    let geo = context_geometry(ctx);
    let st = stride(geo);
    let pos = geo.audio_data_start_bytes + frame * st;
    frames_are_where_their_first_byte_is(geo, frame, c);
    lemma_resident(m, asset, c as u32);
    let offset = frame_offset(frame, geo);
    let left = geo.resident(c) - offset;
    if 0 <= i < m.chunks.len() && m.chunks[i].backing != 0 && m.chunks[i].asset == asset
        && m.chunks[i].index == c {
        chunks_are_found_by_key(m, asset, c as u32, i);
        let a = m.searched(asset, c as u32);
        lemma_slot_at(a, m.chunks[i].backing);
        if left > 0 {
            lemma_whole(left, st);
            lemma_whole(offset, st);
            let w = left / st;
            let b = offset / st;
            assert((b + 1) * st == b * st + st) by (nonlinear_arith);
            assert((b + 1 - 1) * st == b * st);
        }
    }
}

// ---- markers ----

/// A marker is in the cluster that holds the first byte of its frame; the first cluster of the
/// audio is the one that holds the audio's first byte, and the first without audio is what was
/// registered, or there is none. Nothing can be walked over without a context, without frames,
/// or if a cluster's size is beyond counting.
pub proof fn markers_are_in_the_cluster_of_their_first_byte(
    contexts: Map<u32, FillContext>,
    asset: u32,
    frame: u64,
    c: int,
)
    ensures
        walk_geometry(contexts, asset, frame) is Some <==> contexts.dom().contains(asset)
            && contexts[asset].byte_depth * contexts[asset].num_channels != 0
            && contexts[asset].cluster_size_magnitude < 64,
        walk_geometry(contexts, asset, frame) is Some ==> {
            let g = walk_geometry(contexts, asset, frame)->0;
            let ctx = contexts[asset];
            let size = pow2(ctx.cluster_size_magnitude as nat) as int;
            let start = ctx.audio_data_start_pos_bytes as int;
            let byte = start + frame * (ctx.byte_depth * ctx.num_channels);
            &&& byte <= u64::MAX && byte < 0x1_0000_0000 * size ==> g.head * size <= byte < g.head
                * size + size
            &&& g.first_with_data * size <= start < g.first_with_data * size + size
            &&& ctx.first_cluster_index_with_no_audio_data >= 0 ==> g.first_no_data
                == ctx.first_cluster_index_with_no_audio_data
            &&& ctx.first_cluster_index_with_no_audio_data < 0 ==> g.first_no_data > u32::MAX
            &&& g.cluster_size == ctx.cluster_size
            &&& ctx.cluster_size == size && starts_in(context_geometry(ctx), frame, c) ==> g.head
                == c
        },
{
    if walk_geometry(contexts, asset, frame) is Some {
        let ctx = contexts[asset];
        let size = pow2(ctx.cluster_size_magnitude as nat) as int;
        let start = ctx.audio_data_start_pos_bytes as int;
        let st = ctx.byte_depth * ctx.num_channels;
        let byte = start + frame * st;
        vstd::arithmetic::power2::lemma_pow2_pos(ctx.cluster_size_magnitude as nat);
        assert(0 <= st) by (nonlinear_arith)
            requires
                st == ctx.byte_depth * ctx.num_channels,
        ;
        assert(0 <= frame * st) by (nonlinear_arith)
            requires
                0 <= frame,
                0 <= st,
        ;
        vstd::arithmetic::div_mod::lemma_fundamental_div_mod(start, size);
        vstd::arithmetic::div_mod::lemma_mod_bound(start, size);
        vstd::arithmetic::div_mod::lemma_div_pos_is_pos(start, size);
        vstd::arithmetic::div_mod::lemma_div_is_ordered_by_denominator(start, 1, size);
        let f = start / size;
        assert(size * f == f * size) by (nonlinear_arith);
        if byte <= u64::MAX && byte < 0x1_0000_0000 * size {
            vstd::arithmetic::div_mod::lemma_fundamental_div_mod(byte, size);
            vstd::arithmetic::div_mod::lemma_mod_bound(byte, size);
            vstd::arithmetic::div_mod::lemma_div_pos_is_pos(byte, size);
            let h = byte / size;
            assert(size * h == h * size) by (nonlinear_arith);
            assert(h < 0x1_0000_0000) by (nonlinear_arith)
                requires
                    h * size <= byte < 0x1_0000_0000 * size,
                    size > 0,
            ;
        }
        if ctx.cluster_size == size && starts_in(context_geometry(ctx), frame, c) {
            vstd::arithmetic::div_mod::lemma_fundamental_div_mod_converse(
                byte,
                size,
                c,
                byte - c * size,
            );
        }
    }
}

/// A reservation covers the marker's cluster first, if it has audio, and then the one next to it
/// in its direction, if that has audio too; nothing if the marker's has none, and never more than
/// two. Without a geometry it covers nothing and changes nothing.
pub proof fn reservations_cover_the_markers_cluster<C: SampleConvert>(
    m: Model,
    contexts: Map<u32, FillContext>,
    data: StreamView,
    asset: u32,
    frame: u64,
    direction: i8,
    mode: LoadMode,
    v: ReservationView,
    n: Model,
    new_data: StreamView,
)
    requires
        anchored::<C>(m, contexts, data, asset, frame, direction, mode, v, n, new_data),
    ensures
        v.asset == asset,
        walk_geometry(contexts, asset, frame) is None ==> v.covered.len() == 0 && v.head_index
            is None && n == m && new_data == data,
        walk_geometry(contexts, asset, frame) is Some ==> {
            let g = walk_geometry(contexts, asset, frame)->0;
            let second = g.head + direction;
            let first_in = g.first_with_data <= g.head && g.head < g.first_no_data;
            let second_in = g.first_with_data <= second && second < g.first_no_data;
            &&& v.head_index == Some(g.head)
            &&& v.covered.len() == v.addrs.len()
            &&& v.covered.len() <= 2
            &&& !first_in ==> v.covered.len() == 0
            &&& first_in ==> v.covered.len() >= 1 && v.covered[0] == g.head
            &&& first_in && !second_in ==> v.covered.len() == 1
            &&& first_in && second_in && second <= u32::MAX ==> v.covered.len() == 2 && v.covered[1]
                == second
        },
{
    if walk_geometry(contexts, asset, frame) is Some {
        let g = walk_geometry(contexts, asset, frame)->0;
        assert(DEPTH as nat == 2);
        reveal_with_fuel(walk, 3);
        assert(0 * direction == 0 && 1 * direction == direction);
        let one = walk(g, direction, 1);
        assert(walk(g, direction, 0).len() == 0);
        assert((2 - 1) * direction == direction);
        assert((1 - 1) * direction == 0);
    }
}

/// A chunk that is reserved but not read waits for the loader, behind everything that is more
/// urgent, and the loader is woken; one that is ready does not wait.
pub proof fn reserved_chunks_wait_at_the_lowest_urgency(
    m: Model,
    p: usize,
    data: StreamView,
    i: int,
)
    requires
        m.chunks.len() <= 0x8000_0000,
        backs_first(m, p, i),
    ensures
        !m.chunks[i].ready ==> waits(enqueued_unfilled(m, p), i, u32::MAX) && woken(
            m,
            p,
            data,
        ).asked.len() == data.asked.len() + 1 && woken(m, p, data).asked.last() is Woken,
        m.chunks[i].ready ==> enqueued_unfilled(m, p).chunks == m.chunks && woken(m, p, data)
            == data,
        only_slot(m, enqueued_unfilled(m, p), i),
        enqueued_unfilled(m, p).chunks[i].leases == m.chunks[i].leases,
        woken(m, p, data).chunks == data.chunks,
        woken(m, p, data).memory == data.memory,
{
    chunks_are_found_by_address(m, p, i);
}

// ---- invalidating ----

/// The clusters that an invalidation goes through are those that start before the end of the
/// audio. It goes through none if that end is not known.
pub proof fn invalidations_go_through_the_audio(ctx: FillContext, i: u32)
    requires
        i < u32::MAX,
    ensures
        ctx.cluster_size > 0 && ctx.cluster_size_magnitude < 64 && ctx.audio_data_length_bytes != 0
            && ctx.audio_data_length_bytes != 0x8FFF_FFFF_FFFF_FFFF ==> (i < file_clusters(ctx)
            <==> i * ctx.cluster_size < ctx.audio_data_start_pos_bytes
            + ctx.audio_data_length_bytes),
        ctx.cluster_size > 0 && ctx.cluster_size_magnitude < 64 && ctx.audio_data_length_bytes != 0
            && ctx.audio_data_length_bytes != 0x8FFF_FFFF_FFFF_FFFF ==> (i < file_clusters(ctx)
            <==> context_geometry(ctx).resident(i as int) > 0),
        ctx.audio_data_length_bytes == 0 || ctx.audio_data_length_bytes == 0x8FFF_FFFF_FFFF_FFFF
            ==> file_clusters(ctx) == 0,
        0 <= file_clusters(ctx) <= u32::MAX,
{
    let geo = context_geometry(ctx);
    let end = geo.end();
    if ctx.cluster_size > 0 && geo.length_known() {
        let c = ctx.cluster_size as int;
        let l = if end > u64::MAX {
            u64::MAX as int
        } else {
            end
        };
        let n = (l + c - 1) / c;
        vstd::arithmetic::div_mod::lemma_fundamental_div_mod(l + c - 1, c);
        vstd::arithmetic::div_mod::lemma_mod_bound(l + c - 1, c);
        vstd::arithmetic::div_mod::lemma_div_pos_is_pos(l + c - 1, c);
        assert(i < n <==> i * c < l) by (nonlinear_arith)
            requires
                l + c - 1 == c * n + (l + c - 1) % c,
                0 <= (l + c - 1) % c < c,
                0 < c,
                0 <= i,
        ;
        assert(i * c < u64::MAX) by (nonlinear_arith)
            requires
                0 <= i < 0xFFFF_FFFF,
                0 < c <= 0xFFFF_FFFF,
        ;
    }
}

/// After a sample was invalidated, each of its chunks whose cluster starts before the end of the
/// audio is unloadable and waits for the loader no more. No chunk of another asset changes, and
/// none loses a lease that is not the queue's own.
pub proof fn invalidating_reaches_all_of_the_audio(
    m: Model,
    chunks: Map<usize, StoredChunk>,
    asset: u32,
    ctx: FillContext,
    j: int,
)
    requires
        m.consistent(),
        m.unique_keys(),
        unique_addresses(m),
        asset != u32::MAX,
        0 <= j < m.chunks.len(),
        m.chunks[j].backing != 0,
        chunks.dom().contains(m.chunks[j].backing),
        m.chunks[j].index < u32::MAX,
        ctx.cluster_size > 0,
        ctx.cluster_size_magnitude < 64,
        ctx.audio_data_length_bytes != 0,
        ctx.audio_data_length_bytes != 0x8FFF_FFFF_FFFF_FFFF,
    ensures
        ({
            let (n, after) = invalidated(m, chunks, asset, file_clusters(ctx) as nat);
            let q = m.chunks[j].backing;
            &&& m.chunks[j].asset == asset && m.chunks[j].index * ctx.cluster_size
                < ctx.audio_data_start_pos_bytes + ctx.audio_data_length_bytes ==> {
                &&& !n.chunks[j].queued
                &&& after[q].header.unloadable
            }
            &&& m.chunks[j].asset != asset ==> n.chunks[j] == m.chunks[j] && after[q] == chunks[q]
            &&& n.chunks.len() == m.chunks.len()
            &&& n.chunks[j].backing == q
            &&& n.chunks[j].ready == m.chunks[j].ready
            &&& !m.chunks[j].queue_leased ==> n.chunks[j].leases == m.chunks[j].leases
            &&& after[q].bytes == chunks[q].bytes
        }),
{
    let k = file_clusters(ctx) as nat;
    let q = m.chunks[j].backing;
    invalidations_go_through_the_audio(ctx, m.chunks[j].index);
    lemma_invalidated_slots(m, chunks, asset, k, j);
    if m.chunks[j].asset == asset && m.chunks[j].index * ctx.cluster_size
        < ctx.audio_data_start_pos_bytes + ctx.audio_data_length_bytes {
        chunks_are_found_by_key(m, asset, m.chunks[j].index, j);
        invalidation_reaches_every_resident_cluster(m, chunks, asset, k, m.chunks[j].index);
    }
}

/// What invalidating leaves of each chunk.
proof fn lemma_invalidated_slots(
    m: Model,
    chunks: Map<usize, StoredChunk>,
    asset: u32,
    k: nat,
    j: int,
)
    requires
        m.consistent(),
        unique_addresses(m),
        k <= u32::MAX,
        0 <= j < m.chunks.len(),
        m.chunks[j].backing != 0,
        chunks.dom().contains(m.chunks[j].backing),
    ensures
        ({
            let (n, after) = invalidated(m, chunks, asset, k);
            let q = m.chunks[j].backing;
            &&& same_places(m, n)
            &&& n.consistent()
            &&& after.dom() == chunks.dom()
            &&& m.chunks[j].asset != asset ==> n.chunks[j] == m.chunks[j] && after[q] == chunks[q]
            &&& n.chunks[j].ready == m.chunks[j].ready
            &&& !m.chunks[j].queue_leased ==> n.chunks[j].leases == m.chunks[j].leases
                && !n.chunks[j].queue_leased
            &&& after[q].bytes == chunks[q].bytes
        }),
    decreases k,
{
    lemma_invalidated_places(m, chunks, asset, k);
    if k > 0 {
        let b = (k - 1) as nat;
        lemma_invalidated_slots(m, chunks, asset, b, j);
        let (a, c) = invalidated(m, chunks, asset, b);
        let index = b as u32;
        lemma_same_resident(m, a, asset, index);
        lemma_resident(m, asset, index);
        let p = a.peek_result(asset, index);
        lemma_slot_at(a, p);
        if p != 0 {
            let i = m.resident(asset, index)->0;
            let s = a.slot_at(p)->0;
            assert(m.chunks[s].backing == p && m.chunks[i].backing == p);
            assert(s == i);
        }
    }
}

// ---- making clusters resident ----

/// A cluster that is resident and ready is leased where it is, for a reader as for a
/// reservation; nothing is asked of anybody, and nothing else changes.
pub proof fn ready_clusters_are_taken_as_they_are<C: SampleConvert>(
    m: Model,
    contexts: Map<u32, FillContext>,
    data: StreamView,
    cluster_size: u32,
    mode: LoadMode,
    r: usize,
    n: Model,
    new_data: StreamView,
    i: int,
)
    requires
        m.consistent(),
        m.unique_keys(),
        0 <= i < m.chunks.len(),
        m.chunks[i].backing != 0,
        m.chunks[i].asset != u32::MAX,
        m.chunks[i].ready,
        acquire_fill_outcome::<C>(
            m,
            contexts,
            data,
            m.chunks[i].asset,
            m.chunks[i].index,
            cluster_size,
            r,
            n,
            new_data,
        ) || load_outcome::<C>(
            m,
            contexts,
            data,
            m.chunks[i].asset,
            m.chunks[i].index,
            cluster_size,
            mode,
            r,
            n,
            new_data,
        ),
    ensures
        r == m.chunks[i].backing,
        new_data == data,
        leased_and_used(m, n, i),
{
    reveal(acquire_fill_outcome);
    reveal(load_outcome);
    chunks_are_found_by_key(m, m.chunks[i].asset, m.chunks[i].index, i);
    leasing_makes_most_recent(m, i, 0, n);
}

/// A cluster that was not ready is given to a reader only if the card was read for it: once, from
/// the file and the place that are registered for it, and the whole of it went well. The chunk
/// that is given is that of the cluster, and it is ready.
pub proof fn clusters_are_given_when_they_were_read<C: SampleConvert>(
    m: Model,
    contexts: Map<u32, FillContext>,
    data: StreamView,
    asset: u32,
    index: u32,
    cluster_size: u32,
    r: usize,
    n: Model,
    new_data: StreamView,
)
    requires
        m.consistent(),
        unique_addresses(m),
        acquire_fill_outcome::<C>(
            m,
            contexts,
            data,
            asset,
            index,
            cluster_size,
            r,
            n,
            new_data,
        ),
        m.try_acquire_result(asset, index) == 0,
        r != 0,
        m.resident(asset, index) is None ==> m.slot_at(r) is None,
    ensures
        contexts.dom().contains(asset),
        new_data.asked.len() == data.asked.len() + 2,
        new_data.asked[data.asked.len() as int] is AsyncActive,
        new_data.asked.last() is Read,
        new_data.asked.last()->Read_handle == contexts[asset].efatfs_handle,
        new_data.asked.last()->Read_byte_offset == index << contexts[asset].cluster_size_magnitude,
        new_data.asked.last()->awaited == new_data.asked[data.asked.len() as int]->active,
        new_data.asked.last()->ok,
        new_data.asked.last()->data.len() >= new_data.asked.last()->Read_count,
        new_data.chunks.dom().contains(r),
        new_data.chunks[r].header.loaded,
        exists|k: int| #[trigger]
            backs_first(n, r, k) && n.chunks[k].ready && n.chunks[k].asset == asset
                && n.chunks[k].index == index,
{
    reveal(acquire_fill_outcome);
    reveal(fill_now_outcome);
    let a = m.try_acquire(asset, index);
    lemma_resident(m, asset, index);
    let (p, b, mid) = choose|p: usize, b: Model, mid: StreamView|
        {
            &&& #[trigger] reserved_for(a, data, asset, index, cluster_size, p, b, mid)
            &&& if p == 0 {
                r == 0 && n == b && new_data == mid
            } else {
                filled_or_released::<C>(b, contexts, mid, p, r, n, new_data)
            }
        };
    let (active, filled, c) = choose|active: bool, filled: bool, c: Model|
        {
            &&& #[trigger] fill_now_outcome::<C>(
                b,
                contexts,
                asked_active(mid, active),
                p,
                active,
                filled,
                c,
                new_data,
            )
            &&& if filled {
                r == p && n == c.mark_ready(p)
            } else {
                r == 0 && n == c.release(p)
            }
        };
    assert(filled && p == r);
    assert forall|i: int| 0 <= i < m.chunks.len() implies (#[trigger] a.chunks[i]).backing
        == m.chunks[i].backing && a.chunks[i].asset == m.chunks[i].asset && a.chunks[i].index
        == m.chunks[i].index by {}
    assert(unique_addresses(a));
    lemma_slot_at(m, p);
    lemma_slot_at(a, p);
    lemma_resident(a, asset, index);
    lemma_reserved_at(a, asset, index, cluster_size as usize, p, b);
    let d = fill_descriptor(b, contexts, mid.chunks, p);
    let (read_ok, bytes) = choose|read_ok: bool, bytes: Seq<u8>|
        {
            &&& #[trigger] fill_outcome::<C>(
                b,
                contexts,
                mid.chunks,
                p,
                read_ok,
                bytes,
                true,
                c,
                new_data.chunks,
            )
            &&& new_data.asked == asked_active(mid, active).asked.push(
                read_event(active, d, new_data.asked.last()->ok, bytes),
            )
            &&& read_ok == whole_read(d, new_data.asked.last()->ok, bytes)
        };
    let s = b.searched_ptr(p);
    let after = choose|after: Map<usize, StoredChunk>| #[trigger]
        read_into(mid.chunks, p, bytes, after) && finish_outcome::<C>(
            s,
            contexts,
            after,
            p,
            read_ok,
            true,
            c,
            new_data.chunks,
        );
    assert(read_ok);
    assert(resolved(b, contexts, p) == Some((asset, index, contexts[asset])));
    let i = b.slot_at(p)->0;
    lemma_slot_at(b, p);
    lemma_same_slot(b, s, p);
    chunks_are_found_by_address(s, p, i);
    let w = fills_convert_and_stitch_as_registered::<C>(
        s,
        contexts,
        after,
        p,
        c,
        new_data.chunks,
        i,
    );
    lemma_places_after(s, p, asset, index);
    let q = c.mark_ready(p);
    lemma_same_slot(s, c, p);
    lemma_slot_at(c, p);
    lemma_same_slot(s, q, p);
    lemma_slot_at(q, p);
    chunks_are_found_by_address(q, p, i);
    assert(backs_first(n, r, i));
}

proof fn lemma_places(m: Model, n: Model, o: Model)
    requires
        same_places(m, n),
        same_places(n, o),
    ensures
        same_places(m, o),
{
    assert forall|i: int| 0 <= i < m.chunks.len() implies (#[trigger] o.chunks[i]).backing
        == m.chunks[i].backing && o.chunks[i].asset == m.chunks[i].asset && o.chunks[i].index
        == m.chunks[i].index by {
        assert(n.chunks[i].backing == m.chunks[i].backing);
    }
}

proof fn lemma_taking_moves_nothing(m: Model, asset: u32, index: u32)
    requires
        m.consistent(),
    ensures
        same_places(m, m.try_acquire(asset, index)),
        m.try_acquire(asset, index).assets == m.assets,
        forall|i: int|
            0 <= i < m.chunks.len() && m.chunks[i].backing == 0 ==> #[trigger] m.try_acquire(
                asset,
                index,
            ).chunks[i] == m.chunks[i],
{
    lemma_resident(m, asset, index);
}

proof fn lemma_giving_moves_nothing(m: Model, p: usize)
    ensures
        same_places(m, released_if(m, p)),
        same_places(m, m.mark_ready(p)),
{
    lemma_slot_at(m, p);
}

proof fn lemma_prev_moves_nothing(m: Model, asset: u32, index: u32)
    requires
        m.consistent(),
    ensures
        same_places(m, after_prev(m, asset, index)),
        after_prev(m, asset, index).consistent(),
{
    reveal(after_prev);
    if index > 0 {
        lemma_taking_moves_nothing(m, asset, (index - 1) as u32);
        lemma_same_consistent(m, m.try_acquire(asset, (index - 1) as u32));
    }
}

proof fn lemma_next_moves_nothing(m: Model, asset: u32, index: u32)
    requires
        m.consistent(),
    ensures
        same_places(m, after_next(m, asset, index)),
{
    reveal(after_next);
    if index < u32::MAX {
        lemma_taking_moves_nothing(m, asset, (index + 1) as u32);
    }
}

proof fn lemma_end_moves_nothing(m: Model, x: usize, y: usize, p: usize)
    ensures
        same_places(m, released_if(released_if(m, x), y).mark_ready(p)),
{
    let d = released_if(m, x);
    let e = released_if(d, y);
    lemma_giving_moves_nothing(m, x);
    lemma_giving_moves_nothing(d, y);
    lemma_giving_moves_nothing(e, p);
    lemma_places(m, d, e);
    lemma_places(m, e, e.mark_ready(p));
}

/// Ending a fill moves no chunk.
proof fn lemma_places_after(m: Model, p: usize, asset: u32, index: u32)
    requires
        m.consistent(),
    ensures
        same_places(m, tables_after_finish(m, p, asset, index)),
{
    let a = m.searched_ptr(p);
    let b = after_prev(a, asset, index);
    let c = after_next(b, asset, index);
    let x = prev_leased(a, asset, index);
    let y = next_leased(b, asset, index);
    assert(same_places(m, a));
    lemma_same_consistent(m, a);
    lemma_prev_moves_nothing(a, asset, index);
    lemma_next_moves_nothing(b, asset, index);
    lemma_end_moves_nothing(c, x, y, p);
    lemma_places(m, a, b);
    lemma_places(m, b, c);
    lemma_places(m, c, tables_after_finish(m, p, asset, index));
}

/// How the mode decides: a chunk that is only to be queued is kept, and the card is not read; one
/// that is to be read now is read at once, by no more than one question, and if that fails it is
/// given up, or kept and queued, as the mode says.
pub proof fn loading_goes_by_the_mode<C: SampleConvert>(
    m: Model,
    contexts: Map<u32, FillContext>,
    data: StreamView,
    p: usize,
    mode: LoadMode,
    r: usize,
    n: Model,
    new_data: StreamView,
)
    requires
        p != 0,
        loaded_as::<C>(m, contexts, data, p, mode, r, n, new_data),
    ensures
        mode is Enqueue || mode is NowOrEnqueue ==> r == p,
        mode is Now ==> r == p || r == 0,
        mode is Enqueue ==> n == enqueued_unfilled(m, p) && new_data.chunks == data.chunks,
        mode is Enqueue ==> new_data.asked == data.asked || new_data.asked == data.asked.push(
            HostEvent::Woken,
        ),
        mode is Now ==> new_data.asked.len() <= data.asked.len() + 1,
        mode is Now && new_data.asked.len() == data.asked.len() + 1 ==> new_data.asked.last() is Read
            && !new_data.asked.last()->awaited,
        mode is Now && r != 0 ==> new_data.asked.len() == data.asked.len() + 1
            && new_data.asked.last()->ok,
        new_data.asked.len() <= data.asked.len() + 2,
{
    reveal(fill_now_outcome);
    reveal(fill_now_outcome);
}

/// A reservation stays where it is exactly if it is asked to cover the same sample from the same
/// cluster.
pub proof fn reservations_stay_for_the_same_cluster(
    v: ReservationView,
    contexts: Map<u32, FillContext>,
    asset: u32,
    frame: u64,
)
    ensures
        same_anchor(v, contexts, asset, frame) <==> v.asset == asset && v.head_index is Some
            && walk_geometry(contexts, asset, frame) is Some && walk_geometry(
            contexts,
            asset,
            frame,
        )->0.head == v.head_index->0,
{
}

/// How a window ends: with frames, which is well; without any where the audio has ended, which
/// is well too; and without any for a geometry that has no frames or no clusters, which is not.
/// Neither of the latter two changes anything.
pub proof fn windows_tell_the_end_from_a_fault<C: SampleConvert>(
    v: ReaderView,
    m: Model,
    contexts: Map<u32, FillContext>,
    data: StreamView,
    r: Window,
    w: ReaderView,
    n: Model,
    new_data: StreamView,
)
    requires
        window_outcome::<C>(v, m, contexts, data, r, w, n, new_data),
    ensures
        w.current_frame == v.current_frame && w.direction == v.direction && w.geometry
            == v.geometry && w.asset == v.asset && w.hint == v.hint,
        v.geometry.byte_depth == 0 || v.geometry.num_channels == 0
            || v.geometry.cluster_size_bytes == 0 ==> !w.ok && r.frame_count == 0 && w.held
            == v.held && n == m && new_data == data,
        v.geometry.byte_depth != 0 && v.geometry.num_channels != 0 && v.geometry.cluster_size_bytes
            != 0 && v.geometry.audio_data_length_bytes != 0 && v.geometry.audio_data_length_bytes
            != 0x8FFF_FFFF_FFFF_FFFF && v.current_frame * (v.geometry.byte_depth
            * v.geometry.num_channels) >= v.geometry.audio_data_length_bytes
            && v.geometry.audio_data_start_bytes + v.current_frame * (v.geometry.byte_depth
            * v.geometry.num_channels) <= u32::MAX ==> w.ok && r.frame_count == 0 && w.held
            == v.held && n == m && new_data == data,
        r.frame_count > 0 ==> w.ok && w.held is Some && (w.held->0).0 == r.chunk,
        w.ok && r.frame_count == 0 ==> w.held == v.held && n == m && new_data == data,
{
    reveal(window_outcome);
    let g = v.geometry;
    let f = v.current_frame;
    let cs = g.cluster_size_bytes as int;
    let st = stride(g);
    assert(st == 0 <==> g.byte_depth == 0 || g.num_channels == 0) by (nonlinear_arith)
        requires
            st == g.byte_depth * g.num_channels,
    ;
    if st > 0 && cs > 0 && g.length_known() && f * st >= g.audio_data_length_bytes
        && g.audio_data_start_bytes + f * st <= u32::MAX {
        assert(f * st >= 0) by (nonlinear_arith)
            requires
                f >= 0,
                st > 0,
        ;
        let pos = g.audio_data_start_bytes + f * st;
        assert(frame_pos(f, g) == pos);
        vstd::arithmetic::div_mod::lemma_fundamental_div_mod(pos, cs);
        assert(0 <= pos / cs <= pos) by (nonlinear_arith)
            requires
                pos >= 0,
                cs > 0,
        ;
        assert(frame_cluster(f, g) == pos / cs);
        assert((pos / cs) * cs == cs * (pos / cs)) by (nonlinear_arith);
    }
}

} // verus!
