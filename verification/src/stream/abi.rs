//! The streaming files as other languages call them.
use crate::stream::registry::{
    asset_id, asset_registration, close, geometry_registration, open, open_outcome, read_at,
    read_bytes, set_asset_id, set_geometry, DelugeSampleStreamGeometry, Registry, Slot,
    StreamBacking, DELUGE_RESOURCE_NO_ASSET,
};
use vstd::prelude::*;

verus! {

/// Opens a file for streaming; gives its handle, or 0, and whether a table is full.
pub fn deluge_sample_stream_open<F: StreamBacking>(
    reg: &mut Registry,
    fs: &mut F,
    path: &[u8],
) -> (r: (u32, bool))
    requires
        old(reg).wf(),
    ensures
        final(reg).wf(),
        exists|f: &mut F, opened: bool, handle: u32, card_full: bool|
            {
                &&& *f == *old(fs)
                &&& #[trigger] call_ensures(F::efatfs_open, (f, path), (opened, handle, card_full))
                &&& open_outcome(*old(reg), opened, handle, card_full, r.0, r.1, *final(reg))
                &&& if opened && old(reg).full() {
                    exists|g: &mut F|
                        {
                            &&& *g == *final(f)
                            &&& *final(g) == *final(fs)
                            &&& #[trigger] call_ensures(F::efatfs_close, (g, handle), ())
                        }
                } else {
                    *final(f) == *final(fs)
                }
            },
{
    open(reg, fs, path)
}

/// Closes a file.
pub fn deluge_sample_stream_close<F: StreamBacking>(reg: &mut Registry, fs: &mut F, handle: u32)
    requires
        old(reg).wf(),
    ensures
        final(reg).wf(),
        final(reg)@ == (if old(reg).is_open(handle) {
            old(reg)@.update(handle - 1, None)
        } else {
            old(reg)@
        }),
        !old(reg).is_open(handle) ==> *final(fs) == *old(fs),
        old(reg).is_open(handle) ==> exists|f: &mut F|
            {
                &&& *f == *old(fs)
                &&& #[trigger] call_ensures(
                    F::efatfs_close,
                    (f, old(reg).slot(handle).efatfs_handle),
                    (),
                )
                &&& if old(reg).slot(handle).asset_id == DELUGE_RESOURCE_NO_ASSET {
                    *final(f) == *final(fs)
                } else {
                    exists|g: &mut F|
                        {
                            &&& *g == *final(f)
                            &&& *final(g) == *final(fs)
                            &&& #[trigger] call_ensures(
                                F::release_asset,
                                (g, old(reg).slot(handle).asset_id),
                                (),
                            )
                        }
                }
            },
{
    close(reg, fs, handle);
}

/// Gives a file its geometry.
pub fn deluge_sample_stream_set_geometry<F: StreamBacking>(
    reg: &mut Registry,
    fs: &mut F,
    handle: u32,
    geo: DelugeSampleStreamGeometry,
)
    requires
        old(reg).wf(),
    ensures
        final(reg).wf(),
        final(reg)@ == (if old(reg).is_open(handle) {
            old(reg)@.update(
                handle - 1,
                Some(Slot { geometry: Some(geo), ..old(reg).slot(handle) }),
            )
        } else {
            old(reg)@
        }),
        match geometry_registration(*old(reg), handle, geo) {
            Some((asset, ctx)) => exists|f: &mut F|
                {
                    &&& *f == *old(fs)
                    &&& *final(f) == *final(fs)
                    &&& #[trigger] call_ensures(F::set_fill_context, (f, asset, ctx), ())
                },
            None => *final(fs) == *old(fs),
        },
{
    set_geometry(reg, fs, handle, geo);
}

/// The asset of a file, or `DELUGE_RESOURCE_NO_ASSET`.
pub fn deluge_sample_stream_get_asset_id(reg: &Registry, handle: u32) -> (r: u32)
    requires
        reg.wf(),
    ensures
        r == (if reg.is_open(handle) { reg.slot(handle).asset_id } else {
            DELUGE_RESOURCE_NO_ASSET
        }),
{
    asset_id(reg, handle)
}

/// Gives a file its asset.
pub fn deluge_sample_stream_set_asset_id<F: StreamBacking>(
    reg: &mut Registry,
    fs: &mut F,
    handle: u32,
    id: u32,
)
    requires
        old(reg).wf(),
    ensures
        final(reg).wf(),
        final(reg)@ == (if old(reg).is_open(handle) {
            old(reg)@.update(handle - 1, Some(Slot { asset_id: id, ..old(reg).slot(handle) }))
        } else {
            old(reg)@
        }),
        match asset_registration(*old(reg), handle, id) {
            Some((asset, ctx)) => exists|f: &mut F|
                {
                    &&& *f == *old(fs)
                    &&& *final(f) == *final(fs)
                    &&& #[trigger] call_ensures(F::set_fill_context, (f, asset, ctx), ())
                },
            None => *final(fs) == *old(fs),
        },
{
    set_asset_id(reg, fs, handle, id);
}

/// Reads up to `len` bytes of a file; gives the bytes that were read.
pub fn deluge_sample_stream_read_at<F: StreamBacking>(
    reg: &Registry,
    fs: &mut F,
    handle: u32,
    byte_offset: u32,
    len: u32,
) -> (r: Vec<u8>)
    requires
        reg.wf(),
    ensures
        !reg.is_open(handle) ==> r@.len() == 0 && *final(fs) == *old(fs),
        reg.is_open(handle) ==> exists|f: &mut F, ok: bool, data: Vec<u8>|
            {
                &&& *f == *old(fs)
                &&& *final(f) == *final(fs)
                &&& #[trigger] call_ensures(
                    F::efatfs_read_at,
                    (f, reg.slot(handle).efatfs_handle, byte_offset, len),
                    (ok, data),
                )
                &&& r@ == read_bytes(ok, data@, len as int)
            },
{
    read_at(reg, fs, handle, byte_offset, len)
}

} // verus!
