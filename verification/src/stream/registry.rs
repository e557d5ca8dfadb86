//! The table of open streaming files. A handle is one more than the number of its slot, so
//! 0 is none. When a file has both an asset and a geometry, its context is registered.
use crate::fill::context::FillContext;
use vstd::prelude::*;

verus! {

/// How many files can be open.
pub const CAP: usize = 256;

/// No asset yet.
pub const DELUGE_RESOURCE_NO_ASSET: u32 = 0xFFFF_FFFF;

/// The geometry of a file's audio data.
#[derive(Clone, Copy, PartialEq, Eq, Debug, Structural)]
pub struct DelugeSampleStreamGeometry {
    pub audio_data_start_pos_bytes: u32,
    pub audio_data_length_bytes: u64,
    pub first_cluster_index_with_no_audio_data: i32,
    pub cluster_size: u32,
    pub cluster_size_magnitude: u32,
    pub raw_data_format: u8,
    pub byte_depth: u8,
    pub num_channels: u8,
}

/// An open file.
#[derive(Clone, Copy, PartialEq, Eq, Debug)]
pub struct Slot {
    /// The card's handle; any number is a handle.
    pub efatfs_handle: u32,
    /// The asset, or `DELUGE_RESOURCE_NO_ASSET`.
    pub asset_id: u32,
    pub geometry: Option<DelugeSampleStreamGeometry>,
}

/// What the registry asks of the card and of the cache. Nothing is known of the answers.
pub trait StreamBacking {
    /// Opens a file: whether that went well, the handle, and whether the card has too many
    /// files open.
    fn efatfs_open(&mut self, path: &[u8]) -> (bool, u32, bool);

    fn efatfs_close(&mut self, handle: u32);

    /// Reads `count` bytes at `byte_offset`: whether that went well, and the bytes.
    fn efatfs_read_at(&mut self, handle: u32, byte_offset: u32, count: u32) -> (bool, Vec<u8>);

    /// Registers the context of an asset, if there is a cache.
    fn set_fill_context(&mut self, asset: u32, ctx: FillContext);

    /// Retires an asset, if there is a cache.
    fn release_asset(&mut self, asset: u32);
}

/// The open files.
pub struct Registry {
    slots: Vec<Option<Slot>>,
}

impl Registry {
    pub closed spec fn wf(&self) -> bool {
        self.slots@.len() == CAP
    }

    /// What being in order means: the registry has all its slots.
    pub proof fn lemma_wf(&self)
        ensures
            self.wf() == (self@.len() == CAP),
    {
    }

    /// The file of each slot.
    pub closed spec fn view(&self) -> Seq<Option<Slot>> {
        self.slots@
    }

    /// `handle` is of an open file.
    pub open spec fn is_open(&self, handle: u32) -> bool {
        1 <= handle <= CAP && self@[handle - 1] is Some
    }

    /// The file with that handle.
    pub open spec fn slot(&self, handle: u32) -> Slot {
        self@[handle - 1]->0
    }

    /// No slot is free.
    pub open spec fn full(&self) -> bool {
        forall|i: int| 0 <= i < CAP ==> (#[trigger] self@[i]) is Some
    }

    /// A registry with no file open.
    pub fn new() -> (r: Registry)
        ensures
            r.wf(),
            r@ == Seq::new(CAP as nat, |i: int| None::<Slot>),
    {
        let mut slots: Vec<Option<Slot>> = Vec::new();
        let mut i: usize = 0;
        while i < CAP
            invariant
                i <= CAP,
                slots@ == Seq::new(i as nat, |j: int| None::<Slot>),
            decreases CAP - i,
        {
            slots.push(None);
            i = i + 1;
            assert(slots@ =~= Seq::new(i as nat, |j: int| None::<Slot>));
        }
        Registry { slots }
    }

    /// The number of the slot that `handle` stands for.
    fn slot_index(handle: u32) -> (r: Option<usize>)
        ensures
            r == (if 1 <= handle <= CAP { Some((handle - 1) as usize) } else { None }),
    {
        if handle == 0 {
            return None;
        }
        let index: usize = (handle - 1) as usize;
        if index < CAP {
            Some(index)
        } else {
            None
        }
    }

    /// The file with that handle, if it is open.
    fn get(&self, handle: u32) -> (r: Option<Slot>)
        requires
            self.wf(),
        ensures
            r == (if self.is_open(handle) { Some(self.slot(handle)) } else { None }),
    {
        match Self::slot_index(handle) {
            Some(i) => self.slots[i],
            None => None,
        }
    }

    /// Puts a file that was just opened into the first free slot; gives its handle, or 0 if
    /// there is none.
    pub fn claim(&mut self, efatfs_handle: u32) -> (r: u32)
        requires
            old(self).wf(),
        ensures
            final(self).wf(),
            if old(self).full() {
                r == 0 && final(self)@ == old(self)@
            } else {
                &&& 1 <= r <= CAP
                &&& old(self)@[r - 1] is None
                &&& forall|i: int| 0 <= i < r - 1 ==> (#[trigger] old(self)@[i]) is Some
                &&& final(self)@ == old(self)@.update(r - 1, Some(fresh_slot(efatfs_handle)))
            },
    {
        let mut i: usize = 0;
        while i < CAP && self.slots[i].is_some()
            invariant
                self.wf(),
                i <= CAP,
                forall|j: int| 0 <= j < i ==> (#[trigger] self@[j]) is Some,
            decreases CAP - i,
        {
            i = i + 1;
        }
        if i == CAP {
            return 0;
        }
        assert(self@[i as int] is None);
        self.slots.set(
            i,
            Some(Slot { efatfs_handle, asset_id: DELUGE_RESOURCE_NO_ASSET, geometry: None }),
        );
        i as u32 + 1
    }

    /// The context that an open file with an asset and a geometry has; nothing for another.
    fn context_to_register(&self, handle: u32) -> (r: Option<(u32, FillContext)>)
        requires
            self.wf(),
        ensures
            r == (if self.is_open(handle) { registration(self.slot(handle)) } else { None }),
    {
        match self.get(handle) {
            Some(slot) => if slot.asset_id == DELUGE_RESOURCE_NO_ASSET {
                None
            } else {
                match slot.geometry {
                    Some(geo) => Some(
                        (
                            slot.asset_id,
                            FillContext {
                                efatfs_handle: slot.efatfs_handle,
                                audio_data_start_pos_bytes: geo.audio_data_start_pos_bytes,
                                audio_data_length_bytes: geo.audio_data_length_bytes,
                                first_cluster_index_with_no_audio_data:
                                    geo.first_cluster_index_with_no_audio_data,
                                cluster_size: geo.cluster_size,
                                cluster_size_magnitude: geo.cluster_size_magnitude,
                                raw_data_format: geo.raw_data_format,
                                byte_depth: geo.byte_depth,
                                num_channels: geo.num_channels,
                            },
                        ),
                    ),
                    None => None,
                }
            },
            None => None,
        }
    }

    /// Gives a file the geometry `geo`; says what is to be registered.
    pub fn store_geometry(&mut self, handle: u32, geo: DelugeSampleStreamGeometry) -> (r: Option<
        (u32, FillContext),
    >)
        requires
            old(self).wf(),
        ensures
            final(self).wf(),
            if old(self).is_open(handle) {
                let slot = Slot { geometry: Some(geo), ..old(self).slot(handle) };
                final(self)@ == old(self)@.update(handle - 1, Some(slot)) && r == registration(slot)
            } else {
                final(self)@ == old(self)@ && r is None
            },
    {
        match self.get(handle) {
            Some(slot) => {
                self.slots.set((handle - 1) as usize, Some(Slot { geometry: Some(geo), ..slot }));
                self.context_to_register(handle)
            },
            None => None,
        }
    }

    /// Gives a file the asset `id`; says what is to be registered.
    pub fn store_asset_id(&mut self, handle: u32, id: u32) -> (r: Option<(u32, FillContext)>)
        requires
            old(self).wf(),
        ensures
            final(self).wf(),
            if old(self).is_open(handle) {
                let slot = Slot { asset_id: id, ..old(self).slot(handle) };
                final(self)@ == old(self)@.update(handle - 1, Some(slot)) && r == registration(slot)
            } else {
                final(self)@ == old(self)@ && r is None
            },
    {
        match self.get(handle) {
            Some(slot) => {
                self.slots.set((handle - 1) as usize, Some(Slot { asset_id: id, ..slot }));
                self.context_to_register(handle)
            },
            None => None,
        }
    }

    /// Takes a file out of the table.
    pub fn take(&mut self, handle: u32) -> (r: Option<Slot>)
        requires
            old(self).wf(),
        ensures
            final(self).wf(),
            if old(self).is_open(handle) {
                &&& r == Some(old(self).slot(handle))
                &&& final(self)@ == old(self)@.update(handle - 1, None)
            } else {
                r is None && final(self)@ == old(self)@
            },
    {
        match self.get(handle) {
            Some(slot) => {
                self.slots.set((handle - 1) as usize, None);
                Some(slot)
            },
            None => None,
        }
    }
}

/// A file that was just opened.
pub open spec fn fresh_slot(efatfs_handle: u32) -> Slot {
    Slot { efatfs_handle, asset_id: DELUGE_RESOURCE_NO_ASSET, geometry: None }
}

/// The asset and context to register for a file: when it has both an asset and a geometry.
pub open spec fn registration(slot: Slot) -> Option<(u32, FillContext)> {
    if slot.asset_id == DELUGE_RESOURCE_NO_ASSET {
        None
    } else {
        match slot.geometry {
            Some(geo) => Some(
                (
                    slot.asset_id,
                    FillContext {
                        efatfs_handle: slot.efatfs_handle,
                        audio_data_start_pos_bytes: geo.audio_data_start_pos_bytes,
                        audio_data_length_bytes: geo.audio_data_length_bytes,
                        first_cluster_index_with_no_audio_data:
                            geo.first_cluster_index_with_no_audio_data,
                        cluster_size: geo.cluster_size,
                        cluster_size_magnitude: geo.cluster_size_magnitude,
                        raw_data_format: geo.raw_data_format,
                        byte_depth: geo.byte_depth,
                        num_channels: geo.num_channels,
                    },
                ),
            ),
            None => None,
        }
    }
}

/// What giving a file the geometry `geo` registers.
pub open spec fn geometry_registration(
    reg: Registry,
    handle: u32,
    geo: DelugeSampleStreamGeometry,
) -> Option<(u32, FillContext)> {
    if reg.is_open(handle) {
        registration(Slot { geometry: Some(geo), ..reg.slot(handle) })
    } else {
        None
    }
}

/// What giving a file the asset `id` registers.
pub open spec fn asset_registration(reg: Registry, handle: u32, id: u32) -> Option<
    (u32, FillContext),
> {
    if reg.is_open(handle) {
        registration(Slot { asset_id: id, ..reg.slot(handle) })
    } else {
        None
    }
}

/// A file that was just opened is registered by the second of its geometry and its asset,
/// whichever comes first, with both.
pub proof fn registered_once_both_are_known(
    reg: Registry,
    handle: u32,
    efatfs_handle: u32,
    geo: DelugeSampleStreamGeometry,
    id: u32,
)
    requires
        reg.is_open(handle),
        reg.slot(handle) == fresh_slot(efatfs_handle),
        id != DELUGE_RESOURCE_NO_ASSET,
    ensures
        geometry_registration(reg, handle, geo) is None,
        asset_registration(reg, handle, id) is None,
        ({
            let with_geometry = Slot { geometry: Some(geo), ..reg.slot(handle) };
            let with_asset = Slot { asset_id: id, ..reg.slot(handle) };
            let r = registration(Slot { asset_id: id, ..with_geometry });
            &&& r == registration(Slot { geometry: Some(geo), ..with_asset })
            &&& r is Some
            &&& (r->0).0 == id
            &&& (r->0).1.efatfs_handle == efatfs_handle
            &&& (r->0).1.cluster_size == geo.cluster_size
        }),
{
}

/// Registers the context of a file, if there is one to register.
fn try_register_fill_context<F: StreamBacking>(fs: &mut F, r: Option<(u32, FillContext)>)
    ensures
        match r {
            Some((asset, ctx)) => exists|f: &mut F|
                {
                    &&& *f == *old(fs)
                    &&& *final(f) == *final(fs)
                    &&& #[trigger] call_ensures(F::set_fill_context, (f, asset, ctx), ())
                },
            None => *final(fs) == *old(fs),
        },
{
    match r {
        Some((asset, ctx)) => fs.set_fill_context(asset, ctx),
        None => {},
    }
}

/// What opening a file makes of the table, if the card answers `opened` and `handle`: the
/// file is in the first free slot, under `r`; without a free slot, or if it was not opened,
/// there is no handle, and `full` says whether a table was the reason.
pub open spec fn open_outcome(
    a: Registry,
    opened: bool,
    handle: u32,
    card_full: bool,
    r: u32,
    full: bool,
    b: Registry,
) -> bool {
    if !opened {
        r == 0 && full == card_full && b@ == a@
    } else if a.full() {
        r == 0 && full && b@ == a@
    } else {
        &&& 1 <= r <= CAP
        &&& a@[r - 1] is None
        &&& forall|i: int| 0 <= i < r - 1 ==> (#[trigger] a@[i]) is Some
        &&& b@ == a@.update(r - 1, Some(fresh_slot(handle)))
        &&& !full
    }
}

/// Opens a file for streaming. Gives its handle, or 0, and whether the failure is that a
/// table is full. A file that was opened but finds no slot is closed again.
pub fn open<F: StreamBacking>(reg: &mut Registry, fs: &mut F, path: &[u8]) -> (r: (u32, bool))
    requires
        old(reg).wf(),
    ensures
        final(reg).wf(),
        exists|f: &mut F, opened: bool, handle: u32, card_full: bool|
            {
                &&& *f == *old(fs)
                &&& #[trigger] call_ensures(F::efatfs_open, (f, path), (opened, handle, card_full))
                &&& open_outcome(*old(reg), opened, handle, card_full, r.0, r.1, *final(reg))
                &&& if opened && old(reg).full() {
                    exists|g: &mut F|
                        {
                            &&& *g == *final(f)
                            &&& *final(g) == *final(fs)
                            &&& #[trigger] call_ensures(F::efatfs_close, (g, handle), ())
                        }
                } else {
                    *final(f) == *final(fs)
                }
            },
{
    let (opened, handle, card_full): (bool, u32, bool) = fs.efatfs_open(path);
    if !opened {
        let z: (u32, bool) = (0, card_full);
        assert(open_outcome(*old(reg), opened, handle, card_full, z.0, z.1, *reg));
        return z;
    }
    let r: u32 = reg.claim(handle);
    if r == 0 {
        fs.efatfs_close(handle);
    }
    let z: (u32, bool) = (r, r == 0);
    assert(open_outcome(*old(reg), opened, handle, card_full, z.0, z.1, *reg));
    z
}

/// Closes a file: its slot is free, the card closes it and its asset, if it has one, is
/// retired. Nothing happens for a handle that is not open.
pub fn close<F: StreamBacking>(reg: &mut Registry, fs: &mut F, handle: u32)
    requires
        old(reg).wf(),
    ensures
        final(reg).wf(),
        final(reg)@ == (if old(reg).is_open(handle) {
            old(reg)@.update(handle - 1, None)
        } else {
            old(reg)@
        }),
        !old(reg).is_open(handle) ==> *final(fs) == *old(fs),
        old(reg).is_open(handle) ==> exists|f: &mut F|
            {
                &&& *f == *old(fs)
                &&& #[trigger] call_ensures(
                    F::efatfs_close,
                    (f, old(reg).slot(handle).efatfs_handle),
                    (),
                )
                &&& if old(reg).slot(handle).asset_id == DELUGE_RESOURCE_NO_ASSET {
                    *final(f) == *final(fs)
                } else {
                    exists|g: &mut F|
                        {
                            &&& *g == *final(f)
                            &&& *final(g) == *final(fs)
                            &&& #[trigger] call_ensures(
                                F::release_asset,
                                (g, old(reg).slot(handle).asset_id),
                                (),
                            )
                        }
                }
            },
{
    match reg.take(handle) {
        Some(slot) => {
            fs.efatfs_close(slot.efatfs_handle);
            if slot.asset_id != DELUGE_RESOURCE_NO_ASSET {
                fs.release_asset(slot.asset_id);
            }
        },
        None => {},
    }
}

/// Gives a file its geometry, and registers its context if it has an asset.
pub fn set_geometry<F: StreamBacking>(
    reg: &mut Registry,
    fs: &mut F,
    handle: u32,
    geo: DelugeSampleStreamGeometry,
)
    requires
        old(reg).wf(),
    ensures
        final(reg).wf(),
        final(reg)@ == (if old(reg).is_open(handle) {
            old(reg)@.update(
                handle - 1,
                Some(Slot { geometry: Some(geo), ..old(reg).slot(handle) }),
            )
        } else {
            old(reg)@
        }),
        match geometry_registration(*old(reg), handle, geo) {
            Some((asset, ctx)) => exists|f: &mut F|
                {
                    &&& *f == *old(fs)
                    &&& *final(f) == *final(fs)
                    &&& #[trigger] call_ensures(F::set_fill_context, (f, asset, ctx), ())
                },
            None => *final(fs) == *old(fs),
        },
{
    let r = reg.store_geometry(handle, geo);
    try_register_fill_context(fs, r);
}

/// The asset of a file, or `DELUGE_RESOURCE_NO_ASSET`.
pub fn asset_id(reg: &Registry, handle: u32) -> (r: u32)
    requires
        reg.wf(),
    ensures
        r == (if reg.is_open(handle) { reg.slot(handle).asset_id } else {
            DELUGE_RESOURCE_NO_ASSET
        }),
{
    match reg.get(handle) {
        Some(slot) => slot.asset_id,
        None => DELUGE_RESOURCE_NO_ASSET,
    }
}

/// Gives a file its asset, and registers its context if it has a geometry.
pub fn set_asset_id<F: StreamBacking>(reg: &mut Registry, fs: &mut F, handle: u32, id: u32)
    requires
        old(reg).wf(),
    ensures
        final(reg).wf(),
        final(reg)@ == (if old(reg).is_open(handle) {
            old(reg)@.update(handle - 1, Some(Slot { asset_id: id, ..old(reg).slot(handle) }))
        } else {
            old(reg)@
        }),
        match asset_registration(*old(reg), handle, id) {
            Some((asset, ctx)) => exists|f: &mut F|
                {
                    &&& *f == *old(fs)
                    &&& *final(f) == *final(fs)
                    &&& #[trigger] call_ensures(F::set_fill_context, (f, asset, ctx), ())
                },
            None => *final(fs) == *old(fs),
        },
{
    let r = reg.store_asset_id(handle, id);
    try_register_fill_context(fs, r);
}

/// The bytes of a read that count: those that were read if it went well, but no more than
/// were asked for, and none if it failed.
pub open spec fn read_bytes(ok: bool, data: Seq<u8>, len: int) -> Seq<u8> {
    if !ok {
        Seq::empty()
    } else if data.len() > len {
        data.take(len)
    } else {
        data
    }
}

/// Reads up to `len` bytes of a file; gives the bytes that were read. None for a handle that
/// is not open, without asking the card.
pub fn read_at<F: StreamBacking>(
    reg: &Registry,
    fs: &mut F,
    handle: u32,
    byte_offset: u32,
    len: u32,
) -> (r: Vec<u8>)
    requires
        reg.wf(),
    ensures
        !reg.is_open(handle) ==> r@.len() == 0 && *final(fs) == *old(fs),
        reg.is_open(handle) ==> exists|f: &mut F, ok: bool, data: Vec<u8>|
            {
                &&& *f == *old(fs)
                &&& *final(f) == *final(fs)
                &&& #[trigger] call_ensures(
                    F::efatfs_read_at,
                    (f, reg.slot(handle).efatfs_handle, byte_offset, len),
                    (ok, data),
                )
                &&& r@ == read_bytes(ok, data@, len as int)
            },
{
    let slot = match reg.get(handle) {
        Some(slot) => slot,
        None => {
            return Vec::new();
        },
    };
    let (ok, data): (bool, Vec<u8>) = fs.efatfs_read_at(slot.efatfs_handle, byte_offset, len);
    let ghost d = data@;
    let mut data = data;
    if !ok {
        let r: Vec<u8> = Vec::new();
        assert(r@ =~= read_bytes(ok, d, len as int));
        return r;
    }
    if data.len() > len as usize {
        data.truncate(len as usize);
    }
    assert(data@ =~= read_bytes(ok, d, len as int));
    data
}

/// What is registered for a file is its own handle on the card and all of its geometry, under its
/// own asset; and nothing is registered before it has both.
pub proof fn registrations_carry_the_whole_geometry(slot: Slot)
    ensures
        registration(slot) is Some <==> slot.asset_id != u32::MAX && slot.geometry is Some,
        registration(slot) is Some ==> {
            let (asset, ctx) = registration(slot)->0;
            let geo = slot.geometry->0;
            &&& asset == slot.asset_id
            &&& ctx.efatfs_handle == slot.efatfs_handle
            &&& ctx.audio_data_start_pos_bytes == geo.audio_data_start_pos_bytes
            &&& ctx.audio_data_length_bytes == geo.audio_data_length_bytes
            &&& ctx.first_cluster_index_with_no_audio_data
                == geo.first_cluster_index_with_no_audio_data
            &&& ctx.cluster_size == geo.cluster_size
            &&& ctx.cluster_size_magnitude == geo.cluster_size_magnitude
            &&& ctx.raw_data_format == geo.raw_data_format
            &&& ctx.byte_depth == geo.byte_depth
            &&& ctx.num_channels == geo.num_channels
        },
{
}

/// Giving a file a geometry registers it under the asset that it has, and giving it an asset
/// registers the geometry that it has; a file that is not open registers nothing.
pub proof fn registering_uses_what_is_known(
    reg: Registry,
    handle: u32,
    geo: DelugeSampleStreamGeometry,
    id: u32,
)
    requires
        reg@.len() == 256,
    ensures
        handle == 0 || handle > 256 || reg@[handle - 1] is None ==> geometry_registration(
            reg,
            handle,
            geo,
        ) is None && asset_registration(reg, handle, id) is None,
        1 <= handle <= 256 && reg@[handle - 1] is Some ==> {
            let slot = reg@[handle - 1]->0;
            &&& geometry_registration(reg, handle, geo) is Some <==> slot.asset_id != u32::MAX
            &&& slot.asset_id != u32::MAX ==> (geometry_registration(reg, handle, geo)->0).0
                == slot.asset_id && (geometry_registration(reg, handle, geo)->0).1.cluster_size
                == geo.cluster_size && (geometry_registration(
                reg,
                handle,
                geo,
            )->0).1.efatfs_handle == slot.efatfs_handle
            &&& asset_registration(reg, handle, id) is Some <==> id != u32::MAX && slot.geometry
                is Some
            &&& id != u32::MAX && slot.geometry is Some ==> (asset_registration(
                reg,
                handle,
                id,
            )->0).0 == id && (asset_registration(reg, handle, id)->0).1.cluster_size
                == slot.geometry->0.cluster_size && (asset_registration(
                reg,
                handle,
                id,
            )->0).1.efatfs_handle == slot.efatfs_handle
        },
{
}

/// A file that was opened gets the first free place, and its handle is one more than that; it
/// knows its handle on the card, and has no asset and no geometry yet. No other file changes.
/// Without a place, or if it was not opened, there is no handle.
pub proof fn opened_files_get_the_first_place(
    a: Registry,
    opened: bool,
    handle: u32,
    card_full: bool,
    r: u32,
    full: bool,
    b: Registry,
    i: int,
)
    requires
        a@.len() == 256,
        open_outcome(a, opened, handle, card_full, r, full, b),
        0 <= i < 256,
    ensures
        b@.len() == 256,
        !opened ==> r == 0 && full == card_full && b@[i] == a@[i],
        opened && r == 0 ==> full && a@[i] is Some && b@[i] == a@[i],
        r != 0 ==> opened && !full && 1 <= r <= 256 && a@[r - 1] is None && b@[r - 1] is Some
            && b@[r - 1]->0.efatfs_handle == handle && b@[r - 1]->0.asset_id == u32::MAX && b@[r
            - 1]->0.geometry is None,
        r != 0 && i < r - 1 ==> a@[i] is Some,
        r != 0 && i != r - 1 ==> b@[i] == a@[i],
{
}

/// What a reader of a file gets is a beginning of what the card gave: all of it if there was
/// room, as much as there was room for if not, and nothing where the card failed.
pub proof fn reads_give_what_the_card_gave(ok: bool, data: Seq<u8>, len: int, i: int)
    requires
        0 <= len,
    ensures
        read_bytes(ok, data, len).len() <= len,
        ok && data.len() <= len ==> read_bytes(ok, data, len).len() == data.len(),
        ok && data.len() >= len ==> read_bytes(ok, data, len).len() == len,
        !ok ==> read_bytes(ok, data, len).len() == 0,
        0 <= i < read_bytes(ok, data, len).len() ==> read_bytes(ok, data, len)[i] == data[i],
{
}

} // verus!
