use deluge_rust::fill::context::FillContext;
use deluge_rust::stream::abi::{
    deluge_sample_stream_close, deluge_sample_stream_get_asset_id, deluge_sample_stream_open,
    deluge_sample_stream_read_at, deluge_sample_stream_set_asset_id,
    deluge_sample_stream_set_geometry,
};
use deluge_rust::stream::registry::{
    asset_id, close, open, read_at, set_asset_id, set_geometry, DelugeSampleStreamGeometry,
    Registry, StreamBacking, CAP, DELUGE_RESOURCE_NO_ASSET,
};

/// A card and a cache that write down what they are asked.
struct Mock {
    open_result: (bool, u32, bool),
    last_opened_path: String,
    closed_handles: Vec<u32>,
    read_ok: bool,
    read_result: usize,
    last_read_call: Option<(u32, u32, u32)>,
    fill_contexts: Vec<(u32, FillContext)>,
    released_assets: Vec<u32>,
}

impl Mock {
    fn new(handle: u32, ok: bool, table_full: bool) -> Self {
        Mock {
            open_result: (ok, handle, table_full),
            last_opened_path: String::new(),
            closed_handles: Vec::new(),
            read_ok: true,
            read_result: 0,
            last_read_call: None,
            fill_contexts: Vec::new(),
            released_assets: Vec::new(),
        }
    }
}

impl StreamBacking for Mock {
    fn efatfs_open(&mut self, path: &[u8]) -> (bool, u32, bool) {
        self.last_opened_path = String::from_utf8(path.to_vec()).unwrap();
        self.open_result
    }

    fn efatfs_close(&mut self, handle: u32) {
        self.closed_handles.push(handle);
    }

    fn efatfs_read_at(&mut self, handle: u32, byte_offset: u32, count: u32) -> (bool, Vec<u8>) {
        self.last_read_call = Some((handle, byte_offset, count));
        (
            self.read_ok,
            (0..self.read_result).map(|i| i as u8 + 1).collect(),
        )
    }

    fn set_fill_context(&mut self, asset: u32, ctx: FillContext) {
        self.fill_contexts.push((asset, ctx));
    }

    fn release_asset(&mut self, asset: u32) {
        self.released_assets.push(asset);
    }
}

fn sample_geometry() -> DelugeSampleStreamGeometry {
    DelugeSampleStreamGeometry {
        audio_data_start_pos_bytes: 44,
        audio_data_length_bytes: 8192,
        first_cluster_index_with_no_audio_data: -1,
        cluster_size: 4096,
        cluster_size_magnitude: 12,
        raw_data_format: 0,
        byte_depth: 2,
        num_channels: 1,
    }
}

#[test]
fn open_stores_handle_then_close_releases() {
    let mut reg = Registry::new();
    let mut fs = Mock::new(42, true, false);
    let (h, _tf) = open(&mut reg, &mut fs, b"SAMPLES/X.WAV");
    assert_ne!(h, 0);
    assert_eq!(fs.last_opened_path, "SAMPLES/X.WAV");
    close(&mut reg, &mut fs, h);
    assert_eq!(fs.closed_handles, vec![42]);
    // second close is a no-op
    close(&mut reg, &mut fs, h);
    assert_eq!(fs.closed_handles, vec![42]);
}

#[test]
fn fill_context_registers_once_on_the_second_of_geometry_then_asset_id() {
    let mut reg = Registry::new();
    let mut fs = Mock::new(7, true, false);
    let (h, _) = open(&mut reg, &mut fs, b"SAMPLES/Y.WAV");
    assert_ne!(h, 0);

    let geo = sample_geometry();
    set_geometry(&mut reg, &mut fs, h, geo);
    assert_eq!(
        fs.fill_contexts.len(),
        0,
        "geometry alone (no asset id yet) must not register"
    );

    set_asset_id(&mut reg, &mut fs, h, 99);
    assert_eq!(
        fs.fill_contexts.len(),
        1,
        "the second of {{geometry, asset_id}} must register exactly once"
    );

    let (asset, ctx) = *fs.fill_contexts.last().expect("a context was registered");
    assert_eq!(asset, 99);
    assert_eq!(ctx.efatfs_handle, 7);
    assert_eq!(
        ctx.audio_data_start_pos_bytes,
        geo.audio_data_start_pos_bytes
    );
    assert_eq!(ctx.audio_data_length_bytes, geo.audio_data_length_bytes);
    assert_eq!(
        ctx.first_cluster_index_with_no_audio_data,
        geo.first_cluster_index_with_no_audio_data
    );
    assert_eq!(ctx.cluster_size, geo.cluster_size);
    assert_eq!(ctx.cluster_size_magnitude, geo.cluster_size_magnitude);
    assert_eq!(ctx.raw_data_format, geo.raw_data_format);
    assert_eq!(ctx.byte_depth, geo.byte_depth);
    assert_eq!(ctx.num_channels, geo.num_channels);

    close(&mut reg, &mut fs, h);
    assert_eq!(fs.closed_handles, vec![7]);
}

#[test]
fn table_full_on_the_capacity_plus_one_open_closes_the_extra_handle() {
    let mut reg = Registry::new();
    let mut fs = Mock::new(99, true, false);
    let mut handles = Vec::new();
    for _ in 0..CAP {
        let (h, tf) = open(&mut reg, &mut fs, b"S.WAV");
        assert_ne!(h, 0, "the first CAP opens must all succeed");
        assert!(!tf);
        handles.push(h);
    }

    let (h, tf) = open(&mut reg, &mut fs, b"S.WAV");
    assert_eq!(h, 0, "the CAP+1'th open must fail");
    assert!(tf, "and report table-full");
    assert_eq!(
        fs.closed_handles,
        vec![99],
        "the just-opened handle for the rejected slot must be closed, not leaked"
    );

    for h in handles {
        close(&mut reg, &mut fs, h);
    }
    assert_eq!(fs.closed_handles.len(), CAP + 1);
}

#[test]
fn read_at_on_a_handle_zero_slot_forwards_the_call() {
    let mut reg = Registry::new();
    let mut fs = Mock::new(0, true, false); // the card's first, valid handle: 0
    let (h, _) = open(&mut reg, &mut fs, b"FIRST.WAV");
    assert_ne!(h, 0); // slot handles are 1-based; only the card's handle is 0
    fs.read_result = 10;

    let n = read_at(&reg, &mut fs, h, 1234, 16).len();
    assert_eq!(n, 10, "a handle-0 slot must actually read, not fail clean");
    assert_eq!(
        fs.last_read_call,
        Some((0, 1234, 16)),
        "read must be forwarded to handle 0"
    );

    close(&mut reg, &mut fs, h);
}

#[test]
fn read_at_on_a_real_handle_forwards_the_call_and_returns_the_byte_count() {
    let mut reg = Registry::new();
    let mut fs = Mock::new(55, true, false);
    let (h, _) = open(&mut reg, &mut fs, b"S.WAV");
    assert_ne!(h, 0);
    fs.read_result = 10;

    let bytes = read_at(&reg, &mut fs, h, 1234, 16);
    assert_eq!(bytes.len(), 10);
    assert_eq!(bytes, vec![1, 2, 3, 4, 5, 6, 7, 8, 9, 10]);
    assert_eq!(fs.last_read_call, Some((55, 1234, 16)));

    // A read that fails gives nothing, and one that overflows gives what was asked for.
    fs.read_ok = false;
    assert!(read_at(&reg, &mut fs, h, 0, 16).is_empty());
    fs.read_ok = true;
    assert_eq!(read_at(&reg, &mut fs, h, 0, 3), vec![1, 2, 3]);

    close(&mut reg, &mut fs, h);
}

#[test]
fn close_releases_the_assigned_asset_but_not_an_unassigned_one() {
    let mut reg = Registry::new();
    let mut fs = Mock::new(21, true, false);

    // Slot with an assigned asset id: close must release it.
    let (with_asset, _) = open(&mut reg, &mut fs, b"ASSIGNED.WAV");
    assert_ne!(with_asset, 0);
    set_asset_id(&mut reg, &mut fs, with_asset, 77);
    close(&mut reg, &mut fs, with_asset);
    assert_eq!(
        fs.released_assets,
        vec![77],
        "close must release the slot's assigned asset id"
    );

    // Slot with no asset id ever assigned: close must not call release at all.
    let (without_asset, _) = open(&mut reg, &mut fs, b"UNASSIGNED.WAV");
    assert_ne!(without_asset, 0);
    close(&mut reg, &mut fs, without_asset);
    assert_eq!(
        fs.released_assets,
        vec![77],
        "close on a slot with no asset id assigned must not release one"
    );
}

#[test]
fn open_failure_propagates_table_full_and_returns_zero() {
    let mut reg = Registry::new();
    let mut fs = Mock::new(0, false, true);
    let (h, tf) = open(&mut reg, &mut fs, b"MISSING.WAV");
    assert_eq!(h, 0);
    assert!(tf);
    fs.open_result = (false, 0, false);
    assert_eq!(open(&mut reg, &mut fs, b"MISSING.WAV"), (0, false));
    assert!(fs.closed_handles.is_empty());
}

#[test]
fn zero_and_out_of_range_handles_are_tolerated_everywhere() {
    let mut reg = Registry::new();
    let mut fs = Mock::new(1, true, false);
    close(&mut reg, &mut fs, 0);
    assert_eq!(asset_id(&reg, 0), DELUGE_RESOURCE_NO_ASSET);
    set_asset_id(&mut reg, &mut fs, 0, 5);
    set_geometry(&mut reg, &mut fs, 0, sample_geometry());
    let n = read_at(&reg, &mut fs, 0, 0, 4).len();
    assert_eq!(n, 0);

    let out_of_range = CAP as u32 + 1000;
    close(&mut reg, &mut fs, out_of_range);
    assert_eq!(asset_id(&reg, out_of_range), DELUGE_RESOURCE_NO_ASSET);
    assert!(fs.closed_handles.is_empty() && fs.last_read_call.is_none());
}

#[test]
fn abi_wrappers_round_trip_through_the_registry() {
    let mut reg = Registry::new();
    let mut fs = Mock::new(11, true, false);
    let (h, tf) = deluge_sample_stream_open(&mut reg, &mut fs, b"WIRE.WAV");
    assert_ne!(h, 0);
    assert!(!tf);

    assert_eq!(
        deluge_sample_stream_get_asset_id(&reg, h),
        DELUGE_RESOURCE_NO_ASSET
    );
    deluge_sample_stream_set_asset_id(&mut reg, &mut fs, h, 3);
    assert_eq!(deluge_sample_stream_get_asset_id(&reg, h), 3);
    deluge_sample_stream_set_geometry(&mut reg, &mut fs, h, sample_geometry());

    let (asset, ctx) = *fs
        .fill_contexts
        .last()
        .expect("registered once both are set");
    assert_eq!(asset, 3);
    assert_eq!(ctx.efatfs_handle, 11);

    fs.read_result = 4;
    let n = deluge_sample_stream_read_at(&reg, &mut fs, h, 0, 4).len();
    assert_eq!(n, 4);

    deluge_sample_stream_close(&mut reg, &mut fs, h);
    assert_eq!(fs.closed_handles, vec![11]);
}

#[test]
fn slots_are_reused_lowest_first() {
    let mut reg = Registry::new();
    let mut fs = Mock::new(5, true, false);
    let handles: Vec<u32> = (0..4).map(|_| open(&mut reg, &mut fs, b"S").0).collect();
    assert_eq!(handles, vec![1, 2, 3, 4]);
    set_asset_id(&mut reg, &mut fs, 2, 8);
    close(&mut reg, &mut fs, 2);
    close(&mut reg, &mut fs, 3);
    assert_eq!(open(&mut reg, &mut fs, b"S").0, 2);
    // Nothing of the file that was there is left.
    assert_eq!(asset_id(&reg, 2), DELUGE_RESOURCE_NO_ASSET);
    set_geometry(&mut reg, &mut fs, 2, sample_geometry());
    assert!(fs.fill_contexts.is_empty());
    // Giving an asset back its null id registers nothing.
    set_asset_id(&mut reg, &mut fs, 2, DELUGE_RESOURCE_NO_ASSET);
    assert!(fs.fill_contexts.is_empty());
    set_asset_id(&mut reg, &mut fs, 2, 8);
    set_geometry(&mut reg, &mut fs, 2, sample_geometry());
    assert_eq!(fs.fill_contexts.len(), 2);
}
