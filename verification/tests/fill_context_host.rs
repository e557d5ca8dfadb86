use deluge_rust::fill::context::{
    deluge_streaming_set_fill_context, fill_context_for, FillContext, FillContexts,
    FILL_CONTEXT_CAP,
};

fn sample_ctx() -> FillContext {
    FillContext {
        efatfs_handle: 7,
        audio_data_start_pos_bytes: 44,
        audio_data_length_bytes: 123_456,
        first_cluster_index_with_no_audio_data: 30,
        cluster_size: 4096,
        cluster_size_magnitude: 12,
        raw_data_format: 0,
        byte_depth: 2,
        num_channels: 1,
    }
}

/// A fill-context set for asset A round-trips through `fill_context_for` unchanged.
#[test]
fn registered_asset_round_trips() {
    let mut table = FillContexts::new();
    let ctx = sample_ctx();
    deluge_streaming_set_fill_context(&mut table, 3, ctx);
    assert_eq!(fill_context_for(&table, 3), Some(ctx));
}

/// An asset id nothing has ever registered reports `None`, not a stale/zeroed context.
#[test]
fn unset_asset_is_none() {
    let table = FillContexts::new();
    assert_eq!(fill_context_for(&table, 4000), None);
}

/// Re-registering the same asset replaces the prior context.
#[test]
fn re_registering_replaces_the_prior_context() {
    let mut table = FillContexts::new();
    let first = sample_ctx();
    deluge_streaming_set_fill_context(&mut table, 5, first);
    assert_eq!(fill_context_for(&table, 5), Some(first));

    let mut second = first;
    second.efatfs_handle = 99;
    deluge_streaming_set_fill_context(&mut table, 5, second);
    assert_eq!(fill_context_for(&table, 5), Some(second));
}

/// Out-of-range asset ids are ignored by the write side and report `None` on the read side.
#[test]
fn out_of_range_asset_ids_are_ignored_not_panicking() {
    let mut table = FillContexts::new();
    deluge_streaming_set_fill_context(&mut table, u32::MAX, sample_ctx());
    assert_eq!(fill_context_for(&table, u32::MAX), None);
    deluge_streaming_set_fill_context(&mut table, FILL_CONTEXT_CAP as u32, sample_ctx());
    assert_eq!(fill_context_for(&table, FILL_CONTEXT_CAP as u32), None);
}

#[test]
fn context_without_a_cluster_size_is_not_registered() {
    let mut table = FillContexts::new();
    let mut ctx = sample_ctx();
    ctx.cluster_size = 0;
    deluge_streaming_set_fill_context(&mut table, 8, ctx);
    assert_eq!(fill_context_for(&table, 8), None);
}
