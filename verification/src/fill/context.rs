//! What the fill knows of each asset, registered when a sample is loaded.
use vstd::prelude::*;

verus! {

/// How many asset ids can be registered.
pub const FILL_CONTEXT_CAP: usize = 4096;

/// The geometry of one asset's audio data.
#[derive(Clone, Copy, PartialEq, Eq, Debug, Structural)]
pub struct FillContext {
    pub efatfs_handle: u32,
    pub audio_data_start_pos_bytes: u32,
    pub audio_data_length_bytes: u64,
    pub first_cluster_index_with_no_audio_data: i32,
    pub cluster_size: u32,
    pub cluster_size_magnitude: u32,
    pub raw_data_format: u8,
    /// Bytes per channel sample.
    pub byte_depth: u8,
    pub num_channels: u8,
}

/// The contexts by asset id. A cluster size of 0 marks an id without one.
pub struct FillContexts {
    table: Vec<FillContext>,
}

impl FillContexts {
    /// The table has an entry for each id.
    pub closed spec fn wf(&self) -> bool {
        self.spec_len() == FILL_CONTEXT_CAP
    }

    /// Entries of the table, registered or not.
    pub closed spec fn spec_len(&self) -> nat {
        self.table@.len()
    }

    /// What being in order means: the table has an entry for each id.
    pub proof fn lemma_wf(&self)
        ensures
            self.wf() == (self.spec_len() == FILL_CONTEXT_CAP),
    {
    }

    /// The registered contexts.
    pub closed spec fn view(&self) -> Map<u32, FillContext> {
        Map::new(
            |a: u32| a < FILL_CONTEXT_CAP && self.table@[a as int].cluster_size != 0,
            |a: u32| self.table@[a as int],
        )
    }

    /// A registered context has a cluster size and an id below the capacity.
    pub proof fn registered_contexts_have_clusters(&self, asset: u32)
        requires
            self@.dom().contains(asset),
        ensures
            self@[asset].cluster_size != 0,
            asset < FILL_CONTEXT_CAP,
    {
    }

    /// A table with nothing registered.
    pub fn new() -> (r: FillContexts)
        ensures
            r.wf(),
            r@ == Map::<u32, FillContext>::empty(),
    {
        let unregistered = FillContext {
            efatfs_handle: 0,
            audio_data_start_pos_bytes: 0,
            audio_data_length_bytes: 0,
            first_cluster_index_with_no_audio_data: 0,
            cluster_size: 0,
            cluster_size_magnitude: 0,
            raw_data_format: 0,
            byte_depth: 0,
            num_channels: 0,
        };
        let mut table: Vec<FillContext> = Vec::new();
        let mut i: usize = 0;
        while i < FILL_CONTEXT_CAP
            invariant
                i <= FILL_CONTEXT_CAP,
                table@.len() == i,
                unregistered.cluster_size == 0,
                forall|j: int| 0 <= j < i ==> (#[trigger] table@[j]).cluster_size == 0,
            decreases FILL_CONTEXT_CAP - i,
        {
            table.push(unregistered);
            i = i + 1;
        }
        let r = FillContexts { table };
        assert(r@ =~= Map::<u32, FillContext>::empty());
        r
    }
}

/// Registers the context of `asset`, or replaces it. An id that is out of range and a
/// context without a cluster size are ignored.
pub fn deluge_streaming_set_fill_context(table: &mut FillContexts, asset: u32, ctx: FillContext)
    requires
        old(table).wf(),
    ensures
        final(table).wf(),
        final(table)@ == (if asset < FILL_CONTEXT_CAP && ctx.cluster_size != 0 {
            old(table)@.insert(asset, ctx)
        } else {
            old(table)@
        }),
{
    if asset as usize >= FILL_CONTEXT_CAP || ctx.cluster_size == 0 {
        return;
    }
    table.table.set(asset as usize, ctx);
    assert(table@ =~= old(table)@.insert(asset, ctx));
}

/// The context of `asset`, if it has one.
pub fn fill_context_for(table: &FillContexts, asset: u32) -> (r: Option<FillContext>)
    requires
        table.wf(),
    ensures
        r == (if table@.dom().contains(asset) { Some(table@[asset]) } else { None }),
{
    if asset as usize >= FILL_CONTEXT_CAP {
        return None;
    }
    let ctx = table.table[asset as usize];
    if ctx.cluster_size != 0 {
        Some(ctx)
    } else {
        None
    }
}

} // verus!
