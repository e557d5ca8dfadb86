# deluge_rust

Sample streaming for a sampler, verified with Verus: a lease-based cache of audio clusters,
the fill that reads clusters from a card, and the readers, reservations and cursors on top.

- `src/resource`: the cache. `model` says what its tables hold and what each step does to
  them; `manager` is the tables; `facade` adds memory, eviction and callbacks; `trace` says
  what is asked of the program around the cache and in which order, and `asking` that it was
  asked; `memory`, `leases` and
  `laws` hold what is true of the whole; `index` is the hash index, `sync` the critical section, `abi` the
  interface for callers that may lack a handle.
- `src/fill`: where a cluster's bytes are on the card, and what is done to them after the read.
- `src/source`: the cursor that plays a sample cluster by cluster, and the pool of cursors.
  `laws` and `leases` follow the cursor's pins over many calls.
- `src/reader`: the range reader, which makes runs of frames resident, and the reservation,
  which keeps the clusters behind a marker resident. `leases` and `balance` show that they
  give back what they take, `addresses` where frames are in memory, and `content` that what is
  read is what is in the file.
- `src/stream`: the registry of files that are open for streaming.
- `src/harness`: disk images, file trees and frame mappings for comparisons.
- `app`: the firmware's side: its memory, card and interrupt mask behind the library's traits,
  the state that all calls share, and the C interface.

Addresses and callbacks are numbers in the library, and 0 is none. What the library cannot
compute it asks for through traits (`Backend`, `Host`, `SampleConvert`, `StreamBacking`), of
whose answers it supposes nothing. A contract says what was asked and what is made of the
answers: the cache and the streaming keep a ghost history of both, and each entry is tied to
the call that made it.
