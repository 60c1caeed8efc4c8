// A persistent delayed-deletion scheduler: the task model and its status
// machine (`task`), ingestion of new requests (`ingest`), reconciliation
// against the clock and the merge of waiter outcomes (`schedule`), and the
// task store's document format (`codec`, `store`).

use vstd::prelude::*;

pub mod codec;
pub mod ingest;
pub mod schedule;
pub mod store;
pub mod task;

verus! {

} // verus!
