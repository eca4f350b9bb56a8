//! Block access lists in advance: which storage slots the transactions of the
//! next block will read and write.
//!
//! A node traces each pending transaction. `trace` writes its requests and
//! reads its answers, `prestate` finds the storage accesses in a trace, and
//! `merge`, with `slot_merge`, makes one list of the accesses of all
//! transactions. `access_list` writes the list in the BEP-592 and the EIP-7928
//! format, and `changes` writes every change of every slot in the latter, on top
//! of `rlp_stream`; `verify` reads a BEP-592 payload again, on top of `rlp_read`.
//!
//! What happens when is decided by `heads` and `head_run`, which follow the
//! chain, by `live_run`, `staleness` and `retry`, which measure how often a
//! list is ready in time, and by `server`, which answers requests. They are
//! state machines: they are told what happened and say what to do next.
//!
//! What these parts promise together stands in modules of its own.
//! `prestate_laws` says what is read from a trace, `origin_laws` and
//! `change_laws` where each entry of a merged list comes from, and `count_laws`
//! what is counted. `field_laws` says what can be read from a payload, and
//! `answer_laws` what it says of the simulations. `verify_laws` is about the check
//! of a payload, `trace_laws` about requests, and `head_laws` about runs. How two
//! lists or payloads relate is in `access_laws`, `payload_laws` and `merge_laws`.
use vstd::prelude::*;

pub mod access_laws;
pub mod access_list;
pub mod answer_laws;
pub mod change_laws;
pub mod changes;
pub mod count_laws;
pub mod counters;
pub mod field_laws;
pub mod head_laws;
pub mod head_run;
pub mod heads;
pub mod hex_text;
pub mod json;
pub mod live_run;
pub mod merge;
pub mod merge_laws;
pub mod order;
pub mod origin_laws;
pub mod payload_laws;
pub mod prestate;
pub mod prestate_laws;
pub mod retry;
pub mod rlp_item;
pub mod rlp_read;
pub mod rlp_stream;
pub mod server;
pub mod single_call;
pub mod slot_merge;
pub mod staleness;
pub mod stats;
pub mod trace;
pub mod trace_laws;
pub mod verify;
pub mod verify_laws;

pub use crate::access_list::{
    AccountAccessListEncode, BlockAccessListEncode, StorageAccessItem,
};
pub use crate::counters::SimulationCounters;
pub use crate::hex_text::parse_hex_32;
pub use crate::merge::{merge_simulations, AccountAccumulator, HeadContext};
pub use crate::prestate::parse_prestate_diff;
pub use crate::trace::{
    build_trace_call_body, build_trace_transaction_body, PendingTransaction, SimulatedTransaction,
};

verus! {

} // verus!
