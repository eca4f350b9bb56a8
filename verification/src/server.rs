//! Answering requests for the access list of given transactions.
use vstd::prelude::*;

use crate::access_list::BlockAccessListEncode;
use crate::hex_text::{bytes_text, hex_of};
use crate::changes::BlockChanges;
use crate::merge::{
    are_changes, dirty_total, is_list_of, merge_lists, visits, word, HeadContext,
};
use crate::rlp_item::encode;
use crate::trace::SimulatedTransaction;

verus! {

/// How the task of one transaction ended.
#[derive(Debug)]
pub enum TaskOutcome {
    /// With the storage accesses, or without them if it was cancelled.
    Done(Option<SimulatedTransaction>),
    /// The simulation failed, for the given reason.
    SimulationFailed(String),
    /// The task itself failed, for the given reason.
    TaskFailed(String),
}

/// The simulations of a request that have ended so far.
#[derive(Debug)]
pub struct Gathering {
    pub simulations: Vec<SimulatedTransaction>,
}

/// The answer to a request.
#[derive(Debug)]
pub struct GenerateBalResponse {
    pub bep592_payload: String,
    pub eip7928_payload: String,
    pub accounts: usize,
    pub reads: usize,
    pub writes: usize,
    pub size_bytes: usize,
    pub fresh: bool,
}

impl Gathering {
    pub fn new() -> (res: Self)
        ensures
            res.simulations@ == Seq::<SimulatedTransaction>::empty(),
    {
        Gathering { simulations: Vec::new() }
    }

    /// Takes in how one task ended. The first failure is the answer to the
    /// whole request.
    pub fn accept(&mut self, outcome: TaskOutcome) -> (res: Result<(), String>)
        ensures
            match outcome {
                TaskOutcome::Done(Some(simulation)) => {
                    &&& res is Ok
                    &&& final(self).simulations@ == old(self).simulations@.push(simulation)
                },
                TaskOutcome::Done(None) => {
                    &&& res is Ok
                    &&& final(self).simulations@ == old(self).simulations@
                },
                TaskOutcome::SimulationFailed(reason) => {
                    &&& res matches Err(text) && text@ == "Simulation failed: "@ + reason@
                    &&& final(self).simulations@ == old(self).simulations@
                },
                TaskOutcome::TaskFailed(reason) => {
                    &&& res matches Err(text) && text@ == "Task failed: "@ + reason@
                    &&& final(self).simulations@ == old(self).simulations@
                },
            },
    {
        match outcome {
            TaskOutcome::Done(Some(simulation)) => {
                self.simulations.push(simulation);
                Ok(())
            },
            TaskOutcome::Done(None) => Ok(()),
            TaskOutcome::SimulationFailed(reason) => Err(
                sentence("Simulation failed: ", reason.as_str()),
            ),
            TaskOutcome::TaskFailed(reason) => Err(sentence("Task failed: ", reason.as_str())),
        }
    }
}

fn sentence(start: &str, rest: &str) -> (res: String)
    ensures
        res@ == start@ + rest@,
{
    let mut res = String::new();
    res.append(start);
    res.append(rest);
    assert(res@ =~= start@ + rest@);
    res
}

/// The index under which EIP-7928 lists the first transaction of a block. Index
/// 0 is for what happens before the transactions.
pub const FIRST_TRANSACTION: u16 = 1;

/// Whether `list` and `changes` are the lists of the given simulations in a
/// block whose hash is not known, for which zeros stand, and the answer is made
/// of them: BEP-592 lists each slot with the first transaction that accessed
/// it, EIP-7928 with every transaction that wrote it and the value that it
/// wrote, in ascending order, counted from 1.
pub open spec fn is_answer(
    answer: GenerateBalResponse,
    list: BlockAccessListEncode,
    changes: BlockChanges,
    block_number: u64,
    simulations: Seq<SimulatedTransaction>,
) -> bool {
    let payload = encode(list.bep592_item());
    let head = HeadContext { number: block_number, hash: list.hash };
    &&& is_list_of(list, head, simulations)
    &&& are_changes(changes.accounts@, visits(simulations))
    &&& list.hash@ == Seq::new(32, |i: int| 0u8)
    &&& answer.bep592_payload@ == "0x"@ + hex_of(payload)
    &&& answer.eip7928_payload@ == "0x"@ + hex_of(
        encode(changes.item_from(FIRST_TRANSACTION as nat)),
    )
    &&& answer.accounts == list.accounts@.len()
    &&& answer.reads == word(dirty_total(list.accounts@, false))
    &&& answer.writes == word(dirty_total(list.accounts@, true))
    &&& answer.size_bytes == payload.len()
    &&& answer.fresh
}

/// Answers a request whose transactions have been simulated, with indices from
/// 0 on.
pub fn generate_bal(block_number: u64, simulations: Vec<SimulatedTransaction>) -> (res:
    GenerateBalResponse)
    ensures
        exists|list: BlockAccessListEncode, changes: BlockChanges| #[trigger]
            is_answer(res, list, changes, block_number, simulations@),
{
    let head = HeadContext { number: block_number, hash: [0u8; 32] };
    let merged = merge_lists(head, simulations);
    let bep592 = merged.accesses.rlp_encode();
    let eip7928 = merged.changes.encode_from(FIRST_TRANSACTION);
    let res = GenerateBalResponse {
        bep592_payload: bytes_text(bep592.as_slice()),
        eip7928_payload: bytes_text(eip7928.as_slice()),
        accounts: merged.accesses.accounts.len(),
        reads: merged.reads,
        writes: merged.writes,
        size_bytes: bep592.len(),
        fresh: true,
    };
    proof {
        assert(merged.accesses.hash@ =~= Seq::new(32, |i: int| 0u8));
        assert(is_answer(res, merged.accesses, merged.changes, block_number, simulations@));
    }
    res
}

} // verus!
