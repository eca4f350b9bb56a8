//! Measuring how the blocks of a chain are simulated.
use vstd::prelude::*;

use crate::access_list::BlockAccessListEncode;
use crate::count_laws::{all_slots, law_total_is_number_of_slots};
use crate::merge::{add_to_word, is_list_of, merge_simulations, slot_total, word, HeadContext};
use crate::rlp_item::encode;
use crate::trace::{PendingTransaction, SimulatedTransaction};

verus! {

/// How many blocks are measured.
pub const MEASURED_BLOCKS: usize = 5;

/// How the simulation of a block went.
#[derive(Debug, Clone, Copy, PartialEq, Eq)]
pub struct BlockStats {
    pub number: u64,
    pub tx_count: usize,
    pub success_count: usize,
    pub fail_count: usize,
    pub time_ms: u128,
    pub accounts: usize,
    pub slots: usize,
    pub payload_size: usize,
}

/// The sums over several blocks.
#[derive(Debug, Clone, Copy, PartialEq, Eq)]
pub struct Totals {
    pub txs: usize,
    pub success: usize,
    pub fail: usize,
    pub time_ms: u128,
    pub accounts: usize,
    pub slots: usize,
    pub size: usize,
}

/// A search for blocks to measure, from a block back to its ancestors.
#[derive(Debug)]
pub struct BlockSearch {
    /// The next block to look at.
    pub next: u64,
    /// How many blocks have been found.
    pub found: usize,
}

/// Whether any of the transactions carries data, as calls of contracts do.
pub fn has_contract_interactions(transactions: &Vec<PendingTransaction>) -> (res: bool)
    ensures
        res == exists|i: int|
            0 <= i < transactions@.len() && (#[trigger] transactions@[i]).input@.len() > 0,
{
    let mut n: usize = 0;
    while n < transactions.len()
        invariant
            n <= transactions@.len(),
            forall|i: int| 0 <= i < n ==> (#[trigger] transactions@[i]).input@.len() == 0,
        decreases transactions@.len() - n,
    {
        if transactions[n].input.len() > 0 {
            return true;
        }
        n = n + 1;
    }
    false
}

impl BlockSearch {
    /// Starts at the latest block.
    pub fn new(latest: u64) -> (res: Self)
        ensures
            res == (BlockSearch { next: latest, found: 0 }),
    {
        BlockSearch { next: latest, found: 0 }
    }

    /// The block to look at, unless enough blocks have been found.
    pub fn wanted(&self) -> (res: Option<u64>)
        ensures
            res == (if self.found < MEASURED_BLOCKS {
                Some(self.next)
            } else {
                None
            }),
    {
        if self.found < MEASURED_BLOCKS {
            Some(self.next)
        } else {
            None
        }
    }

    /// Takes in the block that was looked at, and tells whether it is measured.
    pub fn record(&mut self, transactions: &Vec<PendingTransaction>) -> (res: bool)
        requires
            old(self).found < MEASURED_BLOCKS,
            old(self).next > 0,
        ensures
            res == exists|i: int|
                0 <= i < transactions@.len() && (#[trigger] transactions@[i]).input@.len() > 0,
            final(self).next == old(self).next - 1,
            final(self).found == old(self).found + (if res {
                1int
            } else {
                0
            }),
    {
        let measured = has_contract_interactions(transactions);
        if measured {
            self.found = self.found + 1;
        }
        self.next = self.next - 1;
        measured
    }
}

/// The simulations that succeeded, in the order in which they ended.
pub open spec fn successes(outcomes: Seq<Option<SimulatedTransaction>>) -> Seq<
    SimulatedTransaction,
>
    decreases outcomes.len(),
{
    if outcomes.len() == 0 {
        Seq::empty()
    } else {
        match outcomes.last() {
            Some(simulation) => successes(outcomes.drop_last()).push(simulation),
            None => successes(outcomes.drop_last()),
        }
    }
}

/// Whether `list` is the access list of the given simulations, and the numbers
/// are those of `list`.
pub open spec fn are_stats_of(
    stats: BlockStats,
    list: BlockAccessListEncode,
    head: HeadContext,
    outcomes: Seq<Option<SimulatedTransaction>>,
) -> bool {
    &&& is_list_of(list, head, successes(outcomes))
    &&& stats.number == head.number
    &&& stats.tx_count == outcomes.len()
    &&& stats.success_count == successes(outcomes).len()
    &&& stats.fail_count == outcomes.len() - successes(outcomes).len()
    &&& stats.accounts == list.accounts@.len()
    &&& stats.slots == word(slot_total(list.accounts@))
    &&& stats.payload_size == encode(list.bep592_item()).len()
}

/// Merges the simulations of a block that succeeded. `None` stands for one
/// that failed. The time is set later, by `timed`.
pub fn measure_block(head: HeadContext, outcomes: Vec<Option<SimulatedTransaction>>) -> (res:
    BlockStats)
    ensures
        res.time_ms == 0,
        exists|list: BlockAccessListEncode| #[trigger]
            are_stats_of(res, list, head, outcomes@),
{
    let tx_count: usize = outcomes.len();
    let ghost all = outcomes@;
    let mut simulations: Vec<SimulatedTransaction> = Vec::new();
    let mut fail_count: usize = 0;
    for outcome in iter: outcomes
        invariant
            iter.seq() == all,
            tx_count == all.len(),
            iter.index() <= all.len(),
            simulations@ == successes(all.take(iter.index() as int)),
            fail_count + simulations@.len() == iter.index(),
    {
        proof {
            let n = iter.index() as int;
            assert(all.take(n + 1).drop_last() =~= all.take(n));
        }
        match outcome {
            Some(simulation) => {
                simulations.push(simulation);
            },
            None => {
                fail_count = fail_count + 1;
            },
        }
    }
    assert(all.take(all.len() as int) =~= all);
    let success_count: usize = simulations.len();
    let (list, slots, _reads, _writes) = merge_simulations(head, simulations);
    let payload = list.rlp_encode();
    let res = BlockStats {
        number: head.number,
        tx_count,
        success_count,
        fail_count,
        time_ms: 0,
        accounts: list.accounts.len(),
        slots,
        payload_size: payload.len(),
    };
    assert(are_stats_of(res, list, head, all));
    res
}

impl BlockStats {
    /// The same with the time that the block took.
    pub fn timed(self, time_ms: u128) -> (res: Self)
        ensures
            res == (BlockStats { time_ms, ..self }),
    {
        BlockStats { time_ms, ..self }
    }
}

/// The sum of a number over several blocks.
pub open spec fn sum_of(stats: Seq<BlockStats>, number: spec_fn(BlockStats) -> nat) -> nat
    decreases stats.len(),
{
    if stats.len() == 0 {
        0
    } else {
        sum_of(stats.drop_last(), number) + number(stats.last())
    }
}

/// What 128 bits hold of a sum of times.
pub open spec fn time_word(sum: nat) -> nat {
    sum % (u128::MAX as nat + 1)
}

fn add_to_time(total: u128, more: u128, Ghost(sum): Ghost<nat>) -> (res: u128)
    requires
        total == time_word(sum),
    ensures
        res == time_word(sum + more as nat),
{
    proof {
        let size = u128::MAX as int + 1;
        vstd::arithmetic::div_mod::lemma_add_mod_noop(sum as int, more as int, size);
        vstd::arithmetic::div_mod::lemma_small_mod(more as nat, size as nat);
        if total + more < size {
            vstd::arithmetic::div_mod::lemma_small_mod((total + more) as nat, size as nat);
        } else {
            vstd::arithmetic::div_mod::lemma_small_mod((total + more - size) as nat, size as nat);
            vstd::arithmetic::div_mod::lemma_mod_add_multiples_vanish(total + more - size, size);
        }
    }
    total.wrapping_add(more)
}

/// Sums up several blocks. Each sum is what a word holds of it.
pub fn totals(stats: &Vec<BlockStats>) -> (res: Totals)
    ensures
        res.txs == word(sum_of(stats@, |s: BlockStats| s.tx_count as nat)),
        res.success == word(sum_of(stats@, |s: BlockStats| s.success_count as nat)),
        res.fail == word(sum_of(stats@, |s: BlockStats| s.fail_count as nat)),
        res.time_ms == time_word(sum_of(stats@, |s: BlockStats| s.time_ms as nat)),
        res.accounts == word(sum_of(stats@, |s: BlockStats| s.accounts as nat)),
        res.slots == word(sum_of(stats@, |s: BlockStats| s.slots as nat)),
        res.size == word(sum_of(stats@, |s: BlockStats| s.payload_size as nat)),
{
    let ghost txs = |s: BlockStats| s.tx_count as nat;
    let ghost success = |s: BlockStats| s.success_count as nat;
    let ghost fail = |s: BlockStats| s.fail_count as nat;
    let ghost time = |s: BlockStats| s.time_ms as nat;
    let ghost accounts = |s: BlockStats| s.accounts as nat;
    let ghost slots = |s: BlockStats| s.slots as nat;
    let ghost size = |s: BlockStats| s.payload_size as nat;
    let mut res = Totals {
        txs: 0,
        success: 0,
        fail: 0,
        time_ms: 0,
        accounts: 0,
        slots: 0,
        size: 0,
    };
    proof {
        vstd::arithmetic::div_mod::lemma_small_mod(0, usize::MAX as nat + 1);
        vstd::arithmetic::div_mod::lemma_small_mod(0, u128::MAX as nat + 1);
    }
    let mut n: usize = 0;
    while n < stats.len()
        invariant
            n <= stats@.len(),
            txs == (|s: BlockStats| s.tx_count as nat),
            success == (|s: BlockStats| s.success_count as nat),
            fail == (|s: BlockStats| s.fail_count as nat),
            time == (|s: BlockStats| s.time_ms as nat),
            accounts == (|s: BlockStats| s.accounts as nat),
            slots == (|s: BlockStats| s.slots as nat),
            size == (|s: BlockStats| s.payload_size as nat),
            res.txs == word(sum_of(stats@.take(n as int), txs)),
            res.success == word(sum_of(stats@.take(n as int), success)),
            res.fail == word(sum_of(stats@.take(n as int), fail)),
            res.time_ms == time_word(sum_of(stats@.take(n as int), time)),
            res.accounts == word(sum_of(stats@.take(n as int), accounts)),
            res.slots == word(sum_of(stats@.take(n as int), slots)),
            res.size == word(sum_of(stats@.take(n as int), size)),
        decreases stats@.len() - n,
    {
        let ghost before = stats@.take(n as int);
        assert(stats@.take(n + 1).drop_last() =~= before);
        let block = stats[n];
        res =
        Totals {
            txs: add_to_word(res.txs, block.tx_count, Ghost(sum_of(before, txs))),
            success: add_to_word(res.success, block.success_count, Ghost(sum_of(before, success))),
            fail: add_to_word(res.fail, block.fail_count, Ghost(sum_of(before, fail))),
            time_ms: add_to_time(res.time_ms, block.time_ms, Ghost(sum_of(before, time))),
            accounts: add_to_word(res.accounts, block.accounts, Ghost(sum_of(before, accounts))),
            slots: add_to_word(res.slots, block.slots, Ghost(sum_of(before, slots))),
            size: add_to_word(res.size, block.payload_size, Ghost(sum_of(before, size))),
        };
        n = n + 1;
    }
    assert(stats@.take(n as int) =~= stats@);
    res
}

/// Of the outcomes those are kept that are simulations, in their order.
pub proof fn law_successes_are_kept(
    outcomes: Seq<Option<SimulatedTransaction>>,
    simulation: SimulatedTransaction,
)
    ensures
        successes(Seq::empty()) == Seq::<SimulatedTransaction>::empty(),
        successes(outcomes.push(Some(simulation))) == successes(outcomes).push(simulation),
        successes(outcomes.push(None)) == successes(outcomes),
{
    assert(outcomes.push(Some(simulation)).drop_last() =~= outcomes);
    assert(outcomes.push(None).drop_last() =~= outcomes);
}

/// A sum over several blocks grows by the number of each further one.
pub proof fn law_sums_add_up(
    stats: Seq<BlockStats>,
    block: BlockStats,
    number: spec_fn(BlockStats) -> nat,
)
    ensures
        sum_of(Seq::empty(), number) == 0,
        sum_of(stats.push(block), number) == sum_of(stats, number) + number(block),
{
    assert(stats.push(block).drop_last() =~= stats);
}

/// 128 bits hold the whole of every sum of times that fits in them.
pub proof fn law_sums_of_times_are_held(sum: nat)
    requires
        sum <= u128::MAX,
    ensures
        time_word(sum) == sum,
{
    vstd::arithmetic::div_mod::lemma_small_mod(sum, u128::MAX as nat + 1);
}

proof fn lemma_successes(outcomes: Seq<Option<SimulatedTransaction>>)
    ensures
        successes(outcomes).len() == outcomes.filter(
            |o: Option<SimulatedTransaction>| o is Some,
        ).len(),
    decreases outcomes.len(),
{
    reveal(Seq::filter);
    if outcomes.len() > 0 {
        lemma_successes(outcomes.drop_last());
    }
}

/// The numbers of a block are those of its transactions, those that were simulated
/// and those that failed, and those of its access list: accounts, slots, and bytes
/// of the payload.
pub proof fn law_stats_tell_what_was_measured(
    stats: BlockStats,
    list: BlockAccessListEncode,
    head: HeadContext,
    outcomes: Seq<Option<SimulatedTransaction>>,
)
    requires
        are_stats_of(stats, list, head, outcomes),
    ensures
        stats.number == head.number,
        stats.tx_count == outcomes.len(),
        stats.success_count == outcomes.filter(|o: Option<SimulatedTransaction>| o is Some).len(),
        stats.success_count + stats.fail_count == outcomes.len(),
        stats.accounts == list.accounts@.len(),
        stats.slots == all_slots(list.accounts@).len() % (usize::MAX as nat + 1),
        stats.payload_size == encode(list.bep592_item()).len(),
        is_list_of(list, head, successes(outcomes)),
{
    lemma_successes(outcomes);
    law_total_is_number_of_slots(list.accounts@, stats.slots);
}

/// Five blocks are measured.
pub proof fn law_five_blocks_are_measured()
    ensures
        MEASURED_BLOCKS == 5,
{
}

} // verus!
