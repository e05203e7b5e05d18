//! The chain: blocks, the queue of pending transactions, the unspent-output
//! ledger, and the mining-reward policy under a fixed supply cap.

use crate::block::{no_nonce_fits, Block};
use crate::encoding::meets_difficulty;
use crate::crypto::clock_millis;
use crate::ledger::{map_balance, credited, debited, spent_by, OutPoint, OutputModel, UTXOPool};
use crate::transaction::{
    check_outcome, input_authorized, outputs_value, sum_outputs, tx_id, valid_against, Transaction, TxError, TxInput,
    TxOutput,
};
use vstd::prelude::*;

verus! {

/// The most units that can ever be minted.
pub const TOTAL_SUPPLY: u64 = 21_000_000;

/// The ledger after a transaction settles: its inputs spent, its outputs credited.
pub open spec fn applied(m: Map<OutPoint, OutputModel>, t: Transaction) -> Map<OutPoint, OutputModel> {
    credited(debited(m, t.inputs@), tx_id(t), t.outputs@)
}

/// The ledger after a batch settles in order: each transaction that is valid
/// against the ledger left by those before it is applied, the others dropped.
pub open spec fn settle(m: Map<OutPoint, OutputModel>, txs: Seq<Transaction>) -> Map<
    OutPoint,
    OutputModel,
>
    decreases txs.len(),
{
    if txs.len() == 0 {
        m
    } else {
        let before = settle(m, txs.drop_last());
        if valid_against(txs.last(), before) {
            applied(before, txs.last())
        } else {
            before
        }
    }
}

/// The transactions of a batch that settle, in order.
pub open spec fn accepted(m: Map<OutPoint, OutputModel>, txs: Seq<Transaction>) -> Seq<Transaction>
    decreases txs.len(),
{
    if txs.len() == 0 {
        Seq::empty()
    } else {
        let before = accepted(m, txs.drop_last());
        if valid_against(txs.last(), settle(m, txs.drop_last())) {
            before.push(txs.last())
        } else {
            before
        }
    }
}

/// The previous-hash sentinel of the genesis block.
pub open spec fn genesis_previous() -> Seq<char> {
    seq!['0']
}

/// Block `i` points at the block before it, or at the sentinel when it is the genesis block.
pub open spec fn linked(blocks: Seq<Block>, i: int) -> bool {
    if i == 0 {
        blocks[0].previous_hash@ == genesis_previous()
    } else {
        blocks[i].previous_hash@ == blocks[i - 1].hash@
    }
}

/// A sound chain: not empty, and each block sits at its index, carries the
/// right hash, meets the difficulty and is linked to the block before it.
pub open spec fn chain_valid(blocks: Seq<Block>, d: nat) -> bool {
    &&& blocks.len() >= 1
    &&& forall|i: int|
        0 <= i < blocks.len() ==> {
            &&& (#[trigger] blocks[i]).index == i
            &&& blocks[i].mined(d)
            &&& linked(blocks, i)
        }
}

proof fn lemma_debit_removes(m: Map<OutPoint, OutputModel>, ins: Seq<TxInput>, k: int)
    requires
        0 <= k < ins.len(),
    ensures
        !debited(m, ins).contains_key(spent_by(ins[k])),
    decreases ins.len(),
{
    if k < ins.len() - 1 {
        lemma_debit_removes(m, ins.drop_last(), k);
        assert(ins.drop_last()[k] == ins[k]);
    }
}

/// No transaction of the batch has an id equal to the origin id of an output
/// that some transaction of the batch spends (which only a digest collision gives).
pub open spec fn ids_fresh(txs: Seq<Transaction>) -> bool {
    forall|a: int, b: int, k: int|
        0 <= a < txs.len() && 0 <= b < txs.len() && 0 <= k < txs[b].inputs@.len() ==> tx_id(
            #[trigger] txs[a],
        ) != (#[trigger] txs[b].inputs@[k]).prev_tx@
}

proof fn lemma_debit_subset(m: Map<OutPoint, OutputModel>, ins: Seq<TxInput>, x: OutPoint)
    requires
        debited(m, ins).contains_key(x),
    ensures
        m.contains_key(x),
    decreases ins.len(),
{
    if ins.len() > 0 {
        lemma_debit_subset(m, ins.drop_last(), x);
    }
}

proof fn lemma_accepted_from(m: Map<OutPoint, OutputModel>, txs: Seq<Transaction>, i: int)
    requires
        0 <= i < accepted(m, txs).len(),
    ensures
        exists|a: int| 0 <= a < txs.len() && accepted(m, txs)[i] == txs[a],
    decreases txs.len(),
{
    let p = txs.drop_last();
    if i < accepted(m, p).len() {
        lemma_accepted_from(m, p, i);
        let a = choose|a: int| 0 <= a < p.len() && accepted(m, p)[i] == p[a];
        assert(txs[a] == p[a]);
    } else {
        assert(accepted(m, txs)[i] == txs[txs.len() - 1]);
    }
}

/// Every output spent by a settled transaction of the batch is gone from the
/// ledger that settling leaves.
proof fn lemma_spent_absent(m: Map<OutPoint, OutputModel>, txs: Seq<Transaction>, i: int, k: int)
    requires
        ids_fresh(txs),
        0 <= i < accepted(m, txs).len(),
        0 <= k < accepted(m, txs)[i].inputs@.len(),
    ensures
        !settle(m, txs).contains_key(spent_by(accepted(m, txs)[i].inputs@[k])),
    decreases txs.len(),
{
    let p = txs.drop_last();
    let t = txs.last();
    let m0 = settle(m, p);
    assert(ids_fresh(p)) by {
        assert forall|a: int, b: int, j: int|
            0 <= a < p.len() && 0 <= b < p.len() && 0 <= j < p[b].inputs@.len() implies tx_id(
            #[trigger] p[a],
        ) != (#[trigger] p[b].inputs@[j]).prev_tx@ by {
            assert(p[a] == txs[a] && p[b] == txs[b]);
        }
    }
    let x = spent_by(accepted(m, txs)[i].inputs@[k]);
    lemma_accepted_from(m, txs, i);
    let ai = choose|a: int| 0 <= a < txs.len() && accepted(m, txs)[i] == txs[a];
    assert(tx_id(txs[txs.len() - 1]) != txs[ai].inputs@[k].prev_tx@);
    if valid_against(t, m0) {
        if i < accepted(m, p).len() {
            lemma_spent_absent(m, p, i, k);
            if debited(m0, t.inputs@).contains_key(x) {
                lemma_debit_subset(m0, t.inputs@, x);
            }
        } else {
            lemma_debit_removes(m0, t.inputs@, k);
        }
    } else {
        lemma_spent_absent(m, p, i, k);
    }
}

/// No two transactions that settle from one batch spend the same output: a
/// second spend of an output fails when it is checked again at mining time.
/// Left out is a batch in which a transaction's own id equals the origin id
/// of an output that the batch spends. Every settled transaction has inputs,
/// and its id is the digest of a serialization that holds those origin ids,
/// so such a batch needs a SHA-256 collision.
pub proof fn lemma_no_double_spend(m: Map<OutPoint, OutputModel>, txs: Seq<Transaction>)
    requires
        ids_fresh(txs),
    ensures
        forall|i: int, j: int, ki: int, kj: int|
            0 <= i < j < accepted(m, txs).len() && 0 <= ki < accepted(m, txs)[i].inputs@.len() && 0
                <= kj < accepted(m, txs)[j].inputs@.len() ==> spent_by(
                #[trigger] accepted(m, txs)[i].inputs@[ki],
            ) != spent_by(#[trigger] accepted(m, txs)[j].inputs@[kj]),
    decreases txs.len(),
{
    if txs.len() > 0 {
        let p = txs.drop_last();
        let t = txs.last();
        let m0 = settle(m, p);
        assert(ids_fresh(p)) by {
            assert forall|a: int, b: int, j: int|
                0 <= a < p.len() && 0 <= b < p.len() && 0 <= j < p[b].inputs@.len() implies tx_id(
                #[trigger] p[a],
            ) != (#[trigger] p[b].inputs@[j]).prev_tx@ by {
                assert(p[a] == txs[a] && p[b] == txs[b]);
            }
        }
        lemma_no_double_spend(m, p);
        let acc = accepted(m, txs);
        let acc0 = accepted(m, p);
        assert forall|i: int, j: int, ki: int, kj: int|
            0 <= i < j < acc.len() && 0 <= ki < acc[i].inputs@.len() && 0 <= kj
                < acc[j].inputs@.len() implies spent_by(#[trigger] acc[i].inputs@[ki]) != spent_by(
            #[trigger] acc[j].inputs@[kj],
        ) by {
            if valid_against(t, m0) {
                assert(acc == acc0.push(t));
                if j < acc0.len() {
                    assert(acc[i] == acc0[i] && acc[j] == acc0[j]);
                } else {
                    assert(acc[j] == t);
                    assert(acc[i] == acc0[i]);
                    lemma_spent_absent(m, p, i, ki);
                    assert(input_authorized(m0, t.inputs@[kj]));
                }
            } else {
                assert(acc == acc0);
                assert(acc[i] == acc0[i] && acc[j] == acc0[j]);
            }
        }
    }
}

/// A sound chain, which every constructor and every mining step leaves, passes validation.
pub proof fn lemma_sound_chain_validates(c: Blockchain)
    requires
        c.wf(),
    ensures
        chain_valid(c.chain@, c.difficulty as nat),
        replay(c.chain@, c.mining_reward) is Some,
{
}

/// Replacing a mined block by one whose transactions or reward record do not
/// replay on the ledger the blocks before it leave makes validation fail.
/// A replacement that still replays (say, a different recipient on an
/// output) is not caught: the block hash covers only the header.
pub proof fn lemma_transactions_tamper_detected(blocks: Seq<Block>, reward: u64, i: int, b: Block)
    requires
        1 <= i < blocks.len(),
        replay(blocks.subrange(0, i), reward) matches Some((m, t)) && replay_block(m, t, b, reward) is None,
    ensures
        replay(blocks.update(i, b), reward) is None,
{
    let u = blocks.update(i, b);
    let s = u.subrange(0, i + 1);
    assert(s.drop_last() =~= blocks.subrange(0, i));
    assert(s.last() == b);
    lemma_replay_prefix_none(u, reward, i + 1);
}

/// Changing the previous hash of any one block of a valid chain makes it fail validation.
pub proof fn lemma_previous_hash_tamper_detected(blocks: Seq<Block>, d: nat, i: int, b: Block)
    requires
        chain_valid(blocks, d),
        0 <= i < blocks.len(),
        b.previous_hash@ != blocks[i].previous_hash@,
    ensures
        !chain_valid(blocks.update(i, b), d),
{
    let t = blocks.update(i, b);
    assert(t[i] == b);
    assert(blocks[i].index == i && blocks[i].mined(d) && linked(blocks, i));
    if i > 0 {
        assert(t[i - 1] == blocks[i - 1]);
    }
    assert(!linked(t, i));
}

proof fn lemma_apply_prefix_none(m: Map<OutPoint, OutputModel>, txs: Seq<Transaction>, j: int)
    requires
        0 <= j <= txs.len(),
        apply_all(m, txs.subrange(0, j)) is None,
    ensures
        apply_all(m, txs) is None,
    decreases txs.len(),
{
    if j < txs.len() {
        let p = txs.drop_last();
        assert(p.subrange(0, j) =~= txs.subrange(0, j));
        lemma_apply_prefix_none(m, p, j);
    } else {
        assert(txs.subrange(0, j) =~= txs);
    }
}

proof fn lemma_mint_prefix_none(txs: Seq<Transaction>, j: int)
    requires
        0 <= j <= txs.len(),
        mint_all(txs.subrange(0, j)) is None,
    ensures
        mint_all(txs) is None,
    decreases txs.len(),
{
    if j < txs.len() {
        let p = txs.drop_last();
        assert(p.subrange(0, j) =~= txs.subrange(0, j));
        lemma_mint_prefix_none(p, j);
    } else {
        assert(txs.subrange(0, j) =~= txs);
    }
}

proof fn lemma_replay_prefix_none(blocks: Seq<Block>, reward: u64, j: int)
    requires
        1 <= j <= blocks.len(),
        replay(blocks.subrange(0, j), reward) is None,
    ensures
        replay(blocks, reward) is None,
    decreases blocks.len(),
{
    if j < blocks.len() {
        let p = blocks.drop_last();
        assert(p.subrange(0, j) =~= blocks.subrange(0, j));
        lemma_replay_prefix_none(p, reward, j);
    } else {
        assert(blocks.subrange(0, j) =~= blocks);
    }
}

/// Replays the genesis block's minting transactions onto a fresh ledger.
fn replay_genesis(txs: &Vec<Transaction>) -> (r: Option<(UTXOPool, u64)>)
    ensures
        match r {
            Some((p, t)) => p.wf() && mint_all(txs@) == Some((p@, t as nat)),
            None => mint_all(txs@) is None,
        },
{
    let mut pool = UTXOPool::new();
    let mut total: u64 = 0;
    let mut k: usize = 0;
    assert(txs@.subrange(0, 0) =~= Seq::<Transaction>::empty());
    while k < txs.len()
        invariant
            pool.wf(),
            k <= txs@.len(),
            total <= TOTAL_SUPPLY,
            mint_all(txs@.subrange(0, k as int)) == Some((pool@, total as nat)),
        decreases txs@.len() - k,
    {
        let t = &txs[k];
        proof {
            assert(txs@.subrange(0, k + 1).drop_last() =~= txs@.subrange(0, k as int));
        }
        if t.inputs.len() != 0 {
            proof { lemma_mint_prefix_none(txs@, k + 1); }
            return None;
        }
        let v = sum_outputs(&t.outputs);
        if v > (TOTAL_SUPPLY - total) as u128 {
            proof { lemma_mint_prefix_none(txs@, k + 1); }
            return None;
        }
        let ghost before = pool@;
        pool.add_transaction(t.id(), copy_outputs(&t.outputs));
        assert(pool@ =~= credited(before, tx_id(*t), t.outputs@));
        total = total + v as u64;
        k = k + 1;
    }
    assert(txs@.subrange(0, txs@.len() as int) =~= txs@);
    Some((pool, total))
}

/// Applies the first `len` transactions of a block to `pool`, each checked
/// against the ledger the ones before it left; false where one does not hold.
fn apply_body(pool: &mut UTXOPool, txs: &Vec<Transaction>, len: usize) -> (r: bool)
    requires
        old(pool).wf(),
        len <= txs@.len(),
    ensures
        final(pool).wf(),
        r ==> apply_all(old(pool)@, txs@.subrange(0, len as int)) == Some(final(pool)@),
        !r ==> apply_all(old(pool)@, txs@.subrange(0, len as int)) is None,
{
    let ghost m = pool@;
    let mut k: usize = 0;
    assert(txs@.subrange(0, 0) =~= Seq::<Transaction>::empty());
    while k < len
        invariant
            pool.wf(),
            k <= len <= txs@.len(),
            m == old(pool)@,
            apply_all(m, txs@.subrange(0, k as int)) == Some(pool@),
        decreases len - k,
    {
        let t = &txs[k];
        proof {
            assert(txs@.subrange(0, k + 1).drop_last() =~= txs@.subrange(0, k as int));
        }
        match t.check(pool) {
            Ok(()) => {
                let ghost before = pool@;
                let debit = pool.remove_spent_utxos(&t.inputs);
                assert(debit is Ok);
                pool.add_transaction(t.id(), copy_outputs(&t.outputs));
                assert(pool@ =~= applied(before, *t));
            },
            Err(_) => {
                proof {
                    assert(txs@.subrange(0, k + 1).last() == *t);
                    assert(apply_all(m, txs@.subrange(0, k + 1)) is None);
                    let sub = txs@.subrange(0, len as int);
                    assert(sub.subrange(0, k + 1) =~= txs@.subrange(0, k + 1));
                    lemma_apply_prefix_none(m, sub, k + 1);
                }
                return false;
            },
        }
        k = k + 1;
    }
    true
}

/// Why the chain could not do what was asked.
#[derive(Debug, PartialEq, Eq, Structural)]
pub enum ChainError {
    /// No 64-bit nonce gives the block a hash that meets the difficulty.
    NonceSpaceExhausted,
    /// The genesis allocations exceed the supply cap.
    SupplyCapExceeded,
}

/// A pending transaction dropped at mining time, by its position in the queue.
#[derive(Debug)]
pub struct Rejection {
    pub position: usize,
    pub reason: TxError,
}

/// What a call to mine did.
#[derive(Debug)]
pub enum MineOutcome {
    /// The queue was empty; nothing changed.
    NothingToMine,
    /// A block was appended. `reward_paid` is false where the reward would
    /// have passed the supply cap.
    Mined { index: u64, rejected: Vec<Rejection>, reward_paid: bool },
}

/// Applies a list of transactions in order, each of which must be valid
/// against the ledger that those before it left; `None` where one is not.
pub open spec fn apply_all(m: Map<OutPoint, OutputModel>, txs: Seq<Transaction>) -> Option<
    Map<OutPoint, OutputModel>,
>
    decreases txs.len(),
{
    if txs.len() == 0 {
        Some(m)
    } else {
        match apply_all(m, txs.drop_last()) {
            Some(m1) => if valid_against(txs.last(), m1) {
                Some(applied(m1, txs.last()))
            } else {
                None
            },
            None => None,
        }
    }
}

/// A reward record: no inputs and a single output of the reward amount.
pub open spec fn is_reward(t: Transaction, amount: u64) -> bool {
    &&& t.inputs@.len() == 0
    &&& t.outputs@.len() == 1
    &&& t.outputs@[0].amount == amount
}

/// Replays a mined block on the ledger `m` with `total` minted so far. Where
/// the reward fits under the cap the block must end with its reward record,
/// paid at `(block hash, 0)`; the other transactions must all settle in order.
pub open spec fn replay_block(m: Map<OutPoint, OutputModel>, total: nat, b: Block, reward: u64) -> Option<
    (Map<OutPoint, OutputModel>, nat),
> {
    let txs = b.transactions@;
    if total + reward <= TOTAL_SUPPLY {
        if txs.len() > 0 && is_reward(txs.last(), reward) {
            match apply_all(m, txs.drop_last()) {
                Some(m1) => Some(
                    (m1.insert((b.hash@, 0), (reward, txs.last().outputs@[0].recipient@)), (total + reward) as nat),
                ),
                None => None,
            }
        } else {
            None
        }
    } else {
        match apply_all(m, txs) {
            Some(m1) => Some((m1, total)),
            None => None,
        }
    }
}

/// Replays the genesis block: each transaction mints (has no inputs), its
/// outputs are credited under its id, and the total stays under the cap.
pub open spec fn mint_all(txs: Seq<Transaction>) -> Option<(Map<OutPoint, OutputModel>, nat)>
    decreases txs.len(),
{
    if txs.len() == 0 {
        Some((Map::empty(), 0))
    } else {
        match mint_all(txs.drop_last()) {
            Some((m, t)) => if txs.last().inputs@.len() == 0 && t + outputs_value(txs.last().outputs@)
                <= TOTAL_SUPPLY {
                Some(
                    (
                        credited(m, tx_id(txs.last()), txs.last().outputs@),
                        (t + outputs_value(txs.last().outputs@)) as nat,
                    ),
                )
            } else {
                None
            },
            None => None,
        }
    }
}

/// The ledger and minted total that replaying a whole chain from nothing gives.
pub open spec fn replay(blocks: Seq<Block>, reward: u64) -> Option<(Map<OutPoint, OutputModel>, nat)>
    decreases blocks.len(),
{
    if blocks.len() == 0 {
        None
    } else if blocks.len() == 1 {
        mint_all(blocks[0].transactions@)
    } else {
        match replay(blocks.drop_last(), reward) {
            Some((m, t)) => replay_block(m, t, blocks.last(), reward),
            None => None,
        }
    }
}

/// Settled transactions, applied in order, give the ledger that settling gives.
proof fn lemma_apply_accepted(m: Map<OutPoint, OutputModel>, txs: Seq<Transaction>)
    ensures
        apply_all(m, accepted(m, txs)) == Some(settle(m, txs)),
    decreases txs.len(),
{
    if txs.len() > 0 {
        let p = txs.drop_last();
        lemma_apply_accepted(m, p);
        if valid_against(txs.last(), settle(m, p)) {
            assert(accepted(m, txs).drop_last() =~= accepted(m, p));
        }
    }
}

/// What a mining step that appended a block did: the block sits at the next
/// index, linked to the last one and mined from nonce 0; it holds the pending
/// transactions that still settle, in order; the others are reported by
/// position, in order; the queue is emptied; and the reward is paid at
/// `(block hash, 0)` exactly when it keeps the total under the cap, and then
/// recorded as the block's last transaction.
pub open spec fn mined_step(
    pre: Blockchain,
    post: Blockchain,
    miner: Seq<char>,
    index: u64,
    rejected: Seq<Rejection>,
    reward_paid: bool,
) -> bool {
    let b = post.chain@.last();
    let settled = settle(pre.utxos@, pre.pending_transactions@);
    let pay = pre.total_mined + pre.mining_reward <= TOTAL_SUPPLY;
    &&& pre.pending_transactions@.len() > 0
    &&& post.chain@ == pre.chain@.push(b)
    &&& index == pre.chain@.len()
    &&& b.index == index
    &&& b.previous_hash@ == pre.chain@.last().hash@
    &&& b.hash@.len() == 64
    &&& b.first_fit_from(0, pre.difficulty as nat)
    &&& pay ==> b.transactions@.drop_last() == accepted(pre.utxos@, pre.pending_transactions@)
        && b.transactions@.len() > 0 && is_reward(b.transactions@.last(), pre.mining_reward)
        && b.transactions@.last().outputs@[0].recipient@ == miner
    &&& !pay ==> b.transactions@ == accepted(pre.utxos@, pre.pending_transactions@)
    &&& rejected.len() + accepted(pre.utxos@, pre.pending_transactions@).len()
        == pre.pending_transactions@.len()
    &&& forall|i: int, j: int|
        0 <= i < j < rejected.len() ==> (#[trigger] rejected[i]).position < (
        #[trigger] rejected[j]).position
    &&& forall|j: int|
        0 <= j < rejected.len() ==> {
            let k = (#[trigger] rejected[j]).position as int;
            &&& k < pre.pending_transactions@.len()
            &&& !valid_against(
                pre.pending_transactions@[k],
                settle(pre.utxos@, pre.pending_transactions@.subrange(0, k)),
            )
        }
    &&& post.pending_transactions@.len() == 0
    &&& reward_paid == pay
    &&& pay ==> post.utxos@ == settled.insert((b.hash@, 0), (pre.mining_reward, miner))
        && post.total_mined == pre.total_mined + pre.mining_reward
    &&& !pay ==> post.utxos@ == settled && post.total_mined == pre.total_mined
}

/// The chain and the state it owns.
#[derive(Debug)]
pub struct Blockchain {
    pub chain: Vec<Block>,
    pub difficulty: usize,
    pub pending_transactions: Vec<Transaction>,
    pub mining_reward: u64,
    pub utxos: UTXOPool,
    pub total_mined: u64,
}

/// A copy of a list of outputs.
fn copy_outputs(outs: &Vec<TxOutput>) -> (r: Vec<TxOutput>)
    ensures
        r@.len() == outs@.len(),
        forall|k: int| 0 <= k < outs@.len() ==> (#[trigger] r@[k])@ == outs@[k]@,
{
    let mut r: Vec<TxOutput> = Vec::new();
    let mut k: usize = 0;
    while k < outs.len()
        invariant
            k <= outs@.len(),
            r@.len() == k,
            forall|j: int| 0 <= j < k ==> (#[trigger] r@[j])@ == outs@[j]@,
        decreases outs@.len() - k,
    {
        r.push(outs[k].copy());
        k = k + 1;
    }
    r
}

impl Blockchain {
    /// The chain is sound, its ledger well formed, and the supply cap respected.
    pub open spec fn wf(&self) -> bool {
        &&& self.utxos.wf()
        &&& self.total_mined <= TOTAL_SUPPLY
        &&& chain_valid(self.chain@, self.difficulty as nat)
        &&& replay(self.chain@, self.mining_reward) == Some((self.utxos@, self.total_mined as nat))
    }

    /// Mines the genesis block, holding `transactions`, at `timestamp`.
    fn genesis_at(difficulty: usize, timestamp: u128, transactions: Vec<Transaction>) -> (r: Result<
        Block,
        ChainError,
    >)
        ensures
            r matches Ok(b) ==> {
                &&& chain_valid(seq![b], difficulty as nat)
                &&& b.transactions == transactions
                &&& b.first_fit_from(0, difficulty as nat)
            },
            r is Err ==> r == Err::<Block, ChainError>(ChainError::NonceSpaceExhausted)
                && no_nonce_fits(0, timestamp, genesis_previous(), difficulty as nat),
            difficulty == 0 ==> r is Ok,
            r matches Ok(b) ==> b.hash@.len() == 64,
    {
        let zero = String::from_str("0");
        proof {
            reveal_strlit("0");
        }
        assert(zero@ =~= genesis_previous());
        match Block::mine_at(0, timestamp, zero, transactions, difficulty) {
            Some(b) => {
                assert(seq![b][0] == b);
                Ok(b)
            },
            None => Err(ChainError::NonceSpaceExhausted),
        }
    }

    /// Mines the genesis block onto an empty chain, with no transactions.
    pub fn create_genesis_block(&mut self) -> (r: Result<(), ChainError>)
        requires
            old(self).chain@.len() == 0,
        ensures
            r is Err ==> *final(self) == *old(self) && r == Err::<(), ChainError>(
                ChainError::NonceSpaceExhausted,
            ) && exists|t: u128|
                #[trigger] no_nonce_fits(0, t, genesis_previous(), old(self).difficulty as nat),
            old(self).difficulty == 0 ==> r is Ok,
            r is Ok ==> {
                &&& chain_valid(final(self).chain@, final(self).difficulty as nat)
                &&& final(self).chain@.len() == 1
                &&& final(self).chain@[0].transactions@.len() == 0
                &&& final(self).chain@[0].first_fit_from(0, final(self).difficulty as nat)
                &&& final(self).chain@[0].hash@.len() == 64
            },
            final(self).difficulty == old(self).difficulty,
            final(self).pending_transactions == old(self).pending_transactions,
            final(self).mining_reward == old(self).mining_reward,
            final(self).utxos == old(self).utxos,
            final(self).total_mined == old(self).total_mined,
    {
        match Blockchain::genesis_at(self.difficulty, clock_millis(), Vec::new()) {
            Ok(b) => {
                self.chain.push(b);
                assert(self.chain@ =~= seq![b]);
                Ok(())
            },
            Err(e) => Err(e),
        }
    }

    /// A chain holding only a mined genesis block with no transactions, an
    /// empty ledger and nothing minted.
    pub fn new(difficulty: usize, mining_reward: u64) -> (r: Result<Blockchain, ChainError>)
        ensures
            r matches Ok(c) ==> {
                &&& c.wf()
                &&& c.chain@.len() == 1
                &&& c.chain@[0].transactions@.len() == 0
                &&& c.chain@[0].first_fit_from(0, difficulty as nat)
                &&& c.chain@[0].hash@.len() == 64
                &&& c.difficulty == difficulty
                &&& c.mining_reward == mining_reward
                &&& c.pending_transactions@.len() == 0
                &&& c.utxos@ == Map::<OutPoint, OutputModel>::empty()
                &&& c.total_mined == 0
            },
            r is Err ==> r == Err::<Blockchain, ChainError>(ChainError::NonceSpaceExhausted)
                && exists|t: u128| #[trigger] no_nonce_fits(0, t, genesis_previous(), difficulty as nat),
            difficulty == 0 ==> r is Ok,
    {
        let mut c = Blockchain {
            chain: Vec::new(),
            difficulty,
            pending_transactions: Vec::new(),
            mining_reward,
            utxos: UTXOPool::new(),
            total_mined: 0,
        };
        match c.create_genesis_block() {
            Ok(()) => Ok(c),
            Err(e) => Err(e),
        }
    }

    /// A chain whose genesis block holds one minting transaction (no inputs)
    /// that pays `allocations`; those outputs are the ledger and count as minted.
    pub fn with_allocations(difficulty: usize, mining_reward: u64, allocations: Vec<TxOutput>) -> (r:
        Result<Blockchain, ChainError>)
        ensures
            r == Err::<Blockchain, ChainError>(ChainError::SupplyCapExceeded) <==> outputs_value(
                allocations@,
            ) > TOTAL_SUPPLY,
            r matches Ok(c) ==> {
                &&& c.wf()
                &&& c.chain@.len() == 1
                &&& c.chain@[0].transactions@.len() == 1
                &&& c.chain@[0].transactions@[0].inputs@.len() == 0
                &&& c.chain@[0].transactions@[0].outputs == allocations
                &&& c.chain@[0].first_fit_from(0, difficulty as nat)
                &&& c.chain@[0].hash@.len() == 64
                &&& c.difficulty == difficulty
                &&& c.mining_reward == mining_reward
                &&& c.pending_transactions@.len() == 0
                &&& c.utxos@ == credited(
                    Map::empty(),
                    tx_id(c.chain@[0].transactions@[0]),
                    allocations@,
                )
                &&& c.total_mined == outputs_value(allocations@)
            },
            r == Err::<Blockchain, ChainError>(ChainError::NonceSpaceExhausted) ==> exists|t: u128|
                #[trigger] no_nonce_fits(0, t, genesis_previous(), difficulty as nat),
            r is Err ==> r == Err::<Blockchain, ChainError>(ChainError::SupplyCapExceeded) || r
                == Err::<Blockchain, ChainError>(ChainError::NonceSpaceExhausted),
            difficulty == 0 && outputs_value(allocations@) <= TOTAL_SUPPLY ==> r is Ok,
    {
        let total = sum_outputs(&allocations);
        if total > TOTAL_SUPPLY as u128 {
            return Err(ChainError::SupplyCapExceeded);
        }
        let mut utxos = UTXOPool::new();
        let outs = copy_outputs(&allocations);
        let mint = Transaction { inputs: Vec::new(), outputs: allocations };
        utxos.add_transaction(mint.id(), outs);
        assert(utxos@ =~= credited(Map::empty(), tx_id(mint), mint.outputs@));
        let ghost m = mint;
        let mut txs: Vec<Transaction> = Vec::new();
        txs.push(mint);
        match Blockchain::genesis_at(difficulty, clock_millis(), txs) {
            Ok(b) => {
                let mut chain: Vec<Block> = Vec::new();
                chain.push(b);
                assert(chain@ =~= seq![b]);
                assert(b.transactions@[0] == m);
                assert(b.transactions@.drop_last() =~= Seq::<Transaction>::empty());
                assert(mint_all(Seq::<Transaction>::empty()) == Some((Map::<OutPoint, OutputModel>::empty(), 0nat)));
                assert(chain@[0] == b);
                Ok(Blockchain {
                    chain,
                    difficulty,
                    pending_transactions: Vec::new(),
                    mining_reward,
                    utxos,
                    total_mined: total as u64,
                })
            },
            Err(e) => Err(e),
        }
    }

    /// Queues a transaction that is valid against the current ledger; the
    /// ledger is not touched until the transaction is mined.
    pub fn create_transaction(&mut self, transaction: Transaction) -> (r: Result<(), TxError>)
        requires
            old(self).wf(),
        ensures
            final(self).wf(),
            r is Ok <==> valid_against(transaction, old(self).utxos@),
            r == check_outcome(transaction, old(self).utxos@),
            r is Ok ==> final(self).pending_transactions@ == old(self).pending_transactions@.push(
                transaction,
            ),
            r is Err ==> final(self).pending_transactions == old(self).pending_transactions,
            final(self).chain == old(self).chain,
            final(self).utxos == old(self).utxos,
            final(self).total_mined == old(self).total_mined,
            final(self).difficulty == old(self).difficulty,
            final(self).mining_reward == old(self).mining_reward,
    {
        match transaction.check(&self.utxos) {
            Ok(()) => {
                self.pending_transactions.push(transaction);
                Ok(())
            },
            Err(e) => Err(e),
        }
    }

    /// Mines the pending transactions into a new block stamped `timestamp`.
    /// Each is checked again, in queue order, against the ledger as the ones
    /// before it left it; those that still hold are settled and go into the
    /// block, the others are reported. The miner is paid `mining_reward` at
    /// `(block hash, 0)` unless that would pass the supply cap; a paid reward
    /// is recorded as the block's last transaction. With nothing
    /// pending, or where no nonce fits, nothing changes.
    #[verifier::rlimit(50)]
    pub fn mine_pending_at(&mut self, miner_address: String, timestamp: u128) -> (r: Result<
        MineOutcome,
        ChainError,
    >)
        requires
            old(self).wf(),
        ensures
            final(self).wf(),
            final(self).difficulty == old(self).difficulty,
            final(self).mining_reward == old(self).mining_reward,
            old(self).pending_transactions@.len() == 0 ==> r matches Ok(MineOutcome::NothingToMine),
            r matches Ok(MineOutcome::NothingToMine) ==> *final(self) == *old(self),
            r is Err ==> {
                &&& *final(self) == *old(self)
                &&& r == Err::<MineOutcome, ChainError>(ChainError::NonceSpaceExhausted)
                &&& no_nonce_fits(
                    old(self).chain@.len() as u64,
                    timestamp,
                    old(self).chain@.last().hash@,
                    old(self).difficulty as nat,
                )
            },
            r matches Ok(MineOutcome::Mined { index, rejected, reward_paid }) ==> {
                &&& mined_step(*old(self), *final(self), miner_address@, index, rejected@, reward_paid)
                &&& final(self).chain@.last().timestamp == timestamp
            },
            r matches Ok(MineOutcome::NothingToMine) ==> old(self).pending_transactions@.len() == 0,
            old(self).difficulty == 0 ==> r is Ok,
    {
        if self.pending_transactions.len() == 0 {
            return Ok(MineOutcome::NothingToMine);
        }
        let index = self.chain.len() as u64;
        let previous_hash = self.get_latest_block().hash.clone();
        let mut block = match Block::mine_at(
            index,
            timestamp,
            previous_hash,
            Vec::new(),
            self.difficulty,
        ) {
            Some(b) => b,
            None => {
                return Err(ChainError::NonceSpaceExhausted);
            },
        };
        let ghost m = self.utxos@;
        let mut pending: Vec<Transaction> = Vec::new();
        std::mem::swap(&mut pending, &mut self.pending_transactions);
        let ghost txs = pending@;
        let n = pending.len();
        let mut taken: Vec<Transaction> = Vec::new();
        let mut rejected: Vec<Rejection> = Vec::new();
        let mut k: usize = 0;
        while k < n
            invariant
                self.utxos.wf(),
                self.chain == old(self).chain,
                self.total_mined == old(self).total_mined,
                self.difficulty == old(self).difficulty,
                self.mining_reward == old(self).mining_reward,
                self.pending_transactions@.len() == 0,
                old(self).wf(),
                txs == old(self).pending_transactions@,
                m == old(self).utxos@,
                n == txs.len(),
                k <= n,
                pending@ == txs.subrange(k as int, n as int),
                self.utxos@ == settle(m, txs.subrange(0, k as int)),
                taken@ == accepted(m, txs.subrange(0, k as int)),
                rejected@.len() + taken@.len() == k,
                forall|i: int, j: int|
                    0 <= i < j < rejected@.len() ==> (#[trigger] rejected@[i]).position < (
                    #[trigger] rejected@[j]).position,
                forall|j: int|
                    0 <= j < rejected@.len() ==> {
                        let p = (#[trigger] rejected@[j]).position as int;
                        &&& p < k
                        &&& !valid_against(txs[p], settle(m, txs.subrange(0, p)))
                    },
            decreases n - k,
        {
            let tx = pending.remove(0);
            assert(tx == txs[k as int]);
            proof {
                let s = txs.subrange(0, k + 1);
                assert(s.drop_last() =~= txs.subrange(0, k as int));
                assert(s.last() == tx);
                assert(pending@ =~= txs.subrange(k + 1, n as int));
            }
            match tx.check(&self.utxos) {
                Ok(()) => {
                    let ghost before = self.utxos@;
                    let debit = self.utxos.remove_spent_utxos(&tx.inputs);
                    assert(debit is Ok);
                    let outs = copy_outputs(&tx.outputs);
                    self.utxos.add_transaction(tx.id(), outs);
                    assert(self.utxos@ =~= applied(before, tx));
                    taken.push(tx);
                },
                Err(reason) => {
                    rejected.push(Rejection { position: k, reason });
                },
            }
            k = k + 1;
        }
        assert(txs.subrange(0, n as int) =~= txs);
        let ghost settled = self.utxos@;
        let pay = self.mining_reward <= TOTAL_SUPPLY - self.total_mined;
        let ghost body = taken@;
        proof {
            lemma_apply_accepted(m, txs);
        }
        if pay {
            let mut record: Vec<TxOutput> = Vec::new();
            record.push(TxOutput { amount: self.mining_reward, recipient: miner_address.clone() });
            taken.push(Transaction { inputs: Vec::new(), outputs: record });
            assert(taken@.drop_last() =~= body);
            let mut reward: Vec<TxOutput> = Vec::new();
            reward.push(TxOutput { amount: self.mining_reward, recipient: miner_address });
            self.utxos.add_transaction(block.hash.clone(), reward);
            assert(self.utxos@ =~= settled.insert(
                (block.hash@, 0),
                (old(self).mining_reward, miner_address@),
            ));
            self.total_mined = self.total_mined + self.mining_reward;
        }
        block.transactions = taken;
        let ghost b = block;
        self.chain.push(block);
        proof {
            let c = self.chain@;
            assert(c.last() == b);
            assert(c.drop_last() =~= old(self).chain@);
            assert forall|i: int| 0 <= i < c.len() implies {
                &&& (#[trigger] c[i]).index == i
                &&& c[i].mined(self.difficulty as nat)
                &&& linked(c, i)
            } by {
                if i < c.len() - 1 {
                    assert(c[i] == old(self).chain@[i]);
                    if i > 0 {
                        assert(c[i - 1] == old(self).chain@[i - 1]);
                    }
                }
            }
        }
        Ok(MineOutcome::Mined { index, rejected, reward_paid: pay })
    }

    /// Mines the pending transactions into a new block stamped with the
    /// current time; see `mine_pending_at`.
    pub fn mine_pending_transactions(&mut self, miner_address: String) -> (r: Result<
        MineOutcome,
        ChainError,
    >)
        requires
            old(self).wf(),
        ensures
            final(self).wf(),
            final(self).difficulty == old(self).difficulty,
            final(self).mining_reward == old(self).mining_reward,
            old(self).pending_transactions@.len() == 0 ==> r matches Ok(MineOutcome::NothingToMine),
            r matches Ok(MineOutcome::NothingToMine) ==> *final(self) == *old(self),
            r is Err ==> *final(self) == *old(self) && r == Err::<MineOutcome, ChainError>(
                ChainError::NonceSpaceExhausted,
            ) && exists|t: u128|
                #[trigger] no_nonce_fits(
                    old(self).chain@.len() as u64,
                    t,
                    old(self).chain@.last().hash@,
                    old(self).difficulty as nat,
                ),
            r matches Ok(MineOutcome::Mined { index, rejected, reward_paid }) ==> mined_step(
                *old(self),
                *final(self),
                miner_address@,
                index,
                rejected@,
                reward_paid,
            ),
            r matches Ok(MineOutcome::NothingToMine) ==> old(self).pending_transactions@.len() == 0,
            old(self).difficulty == 0 ==> r is Ok,
    {
        self.mine_pending_at(miner_address, clock_millis())
    }

    /// Walks the whole chain: each block at its index, with the right hash,
    /// meeting the difficulty, and linked to the block before it; then replays
    /// every block's transactions and rewards on a fresh ledger.
    pub fn validate(&self) -> (r: bool)
        ensures
            r == (chain_valid(self.chain@, self.difficulty as nat) && replay(self.chain@, self.mining_reward) is Some),
    {
        self.headers_valid() && self.replays()
    }

    /// Replays the chain from nothing: the genesis mints, then each block's
    /// transactions in order and its reward where the cap allows one.
    fn replays(&self) -> (r: bool)
        ensures
            r == replay(self.chain@, self.mining_reward) is Some,
    {
        let n = self.chain.len();
        if n == 0 {
            return false;
        }
        let reward = self.mining_reward;
        assert(self.chain@.subrange(0, 1) =~= seq![self.chain@[0]]);
        assert(seq![self.chain@[0]][0] == self.chain@[0]);
        let (mut pool, mut total) = match replay_genesis(&self.chain[0].transactions) {
            Some(pt) => pt,
            None => {
                proof { lemma_replay_prefix_none(self.chain@, self.mining_reward, 1); }
                return false;
            },
        };
        let mut i: usize = 1;
        while i < n
            invariant
                n == self.chain@.len(),
                1 <= i <= n,
                reward == self.mining_reward,
                pool.wf(),
                total <= TOTAL_SUPPLY,
                replay(self.chain@.subrange(0, i as int), reward) == Some((pool@, total as nat)),
            decreases n - i,
        {
            let b = &self.chain[i];
            let txs = &b.transactions;
            let ghost m = pool@;
            proof {
                let s = self.chain@.subrange(0, i + 1);
                assert(s.drop_last() =~= self.chain@.subrange(0, i as int));
                assert(s.last() == *b);
            }
            let pay = reward <= TOTAL_SUPPLY - total;
            if pay {
                let len = txs.len();
                if len == 0 {
                    proof { lemma_replay_prefix_none(self.chain@, reward, i + 1); }
                    return false;
                }
                let last = &txs[len - 1];
                if !(last.inputs.len() == 0 && last.outputs.len() == 1 && last.outputs[0].amount == reward) {
                    proof { lemma_replay_prefix_none(self.chain@, reward, i + 1); }
                    return false;
                }
                if !apply_body(&mut pool, txs, len - 1) {
                    proof {
                        assert(txs@.subrange(0, len - 1) =~= txs@.drop_last());
                        lemma_replay_prefix_none(self.chain@, reward, i + 1);
                    }
                    return false;
                }
                assert(txs@.subrange(0, len - 1) =~= txs@.drop_last());
                let ghost settled = pool@;
                let mut paid: Vec<TxOutput> = Vec::new();
                paid.push(last.outputs[0].copy());
                pool.add_transaction(b.hash.clone(), paid);
                assert(pool@ =~= settled.insert((b.hash@, 0), (reward, last.outputs@[0].recipient@)));
                total = total + reward;
            } else {
                if !apply_body(&mut pool, txs, txs.len()) {
                    proof {
                        assert(txs@.subrange(0, txs@.len() as int) =~= txs@);
                        lemma_replay_prefix_none(self.chain@, reward, i + 1);
                    }
                    return false;
                }
                assert(txs@.subrange(0, txs@.len() as int) =~= txs@);
            }
            i = i + 1;
        }
        assert(self.chain@.subrange(0, n as int) =~= self.chain@);
        true
    }

    fn headers_valid(&self) -> (r: bool)
        ensures
            r == chain_valid(self.chain@, self.difficulty as nat),
    {
        let n = self.chain.len();
        if n == 0 {
            return false;
        }
        let zero = String::from_str("0");
        proof {
            reveal_strlit("0");
        }
        assert(zero@ =~= genesis_previous());
        let mut i: usize = 0;
        while i < n
            invariant
                n == self.chain@.len(),
                i <= n,
                zero@ == genesis_previous(),
                forall|j: int|
                    0 <= j < i ==> {
                        &&& (#[trigger] self.chain@[j]).index == j
                        &&& self.chain@[j].mined(self.difficulty as nat)
                        &&& linked(self.chain@, j)
                    },
            decreases n - i,
        {
            let b = &self.chain[i];
            if b.index != i as u64 {
                return false;
            }
            let h = b.calculate_hash();
            if h != b.hash {
                return false;
            }
            if !meets_difficulty(&b.hash, self.difficulty) {
                return false;
            }
            let link = if i == 0 {
                b.previous_hash == zero
            } else {
                b.previous_hash == self.chain[i - 1].hash
            };
            if !link {
                return false;
            }
            i = i + 1;
        }
        true
    }

    /// The sum of the unspent amounts that `addr` can spend.
    pub fn balance_of(&self, addr: &String) -> (r: u128)
        requires
            self.wf(),
        ensures
            r == map_balance(self.utxos@, addr@),
    {
        self.utxos.balance_of(addr)
    }

    /// The last block of the chain.
    pub fn get_latest_block(&self) -> (r: &Block)
        requires
            self.chain@.len() > 0,
        ensures
            *r == self.chain@.last(),
    {
        &self.chain[self.chain.len() - 1]
    }
}

} // verus!
