//! The unspent-output ledger: a map from (origin transaction id, output
//! position) to the output that can still be spent.

use crate::transaction::{TxInput, TxOutput};
use vstd::prelude::*;

verus! {

/// Where an output lives: the id of the transaction that made it, and its position there.
pub type OutPoint = (Seq<char>, usize);

/// An output as the ledger sees it: its amount and its recipient address.
pub type OutputModel = (u64, Seq<char>);

/// One spendable output, with the place it was created at.
#[derive(Debug)]
pub struct UTXO {
    pub tx_id: String,
    pub output_index: usize,
    pub output: TxOutput,
}

impl UTXO {
    pub open spec fn key(&self) -> OutPoint {
        (self.tx_id@, self.output_index)
    }
}

/// The outpoint an input spends.
pub open spec fn spent_by(i: TxInput) -> OutPoint {
    (i.prev_tx@, i.index)
}

/// The map that a sequence of entries stands for; later entries win.
pub open spec fn entries_map(s: Seq<UTXO>) -> Map<OutPoint, OutputModel>
    decreases s.len(),
{
    if s.len() == 0 {
        Map::empty()
    } else {
        entries_map(s.drop_last()).insert(s.last().key(), s.last().output@)
    }
}

pub open spec fn keys_unique(s: Seq<UTXO>) -> bool {
    forall|i: int, j: int| 0 <= i < j < s.len() ==> s[i].key() != s[j].key()
}

/// The ledger after a transaction with id `tx_id` adds `outs`: output `k` sits at `(tx_id, k)`.
pub open spec fn credited(
    m: Map<OutPoint, OutputModel>,
    tx_id: Seq<char>,
    outs: Seq<TxOutput>,
) -> Map<OutPoint, OutputModel> {
    m.union_prefer_right(
        Map::new(|k: OutPoint| k.0 == tx_id && k.1 < outs.len(), |k: OutPoint| outs[k.1 as int]@),
    )
}

/// The ledger after the outputs that `ins` spend are removed.
pub open spec fn debited(m: Map<OutPoint, OutputModel>, ins: Seq<TxInput>) -> Map<
    OutPoint,
    OutputModel,
>
    decreases ins.len(),
{
    if ins.len() == 0 {
        m
    } else {
        debited(m, ins.drop_last()).remove(spent_by(ins.last()))
    }
}

/// No two inputs spend the same outpoint.
pub open spec fn inputs_distinct(ins: Seq<TxInput>) -> bool {
    forall|i: int, j: int| 0 <= i < j < ins.len() ==> spent_by(ins[i]) != spent_by(ins[j])
}

/// Every input spends an outpoint of `m`, each a different one.
pub open spec fn can_debit(m: Map<OutPoint, OutputModel>, ins: Seq<TxInput>) -> bool {
    &&& inputs_distinct(ins)
    &&& forall|i: int| 0 <= i < ins.len() ==> m.contains_key(spent_by(#[trigger] ins[i]))
}

/// The sum of the amounts paid to `addr` in a sequence of entries.
pub open spec fn balance_in(s: Seq<UTXO>, addr: Seq<char>) -> nat
    decreases s.len(),
{
    if s.len() == 0 {
        0
    } else {
        balance_in(s.drop_last(), addr) + if s.last().output.recipient@ == addr {
            s.last().output.amount as nat
        } else {
            0
        }
    }
}

proof fn lemma_map_has(s: Seq<UTXO>, i: int)
    requires
        keys_unique(s),
        0 <= i < s.len(),
    ensures
        entries_map(s).contains_key(s[i].key()),
        entries_map(s)[s[i].key()] == s[i].output@,
    decreases s.len(),
{
    if i < s.len() - 1 {
        lemma_map_has(s.drop_last(), i);
    }
}

proof fn lemma_map_dom(s: Seq<UTXO>, k: OutPoint)
    requires
        entries_map(s).contains_key(k),
    ensures
        exists|i: int| 0 <= i < s.len() && s[i].key() == k,
    decreases s.len(),
{
    if s.last().key() != k {
        lemma_map_dom(s.drop_last(), k);
        let i = choose|i: int| 0 <= i < s.len() - 1 && s.drop_last()[i].key() == k;
        assert(s[i].key() == k);
    }
}

proof fn lemma_map_remove(s: Seq<UTXO>, j: int)
    requires
        keys_unique(s),
        0 <= j < s.len(),
    ensures
        keys_unique(s.remove(j)),
        entries_map(s.remove(j)) =~= entries_map(s).remove(s[j].key()),
    decreases s.len(),
{
    let r = s.remove(j);
    assert forall|a: int, b: int| 0 <= a < b < r.len() implies r[a].key() != r[b].key() by {
        let a2 = if a < j { a } else { a + 1 };
        let b2 = if b < j { b } else { b + 1 };
        assert(r[a] == s[a2] && r[b] == s[b2]);
    }
    if j == s.len() - 1 {
        assert(r =~= s.drop_last());
        if entries_map(s.drop_last()).contains_key(s[j].key()) {
            lemma_map_dom(s.drop_last(), s[j].key());
        }
    } else {
        let d = s.drop_last();
        assert(r.drop_last() =~= d.remove(j));
        assert(r.last() == s.last());
        lemma_map_remove(d, j);
    }
}

proof fn lemma_map_push(s: Seq<UTXO>, u: UTXO)
    ensures
        entries_map(s.push(u)) == entries_map(s).insert(u.key(), u.output@),
{
    assert(s.push(u).drop_last() =~= s);
}

proof fn lemma_debit_keeps(m: Map<OutPoint, OutputModel>, ins: Seq<TxInput>, k: OutPoint)
    requires
        m.contains_key(k),
        forall|i: int| 0 <= i < ins.len() ==> spent_by(#[trigger] ins[i]) != k,
    ensures
        debited(m, ins).contains_key(k),
    decreases ins.len(),
{
    if ins.len() > 0 {
        lemma_debit_keeps(m, ins.drop_last(), k);
    }
}

/// What one ledger entry pays to `addr`.
pub open spec fn entry_value(m: Map<OutPoint, OutputModel>, k: OutPoint, addr: Seq<char>) -> nat {
    if m[k].1 == addr {
        m[k].0 as nat
    } else {
        0
    }
}

/// The sum of the amounts that a finite ledger pays to `addr`.
pub open spec fn map_balance(m: Map<OutPoint, OutputModel>, addr: Seq<char>) -> nat
    decreases m.dom().len(),
    when m.dom().finite()
    via map_balance_decreases
{
    if m.dom().len() == 0 {
        0
    } else {
        let k = choose|k: OutPoint| m.dom().contains(k);
        entry_value(m, k, addr) + map_balance(m.remove(k), addr)
    }
}

#[via_fn]
proof fn map_balance_decreases(m: Map<OutPoint, OutputModel>, addr: Seq<char>) {
    if m.dom().len() != 0 {
        if forall|k: OutPoint| !m.dom().contains(k) {
            assert(m.dom() =~= Set::<OutPoint>::empty());
        }
        let k = choose|k: OutPoint| m.dom().contains(k);
        assert(m.remove(k).dom() =~= m.dom().remove(k));
    }
}

proof fn lemma_map_balance_remove(m: Map<OutPoint, OutputModel>, k: OutPoint, addr: Seq<char>)
    requires
        m.dom().finite(),
        m.dom().contains(k),
    ensures
        map_balance(m, addr) == entry_value(m, k, addr) + map_balance(m.remove(k), addr),
    decreases m.dom().len(),
{
    let c = choose|c: OutPoint| m.dom().contains(c);
    if c != k {
        let mc = m.remove(c);
        let mk = m.remove(k);
        lemma_map_balance_remove(mc, k, addr);
        lemma_map_balance_remove(mk, c, addr);
        assert(mc.remove(k) =~= mk.remove(c));
        assert(entry_value(mc, k, addr) == entry_value(m, k, addr));
        assert(entry_value(mk, c, addr) == entry_value(m, c, addr));
    }
}

proof fn lemma_balance_matches(s: Seq<UTXO>, addr: Seq<char>)
    requires
        keys_unique(s),
    ensures
        entries_map(s).dom().finite(),
        balance_in(s, addr) == map_balance(entries_map(s), addr),
    decreases s.len(),
{
    if s.len() > 0 {
        let p = s.drop_last();
        assert(keys_unique(p));
        lemma_balance_matches(p, addr);
        let e = entries_map(s);
        let k = s.last().key();
        if entries_map(p).contains_key(k) {
            lemma_map_dom(p, k);
        }
        lemma_map_balance_remove(e, k, addr);
        assert(e.remove(k) =~= entries_map(p));
    }
}

/// The set of unspent outputs.
#[derive(Debug)]
pub struct UTXOPool {
    pub pool: Vec<UTXO>,
}

impl View for UTXOPool {
    type V = Map<OutPoint, OutputModel>;

    open spec fn view(&self) -> Map<OutPoint, OutputModel> {
        entries_map(self.pool@)
    }
}

impl UTXOPool {
    /// No outpoint is held twice.
    pub open spec fn wf(&self) -> bool {
        keys_unique(self.pool@)
    }

    /// What `addr` can spend: the sum of the unspent amounts paid to it.
    pub open spec fn balance_spec(&self, addr: Seq<char>) -> nat {
        balance_in(self.pool@, addr)
    }

    /// An empty ledger.
    pub fn new() -> (r: Self)
        ensures
            r.wf(),
            r@ == Map::<OutPoint, OutputModel>::empty(),
    {
        UTXOPool { pool: Vec::new() }
    }

    fn find(&self, tx_hash: &String, index: usize) -> (r: Option<usize>)
        requires
            self.wf(),
        ensures
            match r {
                Some(j) => j < self.pool@.len() && self.pool@[j as int].key() == (tx_hash@, index),
                None => !self@.contains_key((tx_hash@, index)),
            },
    {
        let mut j: usize = 0;
        while j < self.pool.len()
            invariant
                j <= self.pool@.len(),
                forall|i: int| 0 <= i < j ==> self.pool@[i].key() != (tx_hash@, index),
            decreases self.pool@.len() - j,
        {
            let e = &self.pool[j];
            if e.output_index == index && e.tx_id == *tx_hash {
                return Some(j);
            }
            j = j + 1;
        }
        proof {
            if self@.contains_key((tx_hash@, index)) {
                lemma_map_dom(self.pool@, (tx_hash@, index));
            }
        }
        None
    }

    /// The output at `(tx_hash, index)`, if it is unspent.
    pub fn get_utxo(&self, tx_hash: &String, index: usize) -> (r: Option<&TxOutput>)
        requires
            self.wf(),
        ensures
            match r {
                Some(o) => self@.contains_key((tx_hash@, index)) && self@[(tx_hash@, index)] == o@,
                None => !self@.contains_key((tx_hash@, index)),
            },
    {
        match self.find(tx_hash, index) {
            Some(j) => {
                proof { lemma_map_has(self.pool@, j as int); }
                Some(&self.pool[j].output)
            },
            None => None,
        }
    }

    /// Puts `output` at `(tx_id, index)`, replacing what was there.
    fn insert(&mut self, tx_id: String, index: usize, output: TxOutput)
        requires
            old(self).wf(),
        ensures
            final(self).wf(),
            final(self)@ == old(self)@.insert((tx_id@, index), output@),
    {
        match self.find(&tx_id, index) {
            Some(j) => {
                proof { lemma_map_remove(self.pool@, j as int); }
                self.pool.remove(j);
            },
            None => {},
        }
        let ghost before = self.pool@;
        let u = UTXO { tx_id, output_index: index, output };
        self.pool.push(u);
        proof {
            lemma_map_push(before, u);
            assert(self.pool@.drop_last() =~= before);
            assert forall|a: int, b: int| 0 <= a < b < self.pool@.len() implies self.pool@[a].key()
                != self.pool@[b].key() by {
                if b == self.pool@.len() - 1 {
                    if before[a].key() == u.key() {
                        lemma_map_has(before, a);
                    }
                }
            }
        }
        assert(self@ =~= old(self)@.insert((tx_id@, index), output@));
    }

    /// Adds the outputs of the transaction with id `tx_hash`, output `k` at `(tx_hash, k)`.
    pub fn add_transaction(&mut self, tx_hash: String, outputs: Vec<TxOutput>)
        requires
            old(self).wf(),
        ensures
            final(self).wf(),
            final(self)@ == credited(old(self)@, tx_hash@, outputs@),
    {
        let mut k: usize = 0;
        while k < outputs.len()
            invariant
                self.wf(),
                k <= outputs@.len(),
                self@ == credited(old(self)@, tx_hash@, outputs@.subrange(0, k as int)),
            decreases outputs@.len() - k,
        {
            let o = outputs[k].copy();
            self.insert(tx_hash.clone(), k, o);
            assert(self@ =~= credited(old(self)@, tx_hash@, outputs@.subrange(0, k + 1)));
            k = k + 1;
        }
        assert(outputs@.subrange(0, outputs@.len() as int) =~= outputs@);
    }

    /// Removes the outputs that `inputs` spend, all of them or none: where an
    /// input spends an outpoint that is not in the ledger, or two inputs spend
    /// the same one, the ledger is left as it was.
    pub fn remove_spent_utxos(&mut self, inputs: &Vec<TxInput>) -> (r: Result<(), LedgerError>)
        requires
            old(self).wf(),
        ensures
            final(self).wf(),
            r is Ok <==> can_debit(old(self)@, inputs@),
            r is Ok ==> final(self)@ == debited(old(self)@, inputs@),
            r is Err ==> final(self)@ == old(self)@ && r == Err::<(), LedgerError>(LedgerError::UnknownOutput),
    {
        let mut k: usize = 0;
        while k < inputs.len()
            invariant
                self.wf(),
                k <= inputs@.len(),
                inputs_distinct(inputs@.subrange(0, k as int)),
                forall|i: int| 0 <= i < k ==> self@.contains_key(spent_by(#[trigger] inputs@[i])),
            decreases inputs@.len() - k,
        {
            let inp = &inputs[k];
            let mut j: usize = 0;
            while j < k
                invariant
                    self.wf(),
                    j <= k < inputs@.len(),
                    *inp == inputs@[k as int],
                    forall|i: int| 0 <= i < j ==> spent_by(inputs@[i]) != spent_by(inputs@[k as int]),
                decreases k - j,
            {
                if inputs[j].index == inp.index && inputs[j].prev_tx == inp.prev_tx {
                    assert(spent_by(inputs@[j as int]) == spent_by(inputs@[k as int]));
                    return Err(LedgerError::UnknownOutput);
                }
                j = j + 1;
            }
            match self.find(&inp.prev_tx, inp.index) {
                Some(j) => {
                    proof { lemma_map_has(self.pool@, j as int); }
                },
                None => {
                    return Err(LedgerError::UnknownOutput);
                },
            }
            proof {
                let nk = inputs@.subrange(0, k + 1);
                let pk = inputs@.subrange(0, k as int);
                assert forall|a: int, b: int| 0 <= a < b < nk.len() implies spent_by(#[trigger] nk[a])
                    != spent_by(#[trigger] nk[b]) by {
                    assert(nk[a] == inputs@[a]);
                    assert(nk[b] == inputs@[b]);
                    if b < k {
                        assert(pk[a] == inputs@[a]);
                        assert(pk[b] == inputs@[b]);
                    }
                }
            }
            k = k + 1;
        }
        assert(inputs@.subrange(0, inputs@.len() as int) =~= inputs@);
        let ghost start = self@;
        let mut k: usize = 0;
        while k < inputs.len()
            invariant
                self.wf(),
                k <= inputs@.len(),
                can_debit(start, inputs@),
                self@ == debited(start, inputs@.subrange(0, k as int)),
            decreases inputs@.len() - k,
        {
            let inp = &inputs[k];
            proof {
                let pre = inputs@.subrange(0, k as int);
                assert forall|i: int| 0 <= i < pre.len() implies spent_by(#[trigger] pre[i])
                    != spent_by(inputs@[k as int]) by {
                    assert(pre[i] == inputs@[i]);
                }
                lemma_debit_keeps(start, pre, spent_by(inputs@[k as int]));
            }
            match self.find(&inp.prev_tx, inp.index) {
                Some(j) => {
                    proof { lemma_map_remove(self.pool@, j as int); }
                    self.pool.remove(j);
                },
                None => {},
            }
            proof {
                let next = inputs@.subrange(0, k + 1);
                assert(next.drop_last() =~= inputs@.subrange(0, k as int));
            }
            k = k + 1;
        }
        assert(inputs@.subrange(0, inputs@.len() as int) =~= inputs@);
        Ok(())
    }

    /// The sum of the unspent amounts paid to `addr`.
    pub fn balance_of(&self, addr: &String) -> (r: u128)
        requires
            self.wf(),
        ensures
            r == self.balance_spec(addr@),
            self@.dom().finite(),
            r == map_balance(self@, addr@),
    {
        proof {
            lemma_balance_matches(self.pool@, addr@);
        }
        let mut total: u128 = 0;
        let mut j: usize = 0;
        while j < self.pool.len()
            invariant
                j <= self.pool@.len(),
                total == balance_in(self.pool@.subrange(0, j as int), addr@),
                total <= j * 0xffff_ffff_ffff_ffffu64,
            decreases self.pool@.len() - j,
        {
            let e = &self.pool[j];
            let ghost pre = self.pool@.subrange(0, j as int);
            assert(self.pool@.subrange(0, j + 1).drop_last() =~= pre);
            if e.output.recipient == *addr {
                total = total + e.output.amount as u128;
            }
            assert(total <= (j + 1) * 0xffff_ffff_ffff_ffffu64) by (nonlinear_arith)
                requires
                    total <= j * 0xffff_ffff_ffff_ffffu64 + 0xffff_ffff_ffff_ffffu64,
            ;
            j = j + 1;
        }
        assert(self.pool@.subrange(0, self.pool@.len() as int) =~= self.pool@);
        total
    }
}

/// Why a ledger update was refused.
#[derive(Debug, PartialEq, Eq, Structural)]
pub enum LedgerError {
    /// An input spends an outpoint that is not unspent in the ledger.
    UnknownOutput,
}

} // verus!
