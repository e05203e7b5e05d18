//! Signed value-transfer transactions in the unspent-output model.

use crate::crypto::{
    base64_decoded, decode_base64, pkcs1v15_signature_of, pkcs1v15_signature_valid, sha256, sha256_of, sign_digest,
    verify_signature,
};
use crate::encoding::{hex_of, le_u64, lemma_hex_len, push_bytes, push_u64, to_hex};
use crate::ledger::{inputs_distinct, spent_by, OutPoint, OutputModel, UTXOPool};
use vstd::prelude::*;
use vstd::utf8::encode_utf8;

verus! {

/// A claim of `amount` units payable to whoever holds the key behind `recipient`.
#[derive(Clone, Debug)]
pub struct TxOutput {
    pub amount: u64,
    pub recipient: String,
}

impl View for TxOutput {
    type V = OutputModel;

    open spec fn view(&self) -> OutputModel {
        (self.amount, self.recipient@)
    }
}

impl TxOutput {
    /// A field-by-field copy.
    pub fn copy(&self) -> (r: TxOutput)
        ensures
            r@ == self@,
            r.amount == self.amount,
            r.recipient@ == self.recipient@,
    {
        TxOutput { amount: self.amount, recipient: self.recipient.clone() }
    }
}

/// A reference to output `index` of transaction `prev_tx`, with the signature
/// that proves the spender holds the recipient's key.
#[derive(Clone, Debug)]
pub struct TxInput {
    pub prev_tx: String,
    pub index: usize,
    pub signature: Vec<u8>,
}

/// A transaction: the outputs it consumes and the outputs it creates.
#[derive(Clone, Debug)]
pub struct Transaction {
    pub inputs: Vec<TxInput>,
    pub outputs: Vec<TxOutput>,
}

} // verus!

verus! {

/// The bytes signed for an input: the origin id's UTF-8 bytes, then the output position.
pub open spec fn signing_message(prev_tx: Seq<char>, index: usize) -> Seq<u8> {
    encode_utf8(prev_tx) + le_u64(index as u64)
}

/// A text field in a record: its byte length, then its UTF-8 bytes.
pub open spec fn text_field(s: Seq<char>) -> Seq<u8> {
    le_u64(encode_utf8(s).len() as u64) + encode_utf8(s)
}

pub open spec fn input_record(i: TxInput) -> Seq<u8> {
    text_field(i.prev_tx@) + le_u64(i.index as u64)
}

pub open spec fn output_record(o: TxOutput) -> Seq<u8> {
    le_u64(o.amount) + text_field(o.recipient@)
}

pub open spec fn inputs_record(s: Seq<TxInput>) -> Seq<u8>
    decreases s.len(),
{
    if s.len() == 0 {
        Seq::empty()
    } else {
        inputs_record(s.drop_last()) + input_record(s.last())
    }
}

pub open spec fn outputs_record(s: Seq<TxOutput>) -> Seq<u8>
    decreases s.len(),
{
    if s.len() == 0 {
        Seq::empty()
    } else {
        outputs_record(s.drop_last()) + output_record(s.last())
    }
}

/// The canonical serialization of a transaction: its inputs (origin and
/// position, not signatures) and its outputs, each list preceded by its length.
pub open spec fn tx_bytes(t: Transaction) -> Seq<u8> {
    le_u64(t.inputs@.len() as u64) + inputs_record(t.inputs@) + le_u64(t.outputs@.len() as u64)
        + outputs_record(t.outputs@)
}

/// A transaction's identity: the hex SHA-256 digest of its serialization.
pub open spec fn tx_id(t: Transaction) -> Seq<char> {
    hex_of(sha256_of(tx_bytes(t)))
}

/// Whether an input carries a valid signature under the key that `recipient` encodes.
pub open spec fn input_signature_ok(recipient: Seq<char>, i: TxInput) -> bool {
    match base64_decoded(recipient) {
        Some(der) => pkcs1v15_signature_valid(
            der,
            sha256_of(signing_message(i.prev_tx@, i.index)),
            i.signature@,
        ),
        None => false,
    }
}

/// The input spends an unspent output of `m` and is signed by that output's recipient.
pub open spec fn input_authorized(m: Map<OutPoint, OutputModel>, i: TxInput) -> bool {
    &&& m.contains_key(spent_by(i))
    &&& input_signature_ok(m[spent_by(i)].1, i)
}

/// The total amount of the outputs of `m` that `ins` spend.
pub open spec fn inputs_value(m: Map<OutPoint, OutputModel>, ins: Seq<TxInput>) -> nat
    decreases ins.len(),
{
    if ins.len() == 0 {
        0
    } else {
        inputs_value(m, ins.drop_last()) + m[spent_by(ins.last())].0 as nat
    }
}

/// The total amount of a list of outputs.
pub open spec fn outputs_value(outs: Seq<TxOutput>) -> nat
    decreases outs.len(),
{
    if outs.len() == 0 {
        0
    } else {
        outputs_value(outs.drop_last()) + outs.last().amount as nat
    }
}

/// Input `k` is the first one that is not authorized against `m`.
pub open spec fn first_failure(m: Map<OutPoint, OutputModel>, ins: Seq<TxInput>, k: int) -> bool {
    &&& 0 <= k < ins.len()
    &&& !input_authorized(m, ins[k])
    &&& forall|j: int| 0 <= j < k ==> input_authorized(m, #[trigger] ins[j])
}

proof fn lemma_first_failure_unique(m: Map<OutPoint, OutputModel>, ins: Seq<TxInput>, a: int, b: int)
    requires
        first_failure(m, ins, a),
        first_failure(m, ins, b),
    ensures
        a == b,
{
    if a < b {
        assert(input_authorized(m, ins[a]));
    } else if b < a {
        assert(input_authorized(m, ins[b]));
    }
}

/// What checking a transaction against `m` gives: no inputs first (only
/// genesis and reward mints have none, and they are not submitted), then
/// duplicate inputs, then the first input that is not authorized (an unknown output, or else a
/// bad signature), then the totals.
pub open spec fn check_outcome(t: Transaction, m: Map<OutPoint, OutputModel>) -> Result<(), TxError> {
    if t.inputs@.len() == 0 {
        Err(TxError::NoInputs)
    } else if !inputs_distinct(t.inputs@) {
        Err(TxError::DuplicateInput)
    } else if exists|k: int|
        #![trigger t.inputs@[k]]
        first_failure(m, t.inputs@, k) && !m.contains_key(spent_by(t.inputs@[k])) {
        Err(TxError::UnknownOutput)
    } else if exists|k: int|
        #![trigger t.inputs@[k]]
        first_failure(m, t.inputs@, k) && m.contains_key(spent_by(t.inputs@[k])) {
        Err(TxError::InvalidSignature)
    } else if inputs_value(m, t.inputs@) < outputs_value(t.outputs@) {
        Err(TxError::InsufficientInputs)
    } else {
        Ok(())
    }
}

/// A transaction is valid against a ledger when it has inputs, they are distinct, each
/// spends an unspent output and is signed by its recipient, and the inputs
/// hold at least as much as the outputs pay.
pub open spec fn valid_against(t: Transaction, m: Map<OutPoint, OutputModel>) -> bool {
    &&& t.inputs@.len() > 0
    &&& inputs_distinct(t.inputs@)
    &&& forall|k: int| 0 <= k < t.inputs@.len() ==> input_authorized(m, #[trigger] t.inputs@[k])
    &&& inputs_value(m, t.inputs@) >= outputs_value(t.outputs@)
}

/// For a transaction with inputs, all distinct, validity against a ledger is
/// exactly this: every input spends an output present in the ledger, its
/// signature verifies under that output's recipient key, and the inputs hold
/// at least what the outputs pay.
pub proof fn lemma_valid_iff(t: Transaction, m: Map<OutPoint, OutputModel>)
    requires
        t.inputs@.len() > 0,
        inputs_distinct(t.inputs@),
    ensures
        valid_against(t, m) <==> {
            &&& forall|k: int|
                0 <= k < t.inputs@.len() ==> {
                    &&& m.contains_key(spent_by(#[trigger] t.inputs@[k]))
                    &&& input_signature_ok(m[spent_by(t.inputs@[k])].1, t.inputs@[k])
                }
            &&& inputs_value(m, t.inputs@) >= outputs_value(t.outputs@)
        },
{
}

/// The signature that `key` gives an input: PKCS#1 v1.5 over the SHA-256
/// digest of its signing message, or `None` where the key cannot sign it.
pub open spec fn input_signature(key: rsa::RsaPrivateKey, i: TxInput) -> Option<Seq<u8>> {
    pkcs1v15_signature_of(key, sha256_of(signing_message(i.prev_tx@, i.index)))
}

/// Appends a text field: byte length, then bytes.
pub fn push_text(out: &mut Vec<u8>, s: &String)
    ensures
        final(out)@ == old(out)@ + text_field(s@),
{
    let b = s.as_str().as_bytes();
    push_u64(out, b.len() as u64);
    push_bytes(out, b);
    assert(final(out)@ =~= old(out)@ + text_field(s@));
}

/// The message that an input's signature covers.
pub fn signing_bytes(prev_tx: &String, index: usize) -> (r: Vec<u8>)
    ensures
        r@ == signing_message(prev_tx@, index),
{
    let mut out: Vec<u8> = Vec::new();
    push_bytes(&mut out, prev_tx.as_str().as_bytes());
    push_u64(&mut out, index as u64);
    assert(out@ =~= signing_message(prev_tx@, index));
    out
}

/// Why a transaction was refused.
#[derive(Debug, PartialEq, Eq, Structural)]
pub enum TxError {
    /// An input's signature does not verify under the spent output's recipient key.
    InvalidSignature,
    /// An input spends an output that is not unspent in the ledger.
    UnknownOutput,
    /// Two inputs spend the same output.
    DuplicateInput,
    /// The outputs pay more than the inputs hold.
    InsufficientInputs,
    /// The transaction spends nothing; only genesis and reward mints may.
    NoInputs,
    /// The signing key could not sign.
    SigningError,
}

/// The total amount of a list of outputs.
pub fn sum_outputs(outs: &Vec<TxOutput>) -> (r: u128)
    ensures
        r == outputs_value(outs@),
{
    let mut total: u128 = 0;
    let mut k: usize = 0;
    while k < outs.len()
        invariant
            k <= outs@.len(),
            total == outputs_value(outs@.subrange(0, k as int)),
            total <= k * 0xffff_ffff_ffff_ffffu64,
        decreases outs@.len() - k,
    {
        proof {
            let s = outs@.subrange(0, k + 1);
            assert(s.drop_last() =~= outs@.subrange(0, k as int));
        }
        total = total + outs[k].amount as u128;
        assert(total <= (k + 1) * 0xffff_ffff_ffff_ffffu64) by (nonlinear_arith)
            requires
                total <= k * 0xffff_ffff_ffff_ffffu64 + 0xffff_ffff_ffff_ffffu64,
        ;
        k = k + 1;
    }
    assert(outs@.subrange(0, outs@.len() as int) =~= outs@);
    total
}

impl TxInput {
    /// A copy with the same origin and position and the given signature.
    fn with_signature(&self, signature: Vec<u8>) -> (r: TxInput)
        ensures
            r.prev_tx@ == self.prev_tx@,
            r.index == self.index,
            r.signature@ == signature@,
    {
        TxInput { prev_tx: self.prev_tx.clone(), index: self.index, signature }
    }
}

impl Transaction {
    /// Builds a transaction, signing each input's message digest with `sender`.
    /// Outputs are kept as given; inputs keep their origin and position.
    pub fn new(sender: &rsa::RsaPrivateKey, inputs: Vec<TxInput>, outputs: Vec<TxOutput>) -> (r:
        Result<Transaction, TxError>)
        ensures
            r is Err ==> r == Err::<Transaction, TxError>(TxError::SigningError),
            inputs@.len() == 0 ==> r is Ok,
            r is Err <==> exists|k: int|
                0 <= k < inputs@.len() && (#[trigger] input_signature(*sender, inputs@[k])) is None,
            r matches Ok(t) ==> forall|k: int|
                0 <= k < inputs@.len() ==> #[trigger] input_signature(*sender, inputs@[k]) == Some(
                    t.inputs@[k].signature@,
                ),
            r matches Ok(t) ==> {
                &&& t.outputs@ == outputs@
                &&& t.inputs@.len() == inputs@.len()
                &&& forall|k: int|
                    0 <= k < inputs@.len() ==> (#[trigger] t.inputs@[k]).prev_tx@ == inputs@[k].prev_tx@
                        && t.inputs@[k].index == inputs@[k].index
            },
    {
        let mut signed: Vec<TxInput> = Vec::new();
        let mut k: usize = 0;
        while k < inputs.len()
            invariant
                k <= inputs@.len(),
                signed@.len() == k,
                forall|j: int|
                    0 <= j < k ==> #[trigger] input_signature(*sender, inputs@[j]) == Some(
                        signed@[j].signature@,
                    ),
                forall|j: int|
                    0 <= j < k ==> (#[trigger] signed@[j]).prev_tx@ == inputs@[j].prev_tx@
                        && signed@[j].index == inputs@[j].index,
            decreases inputs@.len() - k,
        {
            let inp = &inputs[k];
            let msg = signing_bytes(&inp.prev_tx, inp.index);
            let digest = sha256(msg.as_slice());
            match sign_digest(sender, digest.as_slice()) {
                Ok(sig) => {
                    signed.push(inp.with_signature(sig));
                    assert(input_signature(*sender, inputs@[k as int]) == Some(signed@[k as int].signature@));
                },
                Err(_) => {
                    assert(input_signature(*sender, inputs@[k as int]) is None);
                    return Err(TxError::SigningError);
                },
            }
            k = k + 1;
        }
        Ok(Transaction { inputs: signed, outputs })
    }

    /// Checks the transaction against `pool` and says why it fails: duplicate
    /// inputs first, then each input in order (unknown output, then bad
    /// signature, where the recipient address not decoding counts as a bad
    /// signature), then the totals. Reads the ledger only.
    pub fn check(&self, pool: &UTXOPool) -> (r: Result<(), TxError>)
        requires
            pool.wf(),
        ensures
            r is Ok <==> valid_against(*self, pool@),
            r == check_outcome(*self, pool@),
            r == Err::<(), TxError>(TxError::NoInputs) <==> self.inputs@.len() == 0,
            r == Err::<(), TxError>(TxError::DuplicateInput) <==> self.inputs@.len() > 0 && !inputs_distinct(self.inputs@),
            r == Err::<(), TxError>(TxError::UnknownOutput) <==> self.inputs@.len() > 0 && inputs_distinct(self.inputs@)
                && exists|k: int|
                #![trigger self.inputs@[k]]
                first_failure(pool@, self.inputs@, k) && !pool@.contains_key(spent_by(self.inputs@[k])),
            r == Err::<(), TxError>(TxError::InvalidSignature) <==> self.inputs@.len() > 0 && inputs_distinct(self.inputs@)
                && exists|k: int|
                #![trigger self.inputs@[k]]
                first_failure(pool@, self.inputs@, k) && pool@.contains_key(spent_by(self.inputs@[k])),
            r == Err::<(), TxError>(TxError::InsufficientInputs) <==> {
                &&& self.inputs@.len() > 0
                &&& inputs_distinct(self.inputs@)
                &&& forall|k: int|
                    0 <= k < self.inputs@.len() ==> input_authorized(pool@, #[trigger] self.inputs@[k])
                &&& inputs_value(pool@, self.inputs@) < outputs_value(self.outputs@)
            },
            r != Err::<(), TxError>(TxError::SigningError),
    {
        let n = self.inputs.len();
        if n == 0 {
            return Err(TxError::NoInputs);
        }
        let mut k: usize = 0;
        while k < n
            invariant
                n == self.inputs@.len(),
                k <= n,
                inputs_distinct(self.inputs@.subrange(0, k as int)),
            decreases n - k,
        {
            let mut j: usize = 0;
            while j < k
                invariant
                    n == self.inputs@.len(),
                    j <= k < n,
                    forall|i: int| 0 <= i < j ==> spent_by(self.inputs@[i]) != spent_by(self.inputs@[k as int]),
                decreases k - j,
            {
                if self.inputs[j].index == self.inputs[k].index && self.inputs[j].prev_tx
                    == self.inputs[k].prev_tx {
                    assert(spent_by(self.inputs@[j as int]) == spent_by(self.inputs@[k as int]));
                    return Err(TxError::DuplicateInput);
                }
                j = j + 1;
            }
            proof {
                let nk = self.inputs@.subrange(0, k + 1);
                let pk = self.inputs@.subrange(0, k as int);
                assert forall|a: int, b: int| 0 <= a < b < nk.len() implies spent_by(#[trigger] nk[a])
                    != spent_by(#[trigger] nk[b]) by {
                    assert(nk[a] == self.inputs@[a]);
                    assert(nk[b] == self.inputs@[b]);
                    if b < k {
                        assert(pk[a] == self.inputs@[a]);
                        assert(pk[b] == self.inputs@[b]);
                    }
                }
            }
            k = k + 1;
        }
        assert(self.inputs@.subrange(0, n as int) =~= self.inputs@);
        let mut total_in: u128 = 0;
        let mut k: usize = 0;
        while k < n
            invariant
                pool.wf(),
                n == self.inputs@.len(),
                k <= n,
                inputs_distinct(self.inputs@),
                forall|i: int| 0 <= i < k ==> input_authorized(pool@, #[trigger] self.inputs@[i]),
                total_in == inputs_value(pool@, self.inputs@.subrange(0, k as int)),
                total_in <= k * 0xffff_ffff_ffff_ffffu64,
            decreases n - k,
        {
            let inp = &self.inputs[k];
            match pool.get_utxo(&inp.prev_tx, inp.index) {
                None => {
                    proof {
                        assert(first_failure(pool@, self.inputs@, k as int));
                        assert forall|b: int| first_failure(pool@, self.inputs@, b) implies !pool@.contains_key(
                            spent_by(#[trigger] self.inputs@[b]),
                        ) by {
                            lemma_first_failure_unique(pool@, self.inputs@, k as int, b);
                        }
                    }
                    return Err(TxError::UnknownOutput);
                },
                Some(o) => {
                    let ok = match decode_base64(o.recipient.as_str()) {
                        Ok(der) => {
                            let msg = signing_bytes(&inp.prev_tx, inp.index);
                            let digest = sha256(msg.as_slice());
                            verify_signature(der.as_slice(), digest.as_slice(), inp.signature.as_slice())
                        },
                        Err(_) => false,
                    };
                    if !ok {
                        proof {
                            assert(first_failure(pool@, self.inputs@, k as int));
                            assert forall|b: int| first_failure(pool@, self.inputs@, b) implies pool@.contains_key(
                                spent_by(#[trigger] self.inputs@[b]),
                            ) by {
                                lemma_first_failure_unique(pool@, self.inputs@, k as int, b);
                            }
                        }
                        return Err(TxError::InvalidSignature);
                    }
                    proof {
                        let s = self.inputs@.subrange(0, k + 1);
                        assert(s.drop_last() =~= self.inputs@.subrange(0, k as int));
                    }
                    total_in = total_in + o.amount as u128;
                    assert(total_in <= (k + 1) * 0xffff_ffff_ffff_ffffu64) by (nonlinear_arith)
                        requires
                            total_in <= k * 0xffff_ffff_ffff_ffffu64 + 0xffff_ffff_ffff_ffffu64,
                    ;
                },
            }
            k = k + 1;
        }
        assert(self.inputs@.subrange(0, n as int) =~= self.inputs@);
        let total_out = sum_outputs(&self.outputs);
        if total_in < total_out {
            Err(TxError::InsufficientInputs)
        } else {
            Ok(())
        }
    }

    /// Whether the transaction is valid against `pool`; reads the ledger only.
    pub fn verify(&self, pool: &UTXOPool) -> (r: bool)
        requires
            pool.wf(),
        ensures
            r == valid_against(*self, pool@),
    {
        self.check(pool).is_ok()
    }

    /// The transaction's identity: the hex digest of its serialization.
    pub fn id(&self) -> (r: String)
        ensures
            r@ == tx_id(*self),
            r@.len() == 64,
    {
        let mut out: Vec<u8> = Vec::new();
        push_u64(&mut out, self.inputs.len() as u64);
        let mut k: usize = 0;
        while k < self.inputs.len()
            invariant
                k <= self.inputs@.len(),
                out@ == le_u64(self.inputs@.len() as u64) + inputs_record(
                    self.inputs@.subrange(0, k as int),
                ),
            decreases self.inputs@.len() - k,
        {
            let ghost before = out@;
            push_text(&mut out, &self.inputs[k].prev_tx);
            push_u64(&mut out, self.inputs[k].index as u64);
            proof {
                let s = self.inputs@.subrange(0, k + 1);
                assert(s.drop_last() =~= self.inputs@.subrange(0, k as int));
                assert(out@ =~= before + input_record(self.inputs@[k as int]));
            }
            k = k + 1;
        }
        assert(self.inputs@.subrange(0, self.inputs@.len() as int) =~= self.inputs@);
        push_u64(&mut out, self.outputs.len() as u64);
        let ghost head = out@;
        let mut k: usize = 0;
        while k < self.outputs.len()
            invariant
                k <= self.outputs@.len(),
                out@ == head + outputs_record(self.outputs@.subrange(0, k as int)),
            decreases self.outputs@.len() - k,
        {
            let ghost before = out@;
            push_u64(&mut out, self.outputs[k].amount);
            push_text(&mut out, &self.outputs[k].recipient);
            proof {
                let s = self.outputs@.subrange(0, k + 1);
                assert(s.drop_last() =~= self.outputs@.subrange(0, k as int));
                assert(out@ =~= before + output_record(self.outputs@[k as int]));
            }
            k = k + 1;
        }
        assert(self.outputs@.subrange(0, self.outputs@.len() as int) =~= self.outputs@);
        assert(out@ =~= tx_bytes(*self));
        let digest = sha256(out.as_slice());
        proof {
            lemma_hex_len(digest@);
        }
        to_hex(digest.as_slice())
    }
}

} // verus!
