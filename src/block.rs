//! Blocks: a batch of transactions with chain linkage and a proof-of-work nonce.

use crate::crypto::{clock_millis, sha256, sha256_of};
use crate::encoding::{has_leading_zeros, lemma_hex_len, hex_of, le_u128, le_u64, meets_difficulty, push_u128, push_u64, to_hex};
use crate::transaction::{push_text, text_field, Transaction};
use vstd::prelude::*;

verus! {

/// The bytes a block's hash covers: index, timestamp, previous hash and nonce.
pub open spec fn header_bytes(index: u64, timestamp: u128, previous_hash: Seq<char>, nonce: u64) -> Seq<u8> {
    le_u64(index) + le_u128(timestamp) + text_field(previous_hash) + le_u64(nonce)
}

/// The hex SHA-256 digest of a block header.
pub open spec fn block_hash(index: u64, timestamp: u128, previous_hash: Seq<char>, nonce: u64) -> Seq<char> {
    hex_of(sha256_of(header_bytes(index, timestamp, previous_hash, nonce)))
}

/// Whether nonce `n` gives the header a hash with `d` leading zero digits.
pub open spec fn nonce_fits(index: u64, timestamp: u128, previous_hash: Seq<char>, n: u64, d: nat) -> bool {
    has_leading_zeros(block_hash(index, timestamp, previous_hash, n), d)
}

/// No nonce at all gives the header a hash with `d` leading zero digits.
pub open spec fn no_nonce_fits(index: u64, timestamp: u128, previous_hash: Seq<char>, d: nat) -> bool {
    forall|n: u64| !nonce_fits(index, timestamp, previous_hash, n, d)
}

/// At difficulty zero every hash qualifies, so a search from nonce 0 stops at nonce 0.
pub proof fn lemma_difficulty_zero_nonce(b: Block)
    requires
        b.first_fit_from(0, 0),
    ensures
        b.nonce == 0,
{
    lemma_hex_len(sha256_of(header_bytes(b.index, b.timestamp, b.previous_hash@, 0)));
    if b.nonce > 0 {
        assert(nonce_fits(b.index, b.timestamp, b.previous_hash@, 0, 0));
    }
}

/// At difficulty zero some nonce always fits.
pub proof fn lemma_difficulty_zero_fits(index: u64, timestamp: u128, previous_hash: Seq<char>)
    ensures
        !no_nonce_fits(index, timestamp, previous_hash, 0),
{
    assert(nonce_fits(index, timestamp, previous_hash, 0, 0));
}

/// A block of the chain.
#[derive(Clone, Debug)]
pub struct Block {
    pub index: u64,
    pub timestamp: u128,
    pub previous_hash: String,
    pub hash: String,
    pub nonce: u64,
    pub transactions: Vec<Transaction>,
}

impl Block {
    /// The stored hash is the digest of the block's header.
    pub open spec fn hash_ok(&self) -> bool {
        self.hash@ == block_hash(self.index, self.timestamp, self.previous_hash@, self.nonce)
    }

    /// The stored hash is right and meets difficulty `d`.
    pub open spec fn mined(&self, d: nat) -> bool {
        self.hash_ok() && has_leading_zeros(self.hash@, d)
    }

    /// The nonce is the first one from `from` on that meets difficulty `d`.
    pub open spec fn first_fit_from(&self, from: u64, d: nat) -> bool {
        &&& from <= self.nonce
        &&& forall|n: u64|
            from <= n < self.nonce ==> !nonce_fits(self.index, self.timestamp, self.previous_hash@, n, d)
    }

    /// The digest of the block's header, as hex text.
    pub fn calculate_hash(&self) -> (r: String)
        ensures
            r@ == block_hash(self.index, self.timestamp, self.previous_hash@, self.nonce),
            r@.len() == 64,
    {
        let mut out: Vec<u8> = Vec::new();
        push_u64(&mut out, self.index);
        push_u128(&mut out, self.timestamp);
        push_text(&mut out, &self.previous_hash);
        push_u64(&mut out, self.nonce);
        assert(out@ =~= header_bytes(self.index, self.timestamp, self.previous_hash@, self.nonce));
        let digest = sha256(out.as_slice());
        proof {
            lemma_hex_len(digest@);
        }
        to_hex(digest.as_slice())
    }

    /// Searches nonces upward from the current one until the hash has
    /// `difficulty` leading zero digits. Returns false, with the nonce at its
    /// largest value, when no nonce from the current one on fits.
    pub fn mine_block(&mut self, difficulty: usize) -> (r: bool)
        ensures
            final(self).index == old(self).index,
            final(self).timestamp == old(self).timestamp,
            final(self).previous_hash@ == old(self).previous_hash@,
            final(self).transactions == old(self).transactions,
            final(self).hash_ok(),
            final(self).hash@.len() == 64,
            !r ==> final(self).nonce == u64::MAX,
            r ==> final(self).mined(difficulty as nat),
            r ==> final(self).first_fit_from(old(self).nonce, difficulty as nat),
            !r ==> forall|n: u64|
                old(self).nonce <= n ==> !nonce_fits(
                    old(self).index,
                    old(self).timestamp,
                    old(self).previous_hash@,
                    n,
                    difficulty as nat,
                ),
    {
        let ghost start = self.nonce;
        self.hash = self.calculate_hash();
        loop
            invariant
                self.index == old(self).index,
                self.timestamp == old(self).timestamp,
                self.previous_hash@ == old(self).previous_hash@,
                self.transactions == old(self).transactions,
                self.hash_ok(),
                self.hash@.len() == 64,
                self.first_fit_from(start, difficulty as nat),
                start == old(self).nonce,
            decreases u64::MAX - self.nonce,
        {
            if meets_difficulty(&self.hash, difficulty) {
                return true;
            }
            if self.nonce == u64::MAX {
                return false;
            }
            self.nonce = self.nonce + 1;
            self.hash = self.calculate_hash();
        }
    }

    /// Assembles block `index` at `timestamp` and mines it from nonce 0.
    /// `None` when no nonce fits.
    pub fn mine_at(
        index: u64,
        timestamp: u128,
        previous_hash: String,
        transactions: Vec<Transaction>,
        difficulty: usize,
    ) -> (r: Option<Block>)
        ensures
            r matches Some(b) ==> {
                &&& b.index == index
                &&& b.timestamp == timestamp
                &&& b.previous_hash@ == previous_hash@
                &&& b.transactions == transactions
                &&& b.mined(difficulty as nat)
                &&& b.hash@.len() == 64
                &&& b.first_fit_from(0, difficulty as nat)
            },
            r is None ==> no_nonce_fits(index, timestamp, previous_hash@, difficulty as nat),
            difficulty == 0 ==> r is Some,
    {
        let ghost prev = previous_hash@;
        proof {
            lemma_difficulty_zero_fits(index, timestamp, prev);
        }
        let mut block = Block {
            index,
            timestamp,
            previous_hash,
            hash: String::new(),
            nonce: 0,
            transactions,
        };
        if block.mine_block(difficulty) {
            Some(block)
        } else {
            None
        }
    }

    /// Assembles block `index` stamped with the current time and mines it from nonce 0.
    pub fn new(index: u64, previous_hash: String, transactions: Vec<Transaction>, difficulty: usize) -> (r:
        Option<Block>)
        ensures
            r matches Some(b) ==> {
                &&& b.index == index
                &&& b.previous_hash@ == previous_hash@
                &&& b.transactions == transactions
                &&& b.mined(difficulty as nat)
                &&& b.hash@.len() == 64
                &&& b.first_fit_from(0, difficulty as nat)
            },
            r is None ==> exists|t: u128| #[trigger] no_nonce_fits(index, t, previous_hash@, difficulty as nat),
            difficulty == 0 ==> r is Some,
    {
        let timestamp = clock_millis();
        Block::mine_at(index, timestamp, previous_hash, transactions, difficulty)
    }
}

} // verus!
