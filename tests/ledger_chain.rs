use rand::rngs::OsRng;
use rsa::pkcs1::EncodeRsaPublicKey;
use rsa::RsaPrivateKey;
use sha2::{Digest, Sha256};
use utxo_chain::block::Block;
use utxo_chain::chain::{Blockchain, ChainError, MineOutcome, TOTAL_SUPPLY};
use utxo_chain::encoding::{meets_difficulty, to_hex};
use utxo_chain::ledger::{LedgerError, UTXOPool};
use utxo_chain::transaction::{signing_bytes, Transaction, TxError, TxInput, TxOutput};

fn keypair_bits(bits: usize) -> (RsaPrivateKey, String) {
    let key = RsaPrivateKey::new(&mut OsRng, bits).unwrap();
    let der = key.to_public_key().to_pkcs1_der().unwrap();
    let address = base64::encode(der.as_ref());
    (key, address)
}

fn keypair() -> (RsaPrivateKey, String) {
    keypair_bits(512)
}

fn out(amount: u64, to: &str) -> TxOutput {
    TxOutput { amount, recipient: to.to_string() }
}

fn spend(prev: &str, index: usize) -> TxInput {
    TxInput { prev_tx: prev.to_string(), index, signature: vec![] }
}

fn mined_index(r: Result<MineOutcome, ChainError>) -> (u64, Vec<(usize, TxError)>, bool) {
    match r.unwrap() {
        MineOutcome::Mined { index, rejected, reward_paid } => {
            (index, rejected.into_iter().map(|x| (x.position, x.reason)).collect(), reward_paid)
        }
        MineOutcome::NothingToMine => panic!("expected a mined block"),
    }
}

#[test]
fn hex_encoding_exact() {
    assert_eq!(to_hex(&[0x00, 0xab, 0xff, 0x10]), "00abff10");
    assert_eq!(to_hex(&[]), "");
}

#[test]
fn difficulty_prefix_check() {
    assert!(meets_difficulty(&"00ab".to_string(), 2));
    assert!(!meets_difficulty(&"0a0b".to_string(), 2));
    assert!(!meets_difficulty(&"0".to_string(), 2));
    assert!(meets_difficulty(&"ff".to_string(), 0));
}

#[test]
fn mining_at_difficulty_zero_keeps_nonce_zero() {
    let b = Block::mine_at(3, 1_700_000_000_000, "abc".to_string(), vec![], 0).unwrap();
    assert_eq!(b.nonce, 0);
    assert_eq!(b.hash, b.calculate_hash());
    assert_eq!(b.hash.len(), 64);
}

#[test]
fn mined_hash_has_leading_zeros() {
    let b = Block::mine_at(1, 42, "prev".to_string(), vec![], 2).unwrap();
    assert!(b.hash.starts_with("00"));
    assert_eq!(b.hash, b.calculate_hash());
    let mut probe = b.clone();
    for n in 0..b.nonce {
        probe.nonce = n;
        assert!(!probe.calculate_hash().starts_with("00"));
    }
}

#[test]
fn block_hash_depends_on_header() {
    let a = Block::mine_at(1, 42, "prev".to_string(), vec![], 0).unwrap();
    let b = Block::mine_at(2, 42, "prev".to_string(), vec![], 0).unwrap();
    let c = Block::mine_at(1, 43, "prev".to_string(), vec![], 0).unwrap();
    assert_ne!(a.hash, b.hash);
    assert_ne!(a.hash, c.hash);
}

#[test]
fn fresh_chain_validates() {
    let c = Blockchain::new(2, 50).unwrap();
    assert_eq!(c.chain.len(), 1);
    assert_eq!(c.chain[0].previous_hash, "0");
    assert_eq!(c.chain[0].index, 0);
    assert!(c.chain[0].hash.starts_with("00"));
    assert!(c.validate());
    assert_eq!(c.get_latest_block().hash, c.chain[0].hash);
}

#[test]
fn ledger_credit_lookup_and_debit() {
    let mut pool = UTXOPool::new();
    pool.add_transaction("t1".to_string(), vec![out(5, "a"), out(7, "b")]);
    assert_eq!(pool.get_utxo(&"t1".to_string(), 1).unwrap().amount, 7);
    assert!(pool.get_utxo(&"t1".to_string(), 2).is_none());
    assert_eq!(pool.balance_of(&"a".to_string()), 5);
    assert_eq!(pool.remove_spent_utxos(&vec![spend("t1", 0)]), Ok(()));
    assert!(pool.get_utxo(&"t1".to_string(), 0).is_none());
    assert_eq!(pool.get_utxo(&"t1".to_string(), 1).unwrap().recipient, "b");
}

#[test]
fn ledger_debit_is_all_or_nothing() {
    let mut pool = UTXOPool::new();
    pool.add_transaction("t1".to_string(), vec![out(5, "a"), out(7, "b")]);
    let r = pool.remove_spent_utxos(&vec![spend("t1", 0), spend("t9", 0)]);
    assert_eq!(r, Err(LedgerError::UnknownOutput));
    assert!(pool.get_utxo(&"t1".to_string(), 0).is_some());
    let r = pool.remove_spent_utxos(&vec![spend("t1", 1), spend("t1", 1)]);
    assert_eq!(r, Err(LedgerError::UnknownOutput));
    assert!(pool.get_utxo(&"t1".to_string(), 1).is_some());
}

#[test]
fn transaction_id_is_stable_and_distinguishes() {
    let t1 = Transaction { inputs: vec![spend("x", 0)], outputs: vec![out(1, "a")] };
    let t2 = Transaction { inputs: vec![spend("x", 0)], outputs: vec![out(2, "a")] };
    let id = t1.id();
    assert_eq!(id.len(), 64);
    assert!(id.chars().all(|c| c.is_ascii_hexdigit()));
    assert_eq!(id, t1.clone().id());
    assert_ne!(id, t2.id());
}

#[test]
fn verify_accepts_signed_spend() {
    let (ka, a) = keypair();
    let mut pool = UTXOPool::new();
    pool.add_transaction("m".to_string(), vec![out(100, &a)]);
    let t = Transaction::new(&ka, vec![spend("m", 0)], vec![out(40, "b")]).unwrap();
    assert!(!t.inputs[0].signature.is_empty());
    assert!(t.verify(&pool));
    assert_eq!(t.check(&pool), Ok(()));
}

#[test]
fn verify_reports_each_failure() {
    let (ka, a) = keypair();
    let (kb, _) = keypair();
    let mut pool = UTXOPool::new();
    pool.add_transaction("m".to_string(), vec![out(100, &a), out(3, "not base64!")]);
    let wrong_key = Transaction::new(&kb, vec![spend("m", 0)], vec![out(1, "b")]).unwrap();
    assert_eq!(wrong_key.check(&pool), Err(TxError::InvalidSignature));
    assert!(!wrong_key.verify(&pool));
    let missing = Transaction::new(&ka, vec![spend("m", 5)], vec![out(1, "b")]).unwrap();
    assert_eq!(missing.check(&pool), Err(TxError::UnknownOutput));
    let over = Transaction::new(&ka, vec![spend("m", 0)], vec![out(101, "b")]).unwrap();
    assert_eq!(over.check(&pool), Err(TxError::InsufficientInputs));
    let twice = Transaction::new(&ka, vec![spend("m", 0), spend("m", 0)], vec![out(150, "b")]).unwrap();
    assert_eq!(twice.check(&pool), Err(TxError::DuplicateInput));
    let bad_address = Transaction::new(&ka, vec![spend("m", 1)], vec![out(1, "b")]).unwrap();
    assert_eq!(bad_address.check(&pool), Err(TxError::InvalidSignature));
    let mut tampered = Transaction::new(&ka, vec![spend("m", 0)], vec![out(1, "b")]).unwrap();
    tampered.inputs[0].signature[0] ^= 1;
    assert_eq!(tampered.check(&pool), Err(TxError::InvalidSignature));
}

#[test]
fn mint_without_inputs_does_not_verify() {
    let pool = UTXOPool::new();
    let mint = Transaction { inputs: vec![], outputs: vec![out(10, "a")] };
    assert_eq!(mint.check(&pool), Err(TxError::NoInputs));
    let empty = Transaction { inputs: vec![], outputs: vec![] };
    assert!(!empty.verify(&pool));
    assert_eq!(empty.check(&pool), Err(TxError::NoInputs));
}

#[test]
fn signing_is_deterministic_and_ignores_old_signatures() {
    let (ka, _) = keypair();
    let mut pre = spend("m", 1);
    pre.signature = vec![9, 9, 9];
    let t1 = Transaction::new(&ka, vec![spend("m", 1)], vec![out(1, "b")]).unwrap();
    let t2 = Transaction::new(&ka, vec![pre], vec![out(1, "b")]).unwrap();
    assert_eq!(t1.inputs[0].signature, t2.inputs[0].signature);
    let empty = Transaction::new(&ka, vec![], vec![out(1, "b")]).unwrap();
    assert!(empty.inputs.is_empty());
}

#[test]
fn input_less_submission_is_refused() {
    let (_, a) = keypair();
    let mut c = Blockchain::with_allocations(1, 50, vec![out(100, &a)]).unwrap();
    let m_id = c.chain[0].transactions[0].id();
    let zero_mint = Transaction { inputs: vec![], outputs: vec![] };
    assert_eq!(c.create_transaction(zero_mint), Err(TxError::NoInputs));
    assert!(c.pending_transactions.is_empty());
    assert!(c.utxos.get_utxo(&m_id, 0).is_some());
}

#[test]
fn signing_fails_with_a_key_too_small() {
    let (tiny, _) = keypair_bits(256);
    let r = Transaction::new(&tiny, vec![spend("m", 0)], vec![out(1, "b")]);
    assert!(matches!(r, Err(TxError::SigningError)));
}

#[test]
fn nothing_pending_is_a_no_op() {
    let mut c = Blockchain::new(1, 50).unwrap();
    let r = c.mine_pending_transactions("miner".to_string()).unwrap();
    assert!(matches!(r, MineOutcome::NothingToMine));
    assert_eq!(c.chain.len(), 1);
    assert_eq!(c.total_mined, 0);
}

#[test]
fn scenario_mint_spend_and_reward() {
    let (ka, a) = keypair();
    let b = "address-b".to_string();
    let miner = "address-c".to_string();
    let mut c = Blockchain::with_allocations(1, 50, vec![out(100, &a)]).unwrap();
    let m_id = c.chain[0].transactions[0].id();
    assert_eq!(c.balance_of(&a), 100);
    assert_eq!(c.utxos.get_utxo(&m_id, 0).unwrap().amount, 100);
    let t = Transaction::new(&ka, vec![spend(&m_id, 0)], vec![out(40, &b)]).unwrap();
    let t_id = t.id();
    assert_eq!(c.create_transaction(t), Ok(()));
    assert_eq!(c.balance_of(&b), 0);
    let (index, rejected, paid) = mined_index(c.mine_pending_transactions(miner.clone()));
    assert_eq!(index, 1);
    assert!(rejected.is_empty());
    assert!(paid);
    assert_eq!(c.balance_of(&a), 0);
    assert_eq!(c.balance_of(&b), 40);
    assert_eq!(c.balance_of(&miner), 50);
    assert!(c.utxos.get_utxo(&m_id, 0).is_none());
    assert_eq!(c.utxos.get_utxo(&t_id, 0).unwrap().amount, 40);
    assert_eq!(c.chain.len(), 2);
    assert_eq!(c.chain[1].transactions.len(), 2);
    assert_eq!(c.chain[1].transactions[0].id(), t_id);
    assert!(c.chain[1].transactions[1].inputs.is_empty());
    assert_eq!(c.chain[1].transactions[1].outputs[0].amount, 50);
    assert_eq!(c.chain[1].transactions[1].outputs[0].recipient, miner);
    assert_eq!(c.chain[1].previous_hash, c.chain[0].hash);
    assert!(c.pending_transactions.is_empty());
    assert_eq!(c.total_mined, 150);
    assert!(c.validate());
}

#[test]
fn double_spend_settles_once() {
    let (ka, a) = keypair();
    let mut c = Blockchain::with_allocations(1, 50, vec![out(100, &a)]).unwrap();
    let m_id = c.chain[0].transactions[0].id();
    let t1 = Transaction::new(&ka, vec![spend(&m_id, 0)], vec![out(60, "b")]).unwrap();
    let t2 = Transaction::new(&ka, vec![spend(&m_id, 0)], vec![out(70, "d")]).unwrap();
    assert_eq!(c.create_transaction(t1), Ok(()));
    assert_eq!(c.create_transaction(t2), Ok(()));
    let (_, rejected, _) = mined_index(c.mine_pending_transactions("miner".to_string()));
    assert_eq!(rejected, vec![(1, TxError::UnknownOutput)]);
    assert_eq!(c.chain[1].transactions.len(), 2);
    assert!(c.validate());
    assert_eq!(c.balance_of(&"b".to_string()), 60);
    assert_eq!(c.balance_of(&"d".to_string()), 0);
}

#[test]
fn submission_rejects_invalid() {
    let (_, a) = keypair();
    let (kb, _) = keypair();
    let mut c = Blockchain::with_allocations(1, 50, vec![out(100, &a)]).unwrap();
    let m_id = c.chain[0].transactions[0].id();
    let forged = Transaction::new(&kb, vec![spend(&m_id, 0)], vec![out(10, "b")]).unwrap();
    assert_eq!(c.create_transaction(forged), Err(TxError::InvalidSignature));
    assert!(c.pending_transactions.is_empty());
}

#[test]
fn supply_cap_withholds_reward() {
    let (ka, a) = keypair();
    let mut c = Blockchain::with_allocations(1, 8_000_000, vec![out(1, &a)]).unwrap();
    let mut prev = c.chain[0].transactions[0].id();
    let mut paid_rounds = vec![];
    for _ in 0..3 {
        let t = Transaction::new(&ka, vec![spend(&prev, 0)], vec![out(1, &a)]).unwrap();
        prev = t.id();
        assert_eq!(c.create_transaction(t), Ok(()));
        let (_, rejected, paid) = mined_index(c.mine_pending_transactions("miner".to_string()));
        assert!(rejected.is_empty());
        paid_rounds.push(paid);
        assert!(c.total_mined <= TOTAL_SUPPLY);
    }
    assert_eq!(paid_rounds, vec![true, true, false]);
    assert_eq!(c.total_mined, 16_000_001);
    assert_eq!(c.chain.len(), 4);
    assert_eq!(c.balance_of(&"miner".to_string()), 16_000_000);
    assert!(c.validate());
}

#[test]
fn allocations_over_cap_are_refused() {
    let r = Blockchain::with_allocations(1, 50, vec![out(TOTAL_SUPPLY, "a"), out(1, "b")]);
    assert!(matches!(r, Err(ChainError::SupplyCapExceeded)));
}

#[test]
fn tampering_breaks_validation() {
    let (ka, a) = keypair();
    let mut c = Blockchain::with_allocations(2, 50, vec![out(100, &a)]).unwrap();
    let m_id = c.chain[0].transactions[0].id();
    let t = Transaction::new(&ka, vec![spend(&m_id, 0)], vec![out(40, "b")]).unwrap();
    c.create_transaction(t).unwrap();
    mined_index(c.mine_pending_transactions("miner".to_string()));
    assert!(c.validate());
    for i in 0..2 {
        let saved = c.chain[i].clone();
        c.chain[i].previous_hash.push('x');
        assert!(!c.validate());
        c.chain[i] = saved.clone();
        c.chain[i].nonce += 1;
        assert!(!c.validate());
        c.chain[i] = saved.clone();
        c.chain[i].hash = "0".repeat(64);
        assert!(!c.validate());
        c.chain[i] = saved;
        assert!(c.validate());
    }
}

fn hex(bytes: &[u8]) -> String {
    bytes.iter().map(|b| format!("{:02x}", b)).collect()
}

fn text(out: &mut Vec<u8>, s: &str) {
    out.extend_from_slice(&(s.len() as u64).to_le_bytes());
    out.extend_from_slice(s.as_bytes());
}

#[test]
fn block_hash_matches_header_digest() {
    let b = Block::mine_at(7, 1_234_567, "00ff".to_string(), vec![], 0).unwrap();
    let mut header = Vec::new();
    header.extend_from_slice(&7u64.to_le_bytes());
    header.extend_from_slice(&1_234_567u128.to_le_bytes());
    text(&mut header, "00ff");
    header.extend_from_slice(&0u64.to_le_bytes());
    assert_eq!(b.hash, hex(&Sha256::digest(&header)));
}

#[test]
fn transaction_id_matches_serialization() {
    let t = Transaction {
        inputs: vec![spend("ab", 3)],
        outputs: vec![out(9, "r1"), out(1, "r2")],
    };
    let mut bytes = Vec::new();
    bytes.extend_from_slice(&1u64.to_le_bytes());
    text(&mut bytes, "ab");
    bytes.extend_from_slice(&3u64.to_le_bytes());
    bytes.extend_from_slice(&2u64.to_le_bytes());
    bytes.extend_from_slice(&9u64.to_le_bytes());
    text(&mut bytes, "r1");
    bytes.extend_from_slice(&1u64.to_le_bytes());
    text(&mut bytes, "r2");
    assert_eq!(t.id(), hex(&Sha256::digest(&bytes)));
}

#[test]
fn signing_message_layout() {
    let m = signing_bytes(&"tx".to_string(), 258);
    assert_eq!(m, vec![b't', b'x', 2, 1, 0, 0, 0, 0, 0, 0]);
}

#[test]
fn signature_ignored_by_id() {
    let mut t = Transaction { inputs: vec![spend("ab", 0)], outputs: vec![out(1, "r")] };
    let before = t.id();
    t.inputs[0].signature = vec![1, 2, 3];
    assert_eq!(t.id(), before);
}

#[test]
fn tampered_transactions_fail_validation() {
    let (ka, a) = keypair();
    let mut c = Blockchain::with_allocations(1, 50, vec![out(100, &a)]).unwrap();
    let m_id = c.chain[0].transactions[0].id();
    let t = Transaction::new(&ka, vec![spend(&m_id, 0)], vec![out(40, "b")]).unwrap();
    c.create_transaction(t).unwrap();
    mined_index(c.mine_pending_transactions("miner".to_string()));
    assert!(c.validate());
    let saved = c.chain[1].clone();
    c.chain[1].transactions[0].outputs[0].amount = 101;
    assert!(!c.validate());
    c.chain[1] = saved.clone();
    c.chain[1].transactions[1].outputs[0].amount = 51;
    assert!(!c.validate());
    c.chain[1] = saved.clone();
    c.chain[1].transactions[0].inputs[0].signature[0] ^= 1;
    assert!(!c.validate());
    c.chain[1] = saved.clone();
    c.chain[0].transactions[0].outputs[0].amount = 90;
    assert!(!c.validate());
    c.chain[0].transactions[0].outputs[0].amount = 100;
    c.chain[1] = saved;
    assert!(c.validate());
}

#[test]
fn withheld_reward_is_not_recorded() {
    let (ka, a) = keypair();
    let mut c = Blockchain::with_allocations(0, 30_000_000, vec![out(1, &a)]).unwrap();
    let m_id = c.chain[0].transactions[0].id();
    let t = Transaction::new(&ka, vec![spend(&m_id, 0)], vec![out(1, &a)]).unwrap();
    c.create_transaction(t).unwrap();
    let (_, _, paid) = mined_index(c.mine_pending_transactions("miner".to_string()));
    assert!(!paid);
    assert_eq!(c.chain[1].transactions.len(), 1);
    assert_eq!(c.chain[1].nonce, 0);
    assert_eq!(c.total_mined, 1);
    assert!(c.validate());
}
