use rustychain::block::{Block, BlockValidityError};
use rustychain::ledger::Ledger;
use rustychain::pow::are_first_n_bits_equal;
use rustychain::transaction::{Input, Output, Transaction, TransactionValidityError};

fn secret(seed: u8) -> Vec<u8> {
    vec![seed; 32]
}

fn public(seed: u8) -> Vec<u8> {
    let key = k256::ecdsa::SigningKey::from_slice(&secret(seed)).unwrap();
    key.verifying_key().to_encoded_point(true).as_bytes().to_vec()
}

fn coinbase(seed: u8, amount: u32, stamp: u64) -> Transaction {
    let mut tx = Transaction::with_time_stamp(stamp);
    tx.add_output(Output::new().set_pubkey(public(seed)).set_amount(amount).collect());
    tx
}

fn mined_block(ledger: &Ledger, txs: Vec<Transaction>) -> Block {
    let mut block = Block::new();
    block.set_previous_block(&ledger.previous_block_hash);
    for tx in txs {
        block.add(tx);
    }
    assert!(block.mine(ledger.difficulty));
    block
}

/// Returns the ledger after the first block, and that block's coinbase.
fn scenario_one() -> (Ledger, Transaction, Block) {
    let mut ledger = Ledger::new();
    ledger.difficulty = 8;
    let cb = coinbase(1, 10, 1);
    let b1 = mined_block(&ledger, vec![cb.clone()]);
    assert_eq!(b1.is_valid_block(8, 10, &ledger.utxo_set), Ok(()));
    assert_eq!(ledger.submit_block(&b1), Ok(()));
    (ledger, cb, b1)
}

fn spend(cb: &Transaction, signer: u8, stamp: u64) -> Transaction {
    let mut t2 = Transaction::with_time_stamp(stamp);
    let input = Input::new().set_tx_id(&cb.calculate_id()).set_utxo_id(0).sign(&secret(signer)).unwrap();
    t2.add_input(input);
    t2.add_output(Output::new().set_pubkey(public(2)).set_amount(4).collect());
    t2.add_output(Output::new().set_pubkey(public(3)).set_amount(5).collect());
    t2
}

fn scenario_two() -> (Ledger, Transaction, Block, Transaction, Block) {
    let (mut ledger, cb, b1) = scenario_one();
    let t2 = spend(&cb, 1, 2);
    assert_eq!(t2.is_valid(&ledger.utxo_set), Ok(1));
    let cb2 = coinbase(1, 11, 3);
    let b2 = mined_block(&ledger, vec![t2.clone(), cb2.clone()]);
    assert_eq!(b2.is_valid_block(8, 10, &ledger.utxo_set), Ok(()));
    assert_eq!(ledger.submit_block(&b2), Ok(()));
    (ledger, cb, b1, t2, b2)
}

#[test]
fn empty_block_with_only_coinbase() {
    let (ledger, cb, b1) = scenario_one();
    assert!(are_first_n_bits_equal(&[0u8; 32], &b1.hash(), 8));
    assert_eq!(ledger.utxo_set.len(), 1);
    let out = ledger.utxo_set.get(&cb.calculate_id(), 0).unwrap();
    assert_eq!(out.amount(), 10);
    assert_eq!(ledger.block_height, 1);
    assert_eq!(ledger.previous_block_hash, b1.hash());
}

#[test]
fn spend_chain() {
    let (ledger, cb, _b1, t2, b2) = scenario_two();
    assert_eq!(ledger.utxo_set.len(), 3);
    assert!(!ledger.utxo_set.contains_key(&cb.calculate_id(), 0));
    let id2 = t2.calculate_id();
    assert_eq!(ledger.utxo_set.get(&id2, 0).unwrap().amount(), 4);
    assert_eq!(ledger.utxo_set.get(&id2, 1).unwrap().amount(), 5);
    let cb2_id = b2.tx_list[1].calculate_id();
    assert_eq!(ledger.utxo_set.get(&cb2_id, 0).unwrap().amount(), 11);
    assert_eq!(ledger.block_height, 2);
}

#[test]
fn double_spend_rejection() {
    let (ledger, _cb, _b1, t2, _b2) = scenario_two();
    assert_eq!(t2.is_valid(&ledger.utxo_set), Err(TransactionValidityError::InputDoesNotExist(0)));
}

#[test]
fn bad_signature() {
    let (ledger, cb, _b1) = scenario_one();
    let forged = spend(&cb, 9, 2);
    assert_eq!(forged.is_valid(&ledger.utxo_set), Err(TransactionValidityError::InvalidSignature(0)));
}

#[test]
fn under_difficulty_block() {
    let ledger = Ledger::new();
    let mut block = Block::new();
    block.add(coinbase(1, 10, 1));
    assert!(block.mine(4));
    assert!(are_first_n_bits_equal(&[0u8; 32], &block.hash(), 4));
    loop {
        block.nonce = block.nonce.wrapping_add(1);
        if !are_first_n_bits_equal(&[0u8; 32], &block.hash(), 8) {
            break;
        }
    }
    assert_eq!(block.is_valid_block(8, 10, &ledger.utxo_set), Err(BlockValidityError::InvalidHash));
}

#[test]
fn rewind_round_trip() {
    let (mut ledger, cb, b1, t2, _b2) = scenario_two();
    assert!(ledger.rewind_tip());
    assert_eq!(ledger.utxo_set.len(), 1);
    let out = ledger.utxo_set.get(&cb.calculate_id(), 0).unwrap();
    assert_eq!(out.amount(), 10);
    assert_eq!(out.to_pubkey(), &public(1));
    assert!(!ledger.utxo_set.contains_key(&t2.calculate_id(), 0));
    assert_eq!(ledger.previous_block_hash, b1.hash());
    assert_eq!(ledger.block_height, 1);
    let mut again = Ledger::new();
    again.difficulty = 8;
    again.submit_block(&b1).unwrap();
    assert_eq!(ledger.chain, again.chain);
}

#[test]
fn block_not_on_tip_is_rejected() {
    let (mut ledger, _cb, b1) = scenario_one();
    assert_eq!(ledger.submit_block(&b1), Err(rustychain::ledger::BlockRejection::NotOnTip));
    assert_eq!(ledger.block_height, 1);
}

#[test]
fn wrong_miner_reward_is_rejected() {
    let mut ledger = Ledger::new();
    ledger.difficulty = 4;
    let block = mined_block(&ledger, vec![coinbase(1, 12, 1)]);
    assert_eq!(block.is_valid_block(4, 10, &ledger.utxo_set), Err(BlockValidityError::InvalidMinerReward));
    let r = ledger.submit_block(&block);
    assert_eq!(r, Err(rustychain::ledger::BlockRejection::Invalid(BlockValidityError::InvalidMinerReward)));
}

#[test]
fn invalid_transaction_in_block_is_rejected() {
    let (ledger, cb, _b1) = scenario_one();
    let forged = spend(&cb, 9, 2);
    let mut block = Block::new();
    block.add(forged);
    assert!(block.mine(4));
    assert_eq!(block.is_valid_block(4, 10, &ledger.utxo_set), Err(BlockValidityError::InvalidTransaction));
}

#[test]
fn intra_block_spend_is_rejected() {
    let ledger = Ledger::new();
    let cb = coinbase(1, 10, 1);
    let t2 = spend(&cb, 1, 2);
    let mut block = Block::new();
    block.add(cb);
    block.add(t2);
    assert!(block.mine(4));
    assert_eq!(block.is_valid_block(4, 10, &ledger.utxo_set), Err(BlockValidityError::InvalidTransaction));
}

#[test]
fn submitted_transaction_enters_mempool_and_leaves_with_block() {
    let (mut ledger, cb, _b1) = scenario_one();
    let t2 = spend(&cb, 1, 2);
    assert_eq!(ledger.submit_transaction(t2.clone()), Ok(1));
    assert_eq!(ledger.mempool.len(), 1);
    assert!(ledger.mempool.contains_id(&t2.calculate_id()));
    let mut block = Block::from_mempool(&ledger.mempool, &ledger.utxo_set);
    assert_eq!(block.tx_list.len(), 1);
    block.add(coinbase(1, 11, 5));
    block.set_previous_block(&ledger.previous_block_hash);
    assert!(block.mine(8));
    assert_eq!(ledger.submit_block(&block), Ok(()));
    assert_eq!(ledger.mempool.len(), 0);
}

#[test]
fn invalid_transaction_stays_out_of_mempool() {
    let (mut ledger, cb, _b1) = scenario_one();
    let forged = spend(&cb, 9, 2);
    assert_eq!(ledger.submit_transaction(forged), Err(TransactionValidityError::InvalidSignature(0)));
    assert_eq!(ledger.mempool.len(), 0);
}

#[test]
fn claim_beyond_u32_is_not_a_coinbase() {
    let ledger = Ledger::new();
    let mut tx = Transaction::with_time_stamp(1);
    tx.add_output(Output::new().set_pubkey(public(1)).set_amount(u32::MAX).collect());
    tx.add_output(Output::new().set_pubkey(public(1)).set_amount(11).collect());
    assert_eq!(tx.is_valid(&ledger.utxo_set), Err(TransactionValidityError::AmountTooLarge));
    let mut block = Block::new();
    block.add(tx);
    assert!(block.mine(4));
    assert_eq!(block.is_valid_block(4, 10, &ledger.utxo_set), Err(BlockValidityError::InvalidTransaction));
}

#[test]
fn fee_beyond_u32_is_refused() {
    let mut ledger = Ledger::new();
    ledger.difficulty = 4;
    let b1 = mined_block(&ledger, vec![coinbase(1, 10, 1)]);
    ledger.submit_block(&b1).unwrap();
    let mut big = Transaction::with_time_stamp(2);
    let mut cb = Transaction::with_time_stamp(3);
    cb.add_output(Output::new().set_pubkey(public(1)).set_amount(u32::MAX).collect());
    cb.add_output(Output::new().set_pubkey(public(1)).set_amount(u32::MAX).collect());
    let mut utxo = rustychain::utxo::UTXOSet::new();
    let id = cb.calculate_id();
    utxo.insert(id, 0, cb.outputs[0].clone());
    utxo.insert(id, 1, cb.outputs[1].clone());
    for i in 0..2u32 {
        big.add_input(Input::new().set_tx_id(&id).set_utxo_id(i).sign(&secret(1)).unwrap());
    }
    assert_eq!(big.is_valid(&utxo), Err(TransactionValidityError::AmountTooLarge));
    big.add_output(Output::new().set_pubkey(public(2)).set_amount(u32::MAX).collect());
    assert_eq!(big.is_valid(&utxo), Ok(u32::MAX));
}
