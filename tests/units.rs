use rustychain::block::Block;
use rustychain::mempool::Mempool;
use rustychain::message::{magic_step, MessageHeader, MessageType, MAGIC};
use rustychain::peers::{address_len, encode_peer_list};
use rustychain::pow::are_first_n_bits_equal;
use rustychain::transaction::{Input, Output, Transaction};
use rustychain::utxo::UTXOSet;

#[test]
fn first_bits_count_from_the_low_end() {
    assert!(are_first_n_bits_equal(&[0, 0], &[0, 0xf0], 12));
    assert!(!are_first_n_bits_equal(&[0, 0], &[0, 0x01], 12));
    assert!(are_first_n_bits_equal(&[0, 0], &[0, 0x01], 8));
    assert!(!are_first_n_bits_equal(&[0, 0], &[1, 0], 1));
    assert!(are_first_n_bits_equal(&[0, 0], &[2, 0], 1));
    assert!(are_first_n_bits_equal(&[1, 2], &[1, 2], 16));
    assert!(!are_first_n_bits_equal(&[1, 2], &[1, 2], 17));
    assert!(are_first_n_bits_equal(&[], &[], 0));
}

#[test]
fn header_type_and_ack() {
    let h = MessageHeader::new();
    assert_eq!(h.message_type, MessageType::StartPeering);
    assert!(!h.is_ack());
    let h = h.set_type(MessageType::Ack);
    assert!(h.is_ack());
    assert_eq!(h.to_wire(), vec![1, 0, 0, 0]);
    assert_eq!(MessageHeader::new().to_wire(), vec![0, 0, 0, 0]);
    assert_eq!(MessageHeader::from_wire(&h.to_wire()), Some(h));
    assert_eq!(MessageHeader::from_wire(&[2, 0, 0, 0]), None);
    assert_eq!(MessageHeader::from_wire(&[1, 0, 0]), None);
}

#[test]
fn magic_search_restarts_on_mismatch() {
    let stream = b"xrurrustyz";
    let mut matched = 0;
    let mut found_at = None;
    for (i, b) in stream.iter().enumerate() {
        matched = magic_step(matched, *b);
        if matched == MAGIC.len() {
            found_at = Some(i);
            break;
        }
    }
    assert_eq!(found_at, Some(8));
    let mut matched = 0;
    for b in b"xrurusty".iter() {
        matched = magic_step(matched, *b);
    }
    assert_eq!(matched, 0);
}

fn fee_tx(utxo: &mut UTXOSet, seed: u8, input_amount: u32, output_amount: u32) -> Transaction {
    let secret = vec![seed; 32];
    let key = k256::ecdsa::SigningKey::from_slice(&secret).unwrap();
    let public = key.verifying_key().to_encoded_point(true).as_bytes().to_vec();
    let source = [seed; 32];
    utxo.insert(source, 0, Output::new().set_pubkey(public.clone()).set_amount(input_amount).collect());
    let mut tx = Transaction::with_time_stamp(seed as u64);
    tx.add_input(Input::new().set_tx_id(&source).set_utxo_id(0).sign(&secret).unwrap());
    tx.add_output(Output::new().set_pubkey(public).set_amount(output_amount).collect());
    tx
}

#[test]
fn selection_keeps_the_highest_fees() {
    let mut utxo = UTXOSet::new();
    let mut pool = Mempool::new();
    let fees = [3u32, 1, 4, 1, 5, 9, 2, 6];
    for (i, fee) in fees.iter().enumerate() {
        let tx = fee_tx(&mut utxo, (i + 1) as u8, 100, 100 - fee);
        assert!(pool.insert(tx));
    }
    let block = Block::from_mempool(&pool, &utxo);
    let mut chosen: Vec<u32> = block.tx_list.iter().map(|t| t.is_valid(&utxo).unwrap()).collect();
    assert_eq!(chosen.len(), 5);
    chosen.sort();
    assert_eq!(chosen, vec![3, 4, 5, 6, 9]);
}

#[test]
fn selection_skips_invalid_transactions() {
    let mut utxo = UTXOSet::new();
    let mut pool = Mempool::new();
    let good = fee_tx(&mut utxo, 1, 10, 8);
    let mut bad = Transaction::with_time_stamp(99);
    bad.add_output(Output::new().set_pubkey(vec![2; 33]).set_amount(1).collect());
    pool.insert(bad);
    pool.insert(good.clone());
    let block = Block::from_mempool(&pool, &utxo);
    assert_eq!(block.tx_list.len(), 1);
    assert_eq!(block.tx_list[0].calculate_id(), good.calculate_id());
}

#[test]
fn remove_lowest_fee_returns_next_lowest() {
    let mut utxo = UTXOSet::new();
    let mut block = Block::new();
    for (i, fee) in [5u32, 2, 7, 2].iter().enumerate() {
        block.add(fee_tx(&mut utxo, (i + 1) as u8, 50, 50 - fee));
    }
    assert_eq!(block.remove_lowest_fee_transaction(&utxo), Some(2));
    assert_eq!(block.tx_list.len(), 3);
    assert_eq!(block.tx_list[1].is_valid(&utxo), Ok(7));
    assert_eq!(block.remove_lowest_fee_transaction(&utxo), Some(5));
    assert_eq!(block.remove_lowest_fee_transaction(&utxo), Some(7));
    assert_eq!(block.remove_lowest_fee_transaction(&utxo), None);
    assert_eq!(block.remove_lowest_fee_transaction(&utxo), None);
}

#[test]
fn mempool_keeps_one_per_id() {
    let mut pool = Mempool::new();
    let tx = Transaction::with_time_stamp(5);
    assert!(pool.insert(tx.clone()));
    assert!(!pool.insert(tx.clone()));
    assert_eq!(pool.len(), 1);
    assert!(pool.remove(&tx));
    assert!(!pool.remove(&tx));
    assert_eq!(pool.len(), 0);
}

#[test]
fn utxo_insert_replaces_and_remove_reports() {
    let mut utxo = UTXOSet::new();
    utxo.insert([1; 32], 0, Output::new().set_pubkey(vec![1]).set_amount(1).collect());
    utxo.insert([1; 32], 0, Output::new().set_pubkey(vec![1]).set_amount(2).collect());
    assert_eq!(utxo.len(), 1);
    assert_eq!(utxo.get(&[1; 32], 0).unwrap().amount(), 2);
    assert!(utxo.get(&[1; 32], 1).is_none());
    assert!(utxo.remove(&[1; 32], 0));
    assert!(!utxo.remove(&[1; 32], 0));
}

#[test]
fn peer_list_reply_layout() {
    let reply = encode_peer_list(&vec![vec![10, 0, 0, 1], vec![0xfe; 16]]);
    let mut expected = vec![2u8, 4, 10, 0, 0, 1, 6];
    expected.extend_from_slice(&[0xfe; 16]);
    assert_eq!(reply, expected);
    assert_eq!(encode_peer_list(&Vec::new()), vec![0]);
    assert_eq!(address_len(4), 4);
    assert_eq!(address_len(6), 16);
    assert_eq!(address_len(5), 0);
}
