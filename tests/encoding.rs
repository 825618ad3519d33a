use rustychain::block::Block;
use rustychain::codec::{
    deserialize_block, deserialize_output, deserialize_tx, serialize_block, serialize_core,
    serialize_output, serialize_tx,
};
use k256::sha2::{Digest, Sha256};
use rustychain::transaction::{Input, InputCore, Output, Transaction, TransactionValidityError};
use rustychain::utxo::UTXOSet;

fn public(seed: u8) -> Vec<u8> {
    let key = k256::ecdsa::SigningKey::from_slice(&[seed; 32]).unwrap();
    key.verifying_key().to_encoded_point(true).as_bytes().to_vec()
}

fn sample_tx() -> Transaction {
    let mut tx = Transaction::with_time_stamp(0x0102030405060708);
    let input = Input::new().set_tx_id(&[7u8; 32]).set_utxo_id(3).sign(&vec![1u8; 32]).unwrap();
    tx.add_input(input);
    tx.add_output(Output::new().set_pubkey(public(2)).set_amount(4).collect());
    tx.add_output(Output::new().set_pubkey(public(3)).set_amount(5).collect());
    tx
}

#[test]
fn output_encoding_is_exact() {
    let out = Output::new().set_pubkey(vec![9, 8]).set_amount(0x01020304).collect();
    let bytes = serialize_output(&out);
    assert_eq!(bytes, vec![2, 0, 0, 0, 0, 0, 0, 0, 9, 8, 4, 3, 2, 1]);
    let back = deserialize_output(&bytes).unwrap();
    assert_eq!(back.amount(), 0x01020304);
    assert_eq!(back.to_pubkey(), &vec![9, 8]);
}

#[test]
fn core_encoding_is_hash_then_index() {
    let core = InputCore { tx_id: [5u8; 32], output_id: 258 };
    let bytes = serialize_core(&core);
    let mut expected = vec![5u8; 32];
    expected.extend_from_slice(&[2, 1, 0, 0]);
    assert_eq!(bytes, expected);
}

#[test]
fn transaction_round_trip() {
    let tx = sample_tx();
    let bytes = serialize_tx(&tx);
    let back = deserialize_tx(&bytes).unwrap();
    assert_eq!(serialize_tx(&back), bytes);
    assert_eq!(back.calculate_id(), tx.calculate_id());
    assert_eq!(back.inputs[0].core.tx_id, [7u8; 32]);
    assert_eq!(back.inputs[0].core.output_id, 3);
    assert_eq!(back.outputs[1].amount(), 5);
}

#[test]
fn block_round_trip_keeps_nonce_last() {
    let mut block = Block::new();
    block.add(sample_tx());
    block.nonce = 0x1122334455667788;
    let bytes = serialize_block(&block);
    assert_eq!(&bytes[bytes.len() - 8..], &0x1122334455667788u64.to_le_bytes());
    let back = deserialize_block(&bytes).unwrap();
    assert_eq!(back.nonce, block.nonce);
    assert_eq!(back.hash(), block.hash());
}

#[test]
fn truncated_or_padded_bytes_are_refused() {
    let bytes = serialize_tx(&sample_tx());
    assert!(deserialize_tx(&bytes[..bytes.len() - 1]).is_none());
    let mut longer = bytes.clone();
    longer.push(0);
    assert!(deserialize_tx(&longer).is_none());
    assert!(deserialize_block(&[]).is_none());
}

#[test]
fn transaction_id_is_digest_of_encoding() {
    let tx = sample_tx();
    let id = tx.calculate_id();
    let digest: [u8; 32] = Sha256::digest(serialize_tx(&tx)).into();
    assert_eq!(id, digest);
    assert_eq!(id, tx.clone().calculate_id());
    let mut other = sample_tx();
    other.time_stamp += 1;
    assert_ne!(other.calculate_id(), id);
}

#[test]
fn block_hash_is_digest_of_encoding() {
    let mut block = Block::new();
    block.add(sample_tx());
    let bytes = serialize_block(&block);
    let digest: [u8; 32] = Sha256::digest(&bytes).into();
    assert_eq!(block.hash(), digest);
    assert_ne!(block.hash().to_vec(), bytes[..32].to_vec());
}

#[test]
fn signature_covers_the_core() {
    let input = Input::new().set_tx_id(&[7u8; 32]).set_utxo_id(3).sign(&vec![1u8; 32]).unwrap();
    assert_eq!(input.signature().len(), 64);
    assert!(input.verify(&public(1)));
    assert!(!input.verify(&public(2)));
    let mut moved = input.clone();
    moved.core.output_id = 4;
    assert!(!moved.verify(&public(1)));
    assert!(Input::new().set_tx_id(&[0u8; 32]).set_utxo_id(0).sign(&vec![0u8; 32]).is_none());
}

#[test]
fn coinbase_alone_claims_its_outputs() {
    let mut tx = Transaction::with_time_stamp(1);
    tx.add_output(Output::new().set_pubkey(public(1)).set_amount(10).collect());
    assert_eq!(tx.is_valid(&UTXOSet::new()), Err(TransactionValidityError::InvalidOutputAmount(10)));
    let empty = Transaction::with_time_stamp(1);
    assert_eq!(empty.is_valid(&UTXOSet::new()), Ok(0));
}
