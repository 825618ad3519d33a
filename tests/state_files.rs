use rustychain::mempool::Mempool;
use rustychain::state::{
    deserialize_hash, deserialize_mempool, deserialize_u32, deserialize_utxo_set,
    serialize_mempool, serialize_u32, serialize_utxo_set,
};
use rustychain::transaction::{Output, Transaction};
use rustychain::utxo::UTXOSet;

#[test]
fn u32_state_round_trip() {
    assert_eq!(serialize_u32(20), vec![20, 0, 0, 0]);
    assert_eq!(deserialize_u32(&serialize_u32(0xdeadbeef)), Some(0xdeadbeef));
    assert_eq!(deserialize_u32(&[1, 2, 3]), None);
    assert_eq!(deserialize_u32(&[]), None);
}

#[test]
fn hash_state_needs_32_bytes() {
    assert_eq!(deserialize_hash(&[7u8; 32]), Some([7u8; 32]));
    assert_eq!(deserialize_hash(&[7u8; 31]), None);
}

#[test]
fn utxo_set_round_trip() {
    let mut utxo = UTXOSet::new();
    utxo.insert([1; 32], 0, Output::new().set_pubkey(vec![1, 2]).set_amount(5).collect());
    utxo.insert([2; 32], 3, Output::new().set_pubkey(vec![3]).set_amount(6).collect());
    let bytes = serialize_utxo_set(&utxo);
    let back = deserialize_utxo_set(&bytes).unwrap();
    assert_eq!(back.len(), 2);
    assert_eq!(back.get(&[1; 32], 0).unwrap().amount(), 5);
    assert_eq!(back.get(&[2; 32], 3).unwrap().to_pubkey(), &vec![3]);
    assert_eq!(serialize_utxo_set(&back), bytes);
    assert_eq!(deserialize_utxo_set(&serialize_utxo_set(&UTXOSet::new())).unwrap().len(), 0);
}

#[test]
fn utxo_set_with_repeated_key_is_refused() {
    let mut utxo = UTXOSet::new();
    utxo.insert([1; 32], 0, Output::new().set_pubkey(vec![1]).set_amount(5).collect());
    let one = serialize_utxo_set(&utxo);
    let mut twice = vec![2, 0, 0, 0, 0, 0, 0, 0];
    twice.extend_from_slice(&one[8..]);
    twice.extend_from_slice(&one[8..]);
    assert!(deserialize_utxo_set(&twice).is_none());
}

#[test]
fn mempool_round_trip() {
    let mut pool = Mempool::new();
    let a = Transaction::with_time_stamp(1);
    let mut b = Transaction::with_time_stamp(2);
    b.add_output(Output::new().set_pubkey(vec![4]).set_amount(1).collect());
    pool.insert(a.clone());
    pool.insert(b.clone());
    let bytes = serialize_mempool(&pool);
    let back = deserialize_mempool(&bytes).unwrap();
    assert_eq!(back.len(), 2);
    assert!(back.contains_id(&a.calculate_id()));
    assert!(back.contains_id(&b.calculate_id()));
    assert_eq!(serialize_mempool(&back), bytes);
}

#[test]
fn mempool_with_repeated_id_is_refused() {
    let mut pool = Mempool::new();
    pool.insert(Transaction::with_time_stamp(1));
    let one = serialize_mempool(&pool);
    let mut twice = vec![2, 0, 0, 0, 0, 0, 0, 0];
    twice.extend_from_slice(&one[8..]);
    twice.extend_from_slice(&one[8..]);
    assert!(deserialize_mempool(&twice).is_none());
}
