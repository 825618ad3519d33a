use rustychain::block::Block;
use rustychain::transaction::{Output, Transaction};
use rustychain::utxo::{UTXOSet, UtxoKeySet};

fn block_with(amount: u32, stamp: u64) -> Block {
    let mut tx = Transaction::with_time_stamp(stamp);
    tx.add_output(Output::new().set_pubkey(vec![2; 33]).set_amount(amount).collect());
    let mut block = Block::new();
    block.add(tx);
    block.nonce = stamp;
    block
}

#[test]
fn record_is_framed_by_equal_lengths() {
    let block = block_with(10, 1);
    let mut log = Vec::new();
    assert!(block.write_to_file(&mut log));
    let body = rustychain::codec::serialize_block(&block);
    let n = (body.len() as u32).to_le_bytes();
    assert_eq!(&log[..4], &n);
    assert_eq!(&log[log.len() - 4..], &n);
    assert_eq!(&log[4..log.len() - 4], &body[..]);
}

#[test]
fn append_then_read_backward() {
    let mut log = Vec::new();
    let first = block_with(10, 1);
    let second = block_with(11, 2);
    first.write_to_file(&mut log);
    let mid = log.len();
    second.write_to_file(&mut log);
    let (back, start) = Block::from_file_backwads(&log, log.len()).unwrap();
    assert_eq!(back.hash(), second.hash());
    assert_eq!(start, mid);
    let (back, start) = Block::from_file_backwads(&log, mid).unwrap();
    assert_eq!(back.hash(), first.hash());
    assert_eq!(start, 0);
    assert!(Block::from_file_backwads(&log, 0).is_none());
}

#[test]
fn forward_and_backward_scans_agree() {
    let mut log = Vec::new();
    let blocks: Vec<Block> = (0..4).map(|i| block_with(10 + i as u32, i)).collect();
    for b in &blocks {
        assert!(b.write_to_file(&mut log));
    }
    let mut forward = Vec::new();
    let mut pos = 0;
    while let Some((b, next)) = Block::from_file(&log, pos) {
        forward.push(b.hash());
        pos = next;
    }
    assert_eq!(pos, log.len());
    let mut backward = Vec::new();
    let mut pos = log.len();
    while let Some((b, prev)) = Block::from_file_backwads(&log, pos) {
        backward.push(b.hash());
        pos = prev;
    }
    backward.reverse();
    let expected: Vec<_> = blocks.iter().map(|b| b.hash()).collect();
    assert_eq!(forward, expected);
    assert_eq!(backward, expected);
}

#[test]
fn pending_outputs_are_found_in_earlier_blocks() {
    let mut log = Vec::new();
    let first = block_with(10, 1);
    let second = block_with(20, 2);
    first.write_to_file(&mut log);
    second.write_to_file(&mut log);
    let id = first.tx_list[0].calculate_id();
    let mut utxo = UTXOSet::new();
    let mut pending = UtxoKeySet::new();
    pending.insert(id, 0);
    Block::update_all_pending_utxos(&log, log.len(), &mut utxo, &mut pending);
    assert!(pending.is_empty());
    assert_eq!(utxo.get(&id, 0).unwrap().amount(), 10);
    assert_eq!(utxo.len(), 1);
}

#[test]
fn rewind_moves_inputs_to_pending() {
    let block = block_with(10, 1);
    let mut utxo = UTXOSet::new();
    block.update_utxo_set(&mut utxo);
    assert_eq!(utxo.len(), 1);
    let mut pending = UtxoKeySet::new();
    block.rewind(&mut utxo, &mut pending);
    assert_eq!(utxo.len(), 0);
    assert!(pending.is_empty());
}
