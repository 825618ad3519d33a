//! The ledger engine: the node's mutable state and the operations that move
//! it, each taking the whole state at once.
use vstd::prelude::*;
use crate::block::{
    apply_txs, block_hash, block_wf, remove_tx_ids, rewind_pending, rewind_utxo, validate_block,
    Block, BlockValidityError,
};
use crate::chain_log::{record, resolve, spec_read_backward};
use crate::codec::ser_block;
use crate::mempool::Mempool;
use crate::transaction::{tx_id, tx_wf, validate, Sha256Hash, Transaction, TransactionValidityError};
use crate::utxo::{UTXOSet, UtxoKey, UtxoKeySet};

verus! {

/// The difficulty of a new ledger.
pub const DEFAULT_DIFFICULTY: u32 = 20;

/// The miner's reward of a new ledger.
pub const DEFAULT_REWARD: u32 = 10;

/// Why a block was not added to the ledger.
#[derive(Debug, PartialEq, Eq, Structural, Clone, Copy)]
pub enum BlockRejection {
    /// The block does not follow the current tip.
    NotOnTip,
    /// An index or the encoding does not fit the ledger's integer sizes, or
    /// the height is at its maximum.
    TooLarge,
    /// The block failed validation.
    Invalid(BlockValidityError),
}

/// The node's state: height, chain log, unspent outputs, memory pool,
/// difficulty, reward, and the hash of the tip.
#[derive(Debug)]
pub struct Ledger {
    pub block_height: u32,
    pub chain: Vec<u8>,
    pub utxo_set: UTXOSet,
    pub mempool: Mempool,
    pub difficulty: u32,
    pub reward: u32,
    pub previous_block_hash: Sha256Hash,
}

impl Ledger {
    pub open spec fn wf(&self) -> bool {
        self.utxo_set.wf() && self.mempool.wf()
    }

    /// An empty ledger with the default difficulty and reward.
    pub fn new() -> (r: Self)
        ensures
            r.wf(),
            r.block_height == 0,
            r.chain@.len() == 0,
            r.utxo_set@ == Map::<UtxoKey, crate::transaction::OutputView>::empty(),
            r.mempool@ == Map::<Seq<u8>, crate::transaction::TransactionView>::empty(),
            r.difficulty == DEFAULT_DIFFICULTY,
            r.reward == DEFAULT_REWARD,
            r.previous_block_hash@ == Seq::new(32, |i: int| 0u8),
    {
        let r = Ledger {
            block_height: 0,
            chain: Vec::new(),
            utxo_set: UTXOSet::new(),
            mempool: Mempool::new(),
            difficulty: DEFAULT_DIFFICULTY,
            reward: DEFAULT_REWARD,
            previous_block_hash: [0u8; 32],
        };
        assert(r.previous_block_hash@ =~= Seq::new(32, |i: int| 0u8));
        r
    }

    /// Validates `tx` against the unspent outputs and, if it is valid, admits
    /// it to the memory pool. Returns the validation result.
    pub fn submit_transaction(&mut self, tx: Transaction) -> (r: Result<u32, TransactionValidityError>)
        requires
            old(self).wf(),
            tx_wf(tx@),
        ensures
            final(self).wf(),
            r == validate(tx@, old(self).utxo_set@),
            r is Ok && !old(self).mempool@.contains_key(tx_id(tx@)) ==> final(self).mempool@
                == old(self).mempool@.insert(tx_id(tx@), tx@),
            r is Err || old(self).mempool@.contains_key(tx_id(tx@)) ==> final(self).mempool@
                == old(self).mempool@,
            final(self).utxo_set@ == old(self).utxo_set@,
            final(self).chain@ == old(self).chain@,
            final(self).previous_block_hash == old(self).previous_block_hash,
            final(self).block_height == old(self).block_height,
    {
        let r = tx.is_valid(&self.utxo_set);
        if r.is_ok() {
            self.mempool.insert(tx);
        }
        r
    }

    /// Adds a block that follows the tip and is valid under the current
    /// difficulty and reward: appends its record to the chain log, applies it
    /// to the unspent outputs, takes its transactions out of the memory pool,
    /// and makes it the tip. On rejection nothing changes.
    pub fn submit_block(&mut self, block: &Block) -> (r: Result<(), BlockRejection>)
        requires
            old(self).wf(),
        ensures
            final(self).wf(),
            r == (if block@.previous_block != old(self).previous_block_hash@ {
                Err(BlockRejection::NotOnTip)
            } else if !block_wf(block@) || ser_block(block@).len() > u32::MAX
                || old(self).block_height == u32::MAX {
                Err(BlockRejection::TooLarge)
            } else {
                match validate_block(block@, old(self).difficulty, old(self).reward, old(self).utxo_set@) {
                    Ok(()) => Ok(()),
                    Err(e) => Err(BlockRejection::Invalid(e)),
                }
            }),
            r is Ok ==> {
                &&& final(self).chain@ == old(self).chain@ + record(block@)
                &&& final(self).utxo_set@ == apply_txs(old(self).utxo_set@, block@.txs, block@.txs.len())
                &&& final(self).mempool@ == remove_tx_ids(old(self).mempool@, block@.txs, block@.txs.len())
                &&& final(self).previous_block_hash@ == block_hash(block@)
                &&& final(self).block_height == old(self).block_height + 1
            },
            r is Err ==> *final(self) == *old(self),
            final(self).difficulty == old(self).difficulty,
            final(self).reward == old(self).reward,
    {
        if !crate::bytes::hash_eq(&block.previous_block, &self.previous_block_hash) {
            return Err(BlockRejection::NotOnTip);
        }
        if !block.fits_u32_indices() || self.block_height == u32::MAX {
            return Err(BlockRejection::TooLarge);
        }
        let body_len = crate::codec::serialize_block(block).len();
        if body_len > u32::MAX as usize {
            return Err(BlockRejection::TooLarge);
        }
        match block.is_valid_block(self.difficulty, self.reward, &self.utxo_set) {
            Err(e) => return Err(BlockRejection::Invalid(e)),
            Ok(()) => {},
        }
        block.write_to_file(&mut self.chain);
        block.update_utxo_set(&mut self.utxo_set);
        block.update_mempool(&mut self.mempool);
        self.previous_block_hash = block.hash();
        self.block_height = self.block_height + 1;
        Ok(())
    }

    /// Undoes the tip block: reads it from the end of the chain log, cuts its
    /// record off, takes its outputs out of the unspent outputs, restores the
    /// outputs its inputs spent by walking the log backwards, and makes its
    /// predecessor the tip. Returns `false`, changing nothing, where the log's
    /// last record cannot be read.
    pub fn rewind_tip(&mut self) -> (r: bool)
        requires
            old(self).wf(),
        ensures
            final(self).wf(),
            r == (spec_read_backward(old(self).chain@, old(self).chain@.len() as int) matches Some((b, _))
                && block_wf(b)),
            r ==> {
                let (b, start) = spec_read_backward(old(self).chain@, old(self).chain@.len() as int)->0;
                let u = rewind_utxo(old(self).utxo_set@, b.txs, b.txs.len());
                let p = rewind_pending(Set::<UtxoKey>::empty(), b.txs, b.txs.len());
                &&& final(self).chain@ == old(self).chain@.take(start)
                &&& final(self).utxo_set@ == resolve(final(self).chain@, start, u, p).0
                &&& final(self).previous_block_hash@ == b.previous_block
                &&& final(self).block_height == if old(self).block_height == 0 {
                    0
                } else {
                    (old(self).block_height - 1) as u32
                }
            },
            !r ==> *final(self) == *old(self),
            final(self).mempool@ == old(self).mempool@,
            final(self).difficulty == old(self).difficulty,
            final(self).reward == old(self).reward,
    {
        let (block, start) = match Block::from_file_backwads(self.chain.as_slice(), self.chain.len()) {
            None => return false,
            Some(x) => x,
        };
        if !block.fits_u32_indices() {
            return false;
        }
        let mut pending = UtxoKeySet::new();
        block.rewind(&mut self.utxo_set, &mut pending);
        self.chain.truncate(start);
        Block::update_all_pending_utxos(self.chain.as_slice(), start, &mut self.utxo_set, &mut pending);
        self.previous_block_hash = block.previous_block;
        if self.block_height > 0 {
            self.block_height = self.block_height - 1;
        }
        true
    }
}

} // verus!
