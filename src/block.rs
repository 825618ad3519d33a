//! Blocks: proof of work, validity, mining, and their effect on the
//! unspent-output set.
use vstd::prelude::*;
use crate::codec::{ser_block, ser_block_prefix};
use crate::crypto::sha256_of;
use crate::pow::meets_difficulty;
use crate::transaction::{
    input_key, tx_id, tx_wf, validate, InputView, OutputView, Sha256Hash, Transaction,
    TransactionValidityError, TransactionView,
};
use crate::mempool::Mempool;
use crate::utxo::{UTXOSet, UtxoKey, UtxoKeySet};

verus! {

/// A block: the previous block's hash, a timestamp (seconds since the Unix
/// epoch), transactions, and the proof-of-work nonce.
#[derive(Debug)]
pub struct Block {
    pub previous_block: Sha256Hash,
    pub time_stamp: u64,
    pub tx_list: Vec<Transaction>,
    pub nonce: u64,
}

pub struct BlockView {
    pub previous_block: Seq<u8>,
    pub time_stamp: u64,
    pub txs: Seq<TransactionView>,
    pub nonce: u64,
}

impl View for Block {
    type V = BlockView;

    open spec fn view(&self) -> BlockView {
        BlockView {
            previous_block: self.previous_block@,
            time_stamp: self.time_stamp,
            txs: self.tx_list@.map_values(|t: Transaction| t@),
            nonce: self.nonce,
        }
    }
}

/// Why a block is not valid.
#[derive(Debug, PartialEq, Eq, Structural, Clone, Copy)]
pub enum BlockValidityError {
    /// The hash does not meet the difficulty.
    InvalidHash,
    /// A transaction failed other than by claiming more than its inputs
    /// (an amount too large for a `u32` included).
    InvalidTransaction,
    /// The amounts claimed differ from the reward plus the fees.
    InvalidMinerReward,
}

/// A block's id: the digest of its encoding.
pub open spec fn block_hash(b: BlockView) -> Seq<u8> {
    sha256_of(ser_block(b))
}

/// The block with another nonce.
pub open spec fn with_nonce(b: BlockView, nonce: u64) -> BlockView {
    BlockView { nonce, ..b }
}

/// The fees and the claimed amounts of the first `n` transactions, or `None`
/// where one of them fails other than by claiming more than its inputs.
pub open spec fn reward_tally(txs: Seq<TransactionView>, u: Map<UtxoKey, OutputView>, n: nat) -> Option<
    (int, int),
>
    decreases n,
{
    if n == 0 {
        Some((0, 0))
    } else {
        match reward_tally(txs, u, (n - 1) as nat) {
            None => None,
            Some((fees, claimed)) => match validate(txs[n - 1], u) {
                Ok(fee) => Some((fees + fee, claimed)),
                Err(TransactionValidityError::InvalidOutputAmount(delta)) => Some(
                    (fees, claimed + delta),
                ),
                Err(_) => None,
            },
        }
    }
}

/// Validity of a block under a difficulty and a reward, against `u`.
pub open spec fn validate_block(b: BlockView, difficulty: u32, reward: u32, u: Map<UtxoKey, OutputView>) -> Result<
    (),
    BlockValidityError,
> {
    if !meets_difficulty(block_hash(b), difficulty as nat) {
        Err(BlockValidityError::InvalidHash)
    } else {
        match reward_tally(b.txs, u, b.txs.len()) {
            None => Err(BlockValidityError::InvalidTransaction),
            Some((fees, claimed)) => if reward + fees == claimed {
                Ok(())
            } else {
                Err(BlockValidityError::InvalidMinerReward)
            },
        }
    }
}

/// `u` without the keys that the first `n` inputs refer to, taken out in order.
pub open spec fn remove_inputs(u: Map<UtxoKey, OutputView>, ins: Seq<InputView>, n: nat) -> Map<UtxoKey, OutputView>
    decreases n,
{
    if n == 0 {
        u
    } else {
        remove_inputs(u, ins, (n - 1) as nat).remove(input_key(ins[n - 1]))
    }
}

/// `u` with the first `n` outputs put under `(id, index)`.
pub open spec fn insert_outputs(u: Map<UtxoKey, OutputView>, id: Seq<u8>, outs: Seq<OutputView>, n: nat) -> Map<UtxoKey, OutputView>
    decreases n,
{
    if n == 0 {
        u
    } else {
        insert_outputs(u, id, outs, (n - 1) as nat).insert((id, (n - 1) as u32), outs[n - 1])
    }
}

/// The effect of one transaction: its inputs are spent, its outputs added.
pub open spec fn apply_tx(u: Map<UtxoKey, OutputView>, t: TransactionView) -> Map<UtxoKey, OutputView> {
    insert_outputs(remove_inputs(u, t.inputs, t.inputs.len()), tx_id(t), t.outputs, t.outputs.len())
}

/// The effect of the first `n` transactions, in order.
pub open spec fn apply_txs(u: Map<UtxoKey, OutputView>, txs: Seq<TransactionView>, n: nat) -> Map<UtxoKey, OutputView>
    decreases n,
{
    if n == 0 {
        u
    } else {
        apply_tx(apply_txs(u, txs, (n - 1) as nat), txs[n - 1])
    }
}

/// `u` without the keys `(id, i)` for `i < n`.
pub open spec fn remove_outputs(u: Map<UtxoKey, OutputView>, id: Seq<u8>, n: nat) -> Map<UtxoKey, OutputView>
    decreases n,
{
    if n == 0 {
        u
    } else {
        remove_outputs(u, id, (n - 1) as nat).remove((id, (n - 1) as u32))
    }
}

/// `p` without the keys `(id, i)` for `i < n`.
pub open spec fn unpend_outputs(p: Set<UtxoKey>, id: Seq<u8>, n: nat) -> Set<UtxoKey>
    decreases n,
{
    if n == 0 {
        p
    } else {
        unpend_outputs(p, id, (n - 1) as nat).remove((id, (n - 1) as u32))
    }
}

/// `p` with the keys that the first `n` inputs refer to.
pub open spec fn pend_inputs(p: Set<UtxoKey>, ins: Seq<InputView>, n: nat) -> Set<UtxoKey>
    decreases n,
{
    if n == 0 {
        p
    } else {
        pend_inputs(p, ins, (n - 1) as nat).insert(input_key(ins[n - 1]))
    }
}

/// The unspent outputs after undoing the first `n` transactions' outputs.
pub open spec fn rewind_utxo(u: Map<UtxoKey, OutputView>, txs: Seq<TransactionView>, n: nat) -> Map<UtxoKey, OutputView>
    decreases n,
{
    if n == 0 {
        u
    } else {
        remove_outputs(rewind_utxo(u, txs, (n - 1) as nat), tx_id(txs[n - 1]), txs[n - 1].outputs.len())
    }
}

/// The pending keys after undoing the first `n` transactions: each one's
/// outputs leave the set, then the keys its inputs spent join it.
pub open spec fn rewind_pending(p: Set<UtxoKey>, txs: Seq<TransactionView>, n: nat) -> Set<UtxoKey>
    decreases n,
{
    if n == 0 {
        p
    } else {
        let t = txs[n - 1];
        pend_inputs(
            unpend_outputs(rewind_pending(p, txs, (n - 1) as nat), tx_id(t), t.outputs.len()),
            t.inputs,
            t.inputs.len(),
        )
    }
}

/// Each of the first `n` outputs whose key `(id, i)` is pending moves into
/// the unspent outputs with its value.
pub open spec fn restore_outputs(
    u: Map<UtxoKey, OutputView>,
    p: Set<UtxoKey>,
    id: Seq<u8>,
    outs: Seq<OutputView>,
    n: nat,
) -> (Map<UtxoKey, OutputView>, Set<UtxoKey>)
    decreases n,
{
    if n == 0 {
        (u, p)
    } else {
        let (u1, p1) = restore_outputs(u, p, id, outs, (n - 1) as nat);
        let k = (id, (n - 1) as u32);
        if p1.contains(k) {
            (u1.insert(k, outs[n - 1]), p1.remove(k))
        } else {
            (u1, p1)
        }
    }
}

/// `restore_outputs` over the first `n` transactions, in order.
pub open spec fn restore_txs(
    u: Map<UtxoKey, OutputView>,
    p: Set<UtxoKey>,
    txs: Seq<TransactionView>,
    n: nat,
) -> (Map<UtxoKey, OutputView>, Set<UtxoKey>)
    decreases n,
{
    if n == 0 {
        (u, p)
    } else {
        let (u1, p1) = restore_txs(u, p, txs, (n - 1) as nat);
        restore_outputs(u1, p1, tx_id(txs[n - 1]), txs[n - 1].outputs, txs[n - 1].outputs.len())
    }
}

/// The most transactions that a block built from the memory pool holds.
pub const BLOCK_CAPACITY: usize = 5;

/// The fee of a valid transaction.
pub open spec fn fee_of(t: TransactionView, u: Map<UtxoKey, OutputView>) -> int {
    match validate(t, u) {
        Ok(fee) => fee as int,
        Err(_) => 0,
    }
}

/// The first index, among the first `n`, of a transaction with the lowest fee.
pub open spec fn lowest_index(sel: Seq<TransactionView>, u: Map<UtxoKey, OutputView>, n: nat) -> int
    decreases n,
{
    if n <= 1 {
        0
    } else {
        let j = lowest_index(sel, u, (n - 1) as nat);
        if fee_of(sel[n - 1], u) < fee_of(sel[j], u) {
            n - 1
        } else {
            j
        }
    }
}

/// The lowest fee in `sel`, or `u32::MAX` if it is empty.
pub open spec fn lowest_fee(sel: Seq<TransactionView>, u: Map<UtxoKey, OutputView>) -> int {
    if sel.len() == 0 {
        u32::MAX as int
    } else {
        fee_of(sel[lowest_index(sel, u, sel.len())], u)
    }
}

/// The transactions chosen from the first `n` of `ts`: invalid ones are
/// skipped; while fewer than `BLOCK_CAPACITY` are chosen each valid one joins;
/// after that one joins only with a fee above the lowest chosen, which then
/// leaves (the first of equals).
pub open spec fn select(ts: Seq<TransactionView>, u: Map<UtxoKey, OutputView>, n: nat) -> Seq<TransactionView>
    decreases n,
{
    if n == 0 {
        Seq::empty()
    } else {
        let sel = select(ts, u, (n - 1) as nat);
        let t = ts[n - 1];
        match validate(t, u) {
            Err(_) => sel,
            Ok(fee) => if sel.len() < BLOCK_CAPACITY {
                sel.push(t)
            } else if fee > lowest_fee(sel, u) {
                sel.remove(lowest_index(sel, u, sel.len())).push(t)
            } else {
                sel
            },
        }
    }
}

/// `m` without the ids of the first `n` transactions.
pub open spec fn remove_tx_ids(m: Map<Seq<u8>, TransactionView>, txs: Seq<TransactionView>, n: nat) -> Map<Seq<u8>, TransactionView>
    decreases n,
{
    if n == 0 {
        m
    } else {
        remove_tx_ids(m, txs, (n - 1) as nat).remove(tx_id(txs[n - 1]))
    }
}

pub proof fn lemma_lowest_index_prefix(s1: Seq<TransactionView>, s2: Seq<TransactionView>, u: Map<UtxoKey, OutputView>, n: nat)
    requires
        n <= s1.len(),
        n <= s2.len(),
        forall|i: int| 0 <= i < n ==> s1[i] == s2[i],
    ensures
        lowest_index(s1, u, n) == lowest_index(s2, u, n),
        n > 0 ==> 0 <= lowest_index(s1, u, n) < n,
    decreases n,
{
    if n > 1 {
        lemma_lowest_index_prefix(s1, s2, u, (n - 1) as nat);
    }
}

pub proof fn lemma_lowest_fee_push(sel: Seq<TransactionView>, u: Map<UtxoKey, OutputView>, t: TransactionView)
    requires
        fee_of(t, u) <= u32::MAX,
    ensures
        lowest_fee(sel.push(t), u) == if fee_of(t, u) < lowest_fee(sel, u) {
            fee_of(t, u)
        } else {
            lowest_fee(sel, u)
        },
{
    let s2 = sel.push(t);
    if sel.len() > 0 {
        lemma_lowest_index_prefix(sel, s2, u, sel.len());
    }
}

/// Every transaction's indices fit in a `u32`, and so does their number.
pub open spec fn block_wf(b: BlockView) -> bool {
    &&& b.txs.len() <= u32::MAX
    &&& forall|i: int| 0 <= i < b.txs.len() ==> tx_wf(#[trigger] b.txs[i])
}

pub proof fn lemma_tally_bound(txs: Seq<TransactionView>, u: Map<UtxoKey, OutputView>, n: nat)
    ensures
        reward_tally(txs, u, n) matches Some((f, c)) ==> 0 <= f <= n * (u32::MAX as int) && 0 <= c
            <= n * (u32::MAX as int),
    decreases n,
{
    if n > 0 {
        lemma_tally_bound(txs, u, (n - 1) as nat);
    }
}

pub proof fn lemma_tally_none_stable(txs: Seq<TransactionView>, u: Map<UtxoKey, OutputView>, n: nat, m: nat)
    requires
        n <= m,
        reward_tally(txs, u, n) is None,
    ensures
        reward_tally(txs, u, m) is None,
    decreases m - n,
{
    if n < m {
        lemma_tally_none_stable(txs, u, n, (m - 1) as nat);
    }
}

impl Block {
    /// An empty block after the all-zero hash, stamped with the current time.
    pub fn new() -> (r: Self)
        ensures
            r@.previous_block == Seq::new(32, |i: int| 0u8),
            r@.txs.len() == 0,
            r@.nonce == 0,
    {
        let r = Block {
            previous_block: [0u8; 32],
            time_stamp: crate::crypto::now_secs(),
            tx_list: Vec::new(),
            nonce: 0,
        };
        assert(r@.previous_block =~= Seq::new(32, |i: int| 0u8));
        r
    }

    pub fn set_previous_block(&mut self, previous: &Sha256Hash)
        ensures
            final(self)@ == (BlockView { previous_block: previous@, ..old(self)@ }),
    {
        self.previous_block = *previous;
    }

    pub fn add(&mut self, tx: Transaction)
        ensures
            final(self)@ == (BlockView { txs: old(self)@.txs.push(tx@), ..old(self)@ }),
    {
        self.tx_list.push(tx);
        assert(self@.txs =~= old(self)@.txs.push(tx@));
    }

    /// The block's id: the digest of its encoding.
    pub fn hash(&self) -> (r: Sha256Hash)
        ensures
            r@ == block_hash(self@),
    {
        let bytes = crate::codec::serialize_block(self);
        crate::crypto::sha256(&bytes)
    }

    /// Checks proof of work, then the transactions and the miner's reward.
    pub fn is_valid_block(&self, difficulty: u32, reward: u32, utxo_set: &UTXOSet) -> (r: Result<
        (),
        BlockValidityError,
    >)
        requires
            utxo_set.wf(),
            block_wf(self@),
        ensures
            r == validate_block(self@, difficulty, reward, utxo_set@),
    {
        let base = [0u8; 32];
        let hash = self.hash();
        assert(base@ =~= Seq::new(32, |i: int| 0u8));
        if !crate::pow::are_first_n_bits_equal(base.as_slice(), hash.as_slice(), difficulty as usize) {
            return Err(BlockValidityError::InvalidHash);
        }
        let ghost b = self@;
        let ghost u = utxo_set@;
        let mut fees: u64 = 0;
        let mut claimed: u64 = 0;
        let mut i: usize = 0;
        while i < self.tx_list.len()
            invariant
                b == self@,
                u == utxo_set@,
                utxo_set.wf(),
                block_wf(b),
                meets_difficulty(block_hash(b), difficulty as nat),
                i <= self.tx_list@.len(),
                reward_tally(b.txs, u, i as nat) == Some((fees as int, claimed as int)),
            decreases self.tx_list@.len() - i,
        {
            proof {
                lemma_tally_bound(b.txs, u, i as nat);
                assert(i * (u32::MAX as int) <= (u32::MAX as int) * (u32::MAX as int)) by (nonlinear_arith)
                    requires i <= u32::MAX;
                assert(tx_wf(b.txs[i as int]));
            }
            assert(self.tx_list@[i as int]@ == b.txs[i as int]);
            match self.tx_list[i].is_valid(utxo_set) {
                Ok(fee) => {
                    fees = fees + fee as u64;
                },
                Err(TransactionValidityError::InvalidOutputAmount(delta)) => {
                    claimed = claimed + delta as u64;
                },
                Err(_) => {
                    proof {
                        assert(self.tx_list@[i as int]@ == b.txs[i as int]);
                        assert(reward_tally(b.txs, u, (i + 1) as nat) is None);
                        lemma_tally_none_stable(b.txs, u, (i + 1) as nat, b.txs.len());
                    }
                    return Err(BlockValidityError::InvalidTransaction);
                },
            }
            i = i + 1;
        }
        proof {
            lemma_tally_bound(b.txs, u, i as nat);
            assert(i * (u32::MAX as int) <= (u32::MAX as int) * (u32::MAX as int)) by (nonlinear_arith)
                requires i <= u32::MAX;
        }
        if reward as u64 + fees != claimed {
            return Err(BlockValidityError::InvalidMinerReward);
        }
        Ok(())
    }

    /// Searches nonces from zero upwards for the first one under which the
    /// hash meets `difficulty`, rewriting only the trailing 8 bytes of the
    /// encoding at each attempt. Returns whether one was found; if none is,
    /// the block is left as it was.
    pub fn mine(&mut self, difficulty: u32) -> (r: bool)
        ensures
            final(self)@ == with_nonce(old(self)@, final(self)@.nonce),
            r ==> nonce_works(old(self)@, difficulty, final(self)@.nonce),
            r ==> meets_difficulty(block_hash(final(self)@), difficulty as nat),
            r ==> forall|n: u64| n < final(self)@.nonce ==> !#[trigger] nonce_works(old(self)@, difficulty, n),
            !r ==> final(self)@ == old(self)@,
            !r ==> forall|n: u64| !#[trigger] nonce_works(old(self)@, difficulty, n),
    {
        let ghost b = self@;
        let mut bytes = crate::codec::serialize_block(self);
        let ghost pre = ser_block_prefix(b);
        assert(bytes@.len() >= 8);
        let len = bytes.len();
        let at = len - 8;
        assert(bytes@.take(at as int) =~= pre);
        overwrite_u64(&mut bytes, at, 0);
        let base = [0u8; 32];
        assert(base@ =~= Seq::new(32, |i: int| 0u8));
        let mut nonce: u64 = 0;
        loop
            invariant
                b == self@,
                b == old(self)@,
                base@ == Seq::new(32, |i: int| 0u8),
                at + 8 == len,
                len == bytes@.len(),
                pre == ser_block_prefix(b),
                bytes@ == pre + crate::bytes::le64(nonce),
                forall|n: u64| n < nonce ==> !#[trigger] nonce_works(b, difficulty, n),
            decreases u64::MAX - nonce,
        {
            let hash = crate::crypto::sha256(&bytes);
            let found = crate::pow::are_first_n_bits_equal(base.as_slice(), hash.as_slice(), difficulty as usize);
            proof {
                assert(ser_block(with_nonce(b, nonce)) == bytes@);
                reveal(nonce_works);
                assert(found == nonce_works(b, difficulty, nonce));
            }
            if found {
                self.nonce = nonce;
                assert(self@ == with_nonce(b, nonce));
                assert(bytes@ == ser_block(self@));
                return true;
            }
            if nonce == u64::MAX {
                assert forall|n: u64| !#[trigger] nonce_works(b, difficulty, n) by {
                    if n < nonce {
                    }
                }
                return false;
            }
            nonce = nonce + 1;
            overwrite_u64(&mut bytes, at, nonce);
            assert(bytes@.take(at as int) =~= pre);
        }
    }

    /// Spends the block's inputs and adds its outputs, transaction by transaction.
    pub fn update_utxo_set(&self, utxo_set: &mut UTXOSet)
        requires
            old(utxo_set).wf(),
            block_wf(self@),
        ensures
            final(utxo_set).wf(),
            final(utxo_set)@ == apply_txs(old(utxo_set)@, self@.txs, self@.txs.len()),
    {
        let ghost txs = self@.txs;
        let mut i: usize = 0;
        while i < self.tx_list.len()
            invariant
                txs == self@.txs,
                block_wf(self@),
                i <= self.tx_list@.len(),
                utxo_set.wf(),
                utxo_set@ == apply_txs(old(utxo_set)@, txs, i as nat),
            decreases self.tx_list@.len() - i,
        {
            let tx = &self.tx_list[i];
            let ghost t = tx@;
            assert(t == txs[i as int]);
            let ghost u0 = utxo_set@;
            let mut j: usize = 0;
            while j < tx.inputs.len()
                invariant
                    t == tx@,
                    j <= tx.inputs@.len(),
                    utxo_set.wf(),
                    utxo_set@ == remove_inputs(u0, t.inputs, j as nat),
                decreases tx.inputs@.len() - j,
            {
                let input = &tx.inputs[j];
                assert(input@ == t.inputs[j as int]);
                utxo_set.remove(&input.core.tx_id, input.core.output_id);
                j = j + 1;
            }
            let id = tx.calculate_id();
            let ghost u1 = utxo_set@;
            let mut j: usize = 0;
            while j < tx.outputs.len()
                invariant
                    t == tx@,
                    tx_wf(t),
                    id@ == tx_id(t),
                    j <= tx.outputs@.len(),
                    utxo_set.wf(),
                    utxo_set@ == insert_outputs(u1, id@, t.outputs, j as nat),
                decreases tx.outputs@.len() - j,
            {
                let out = tx.outputs[j].duplicate();
                assert(out@ == t.outputs[j as int]);
                utxo_set.insert(id, j as u32, out);
                j = j + 1;
            }
            i = i + 1;
        }
    }

    /// Undoes the block on the unspent outputs: each transaction's outputs
    /// leave both sets, then the keys its inputs spent become pending, to be
    /// found in earlier blocks.
    pub fn rewind(&self, utxo_set: &mut UTXOSet, utxos_to_add: &mut UtxoKeySet)
        requires
            old(utxo_set).wf(),
            old(utxos_to_add).wf(),
            block_wf(self@),
        ensures
            final(utxo_set).wf(),
            final(utxos_to_add).wf(),
            final(utxo_set)@ == rewind_utxo(old(utxo_set)@, self@.txs, self@.txs.len()),
            final(utxos_to_add)@ == rewind_pending(old(utxos_to_add)@, self@.txs, self@.txs.len()),
    {
        let ghost txs = self@.txs;
        let mut i: usize = 0;
        while i < self.tx_list.len()
            invariant
                txs == self@.txs,
                block_wf(self@),
                i <= self.tx_list@.len(),
                utxo_set.wf(),
                utxos_to_add.wf(),
                utxo_set@ == rewind_utxo(old(utxo_set)@, txs, i as nat),
                utxos_to_add@ == rewind_pending(old(utxos_to_add)@, txs, i as nat),
            decreases self.tx_list@.len() - i,
        {
            let tx = &self.tx_list[i];
            let ghost t = tx@;
            assert(t == txs[i as int]);
            assert(tx_wf(t));
            let id = tx.calculate_id();
            let ghost u0 = utxo_set@;
            let ghost p0 = utxos_to_add@;
            let mut j: usize = 0;
            while j < tx.outputs.len()
                invariant
                    t == tx@,
                    tx_wf(t),
                    id@ == tx_id(t),
                    j <= tx.outputs@.len(),
                    utxo_set.wf(),
                    utxos_to_add.wf(),
                    utxo_set@ == remove_outputs(u0, id@, j as nat),
                    utxos_to_add@ == unpend_outputs(p0, id@, j as nat),
                decreases tx.outputs@.len() - j,
            {
                utxo_set.remove(&id, j as u32);
                utxos_to_add.remove(&id, j as u32);
                j = j + 1;
            }
            let ghost p1 = utxos_to_add@;
            let mut j: usize = 0;
            while j < tx.inputs.len()
                invariant
                    t == tx@,
                    j <= tx.inputs@.len(),
                    utxos_to_add.wf(),
                    utxos_to_add@ == pend_inputs(p1, t.inputs, j as nat),
                decreases tx.inputs@.len() - j,
            {
                let input = &tx.inputs[j];
                assert(input@ == t.inputs[j as int]);
                utxos_to_add.insert(input.core.tx_id, input.core.output_id);
                j = j + 1;
            }
            i = i + 1;
        }
    }

    /// Moves each output of this block whose key is pending into the
    /// unspent outputs.
    pub fn add_pending_utxos_to_utxo_set(&self, utxo_set: &mut UTXOSet, utxos_to_add: &mut UtxoKeySet)
        requires
            old(utxo_set).wf(),
            old(utxos_to_add).wf(),
            block_wf(self@),
        ensures
            final(utxo_set).wf(),
            final(utxos_to_add).wf(),
            (final(utxo_set)@, final(utxos_to_add)@) == restore_txs(
                old(utxo_set)@,
                old(utxos_to_add)@,
                self@.txs,
                self@.txs.len(),
            ),
    {
        let ghost txs = self@.txs;
        let mut i: usize = 0;
        while i < self.tx_list.len()
            invariant
                txs == self@.txs,
                block_wf(self@),
                i <= self.tx_list@.len(),
                utxo_set.wf(),
                utxos_to_add.wf(),
                (utxo_set@, utxos_to_add@) == restore_txs(old(utxo_set)@, old(utxos_to_add)@, txs, i as nat),
            decreases self.tx_list@.len() - i,
        {
            let tx = &self.tx_list[i];
            let ghost t = tx@;
            assert(t == txs[i as int]);
            assert(tx_wf(t));
            let id = tx.calculate_id();
            let ghost u0 = utxo_set@;
            let ghost p0 = utxos_to_add@;
            let mut j: usize = 0;
            while j < tx.outputs.len()
                invariant
                    t == tx@,
                    tx_wf(t),
                    id@ == tx_id(t),
                    j <= tx.outputs@.len(),
                    utxo_set.wf(),
                    utxos_to_add.wf(),
                    (utxo_set@, utxos_to_add@) == restore_outputs(u0, p0, id@, t.outputs, j as nat),
                decreases tx.outputs@.len() - j,
            {
                if utxos_to_add.remove(&id, j as u32) {
                    let out = tx.outputs[j].duplicate();
                    assert(out@ == t.outputs[j as int]);
                    utxo_set.insert(id, j as u32, out);
                }
                j = j + 1;
            }
            i = i + 1;
        }
    }

    /// Takes out every transaction of this block from the memory pool.
    pub fn update_mempool(&self, mempool: &mut Mempool)
        requires
            old(mempool).wf(),
        ensures
            final(mempool).wf(),
            final(mempool)@ == remove_tx_ids(old(mempool)@, self@.txs, self@.txs.len()),
    {
        let ghost txs = self@.txs;
        let mut i: usize = 0;
        while i < self.tx_list.len()
            invariant
                txs == self@.txs,
                i <= self.tx_list@.len(),
                mempool.wf(),
                mempool@ == remove_tx_ids(old(mempool)@, txs, i as nat),
            decreases self.tx_list@.len() - i,
        {
            assert(self.tx_list@[i as int]@ == txs[i as int]);
            mempool.remove(&self.tx_list[i]);
            i = i + 1;
        }
    }

    /// Takes out the first transaction with the lowest fee, and returns the
    /// lowest fee among those left (`None` if none is left or none was there).
    pub fn remove_lowest_fee_transaction(&mut self, utxo_set: &UTXOSet) -> (r: Option<u32>)
        requires
            utxo_set.wf(),
            block_wf(old(self)@),
            forall|i: int| 0 <= i < old(self)@.txs.len() ==> (#[trigger] validate(old(self)@.txs[i], utxo_set@)) is Ok,
        ensures
            old(self)@.txs.len() == 0 ==> final(self)@ == old(self)@ && r is None,
            old(self)@.txs.len() > 0 ==> final(self)@ == (BlockView {
                txs: old(self)@.txs.remove(lowest_index(old(self)@.txs, utxo_set@, old(self)@.txs.len())),
                ..old(self)@
            }),
            old(self)@.txs.len() > 0 ==> r == if final(self)@.txs.len() == 0 {
                None
            } else {
                Some(lowest_fee(final(self)@.txs, utxo_set@) as u32)
            },
    {
        assert forall|k: int| 0 <= k < self.tx_list@.len() implies tx_wf(#[trigger] self.tx_list@[k]@)
            && validate(self.tx_list@[k]@, utxo_set@) is Ok by {
            assert(self.tx_list@[k]@ == self@.txs[k]);
        }
        match lowest_position(&self.tx_list, utxo_set) {
            None => None,
            Some((i, _)) => {
                let ghost o = self@;
                proof {
                    lemma_lowest_index_prefix(o.txs, o.txs, utxo_set@, o.txs.len());
                    assert(o.txs =~= self.tx_list@.map_values(|t: Transaction| t@));
                }
                self.tx_list.remove(i);
                assert(self@.txs =~= o.txs.remove(lowest_index(o.txs, utxo_set@, o.txs.len())));
                assert forall|k: int| 0 <= k < self@.txs.len() implies tx_wf(#[trigger] self@.txs[k]) && validate(self@.txs[k], utxo_set@) is Ok by {
                    let k2 = if k < i { k } else { k + 1 };
                    assert(self@.txs[k] == o.txs[k2]);
                    assert(tx_wf(o.txs[k2]));
                    assert(validate(o.txs[k2], utxo_set@) is Ok);
                }
                assert forall|k: int| 0 <= k < self.tx_list@.len() implies tx_wf(#[trigger] self.tx_list@[k]@)
                    && validate(self.tx_list@[k]@, utxo_set@) is Ok by {
                    assert(self.tx_list@[k]@ == self@.txs[k]);
                }
                match lowest_position(&self.tx_list, utxo_set) {
                    None => None,
                    Some((_, fee)) => Some(fee),
                }
            },
        }
    }

    /// Builds a block of at most `BLOCK_CAPACITY` transactions from the memory
    /// pool, taken in the pool's order, keeping the highest fees.
    pub fn from_mempool(mempool: &Mempool, utxo_set: &UTXOSet) -> (r: Self)
        requires
            mempool.wf(),
            utxo_set.wf(),
            forall|i: int| 0 <= i < mempool.txs().len() ==> tx_wf(#[trigger] mempool.txs()[i]),
        ensures
            r@.previous_block == Seq::new(32, |i: int| 0u8),
            r@.nonce == 0,
            r@.txs == select(mempool.txs(), utxo_set@, mempool.txs().len()),
    {
        let mut block = Block::new();
        let ghost ts = mempool.txs();
        let ghost u = utxo_set@;
        let mut lowest: u32 = u32::MAX;
        let mut i: usize = 0;
        while i < mempool.entries.len()
            invariant
                ts == mempool.txs(),
                u == utxo_set@,
                utxo_set.wf(),
                forall|k: int| 0 <= k < ts.len() ==> tx_wf(#[trigger] ts[k]),
                i <= ts.len(),
                block@.previous_block == Seq::new(32, |i: int| 0u8),
                block@.nonce == 0,
                block@.txs == select(ts, u, i as nat),
                block@.txs.len() <= BLOCK_CAPACITY,
                forall|k: int| 0 <= k < block@.txs.len() ==> tx_wf(#[trigger] block@.txs[k]),
                forall|k: int| 0 <= k < block@.txs.len() ==> (#[trigger] validate(block@.txs[k], u)) is Ok,
                lowest as int == lowest_fee(block@.txs, u),
            decreases ts.len() - i,
        {
            let tx = &mempool.entries[i].tx;
            assert(tx@ == ts[i as int]);
            assert(tx_wf(tx@));
            let ghost sel = block@.txs;
            match tx.is_valid(utxo_set) {
                Err(_) => {},
                Ok(fee) => {
                    if block.tx_list.len() < BLOCK_CAPACITY {
                        block.add(tx.duplicate());
                        proof {
                            lemma_lowest_fee_push(sel, u, tx@);
                        }
                        if fee < lowest {
                            lowest = fee;
                        }
                    } else if fee > lowest {
                        let left = block.remove_lowest_fee_transaction(utxo_set);
                        let ghost sel2 = block@.txs;
                        proof {
                            lemma_lowest_index_prefix(sel, sel, u, sel.len());
                            let j = lowest_index(sel, u, sel.len());
                            assert forall|k: int| 0 <= k < sel2.len() implies tx_wf(#[trigger] sel2[k])
                                && validate(sel2[k], u) is Ok by {
                                let k2 = if k < j { k } else { k + 1 };
                                assert(sel2[k] == sel[k2]);
                            }
                        }
                        lowest = match left {
                            Some(f) => f,
                            None => u32::MAX,
                        };
                        block.add(tx.duplicate());
                        proof {
                            lemma_lowest_fee_push(sel2, u, tx@);
                        }
                        if fee < lowest {
                            lowest = fee;
                        }
                    }
                },
            }
            i = i + 1;
            assert(block@.txs == select(ts, u, i as nat));
        }
        block
    }
}

/// The position and fee of the first transaction with the lowest fee.
fn lowest_position(txs: &Vec<Transaction>, utxo_set: &UTXOSet) -> (r: Option<(usize, u32)>)
    requires
        utxo_set.wf(),
        forall|i: int| 0 <= i < txs@.len() ==> tx_wf(#[trigger] txs@[i]@),
        forall|i: int| 0 <= i < txs@.len() ==> (#[trigger] validate(txs@[i]@, utxo_set@)) is Ok,
    ensures
        txs@.len() == 0 ==> r is None,
        txs@.len() > 0 ==> (r matches Some((i, fee)) && i as int == lowest_index(
            txs@.map_values(|t: Transaction| t@),
            utxo_set@,
            txs@.len(),
        ) && fee as int == lowest_fee(txs@.map_values(|t: Transaction| t@), utxo_set@)),
{
    let ghost s = txs@.map_values(|t: Transaction| t@);
    let ghost u = utxo_set@;
    if txs.len() == 0 {
        return None;
    }
    assert(s[0] == txs@[0]@);
    let mut best: usize = 0;
    let mut best_fee: u32 = match txs[0].is_valid(utxo_set) {
        Ok(f) => f,
        Err(_) => 0,
    };
    let mut i: usize = 1;
    while i < txs.len()
        invariant
            s == txs@.map_values(|t: Transaction| t@),
            u == utxo_set@,
            utxo_set.wf(),
            forall|k: int| 0 <= k < txs@.len() ==> tx_wf(#[trigger] txs@[k]@),
            forall|k: int| 0 <= k < txs@.len() ==> (#[trigger] validate(txs@[k]@, utxo_set@)) is Ok,
            1 <= i <= txs@.len(),
            best as int == lowest_index(s, u, i as nat),
            best < i,
            best_fee as int == fee_of(s[best as int], u),
        decreases txs@.len() - i,
    {
        assert(s[i as int] == txs@[i as int]@);
        assert(validate(txs@[i as int]@, u) is Ok);
        let fee = match txs[i].is_valid(utxo_set) {
            Ok(f) => f,
            Err(_) => 0,
        };
        if fee < best_fee {
            best = i;
            best_fee = fee;
        }
        i = i + 1;
    }
    Some((best, best_fee))
}

/// Under `nonce`, the hash of `b` meets difficulty `d`.
#[verifier::opaque]
pub open spec fn nonce_works(b: BlockView, d: u32, nonce: u64) -> bool {
    meets_difficulty(block_hash(with_nonce(b, nonce)), d as nat)
}

/// Overwrites the last 8 bytes with the little-endian encoding of `v`.
fn overwrite_u64(bytes: &mut Vec<u8>, at: usize, v: u64)
    requires
        at + 8 == old(bytes)@.len(),
    ensures
        final(bytes)@ == old(bytes)@.take(at as int) + crate::bytes::le64(v),
{
    let len = bytes.len();
    let mut enc: Vec<u8> = Vec::new();
    crate::bytes::push_u64(&mut enc, v);
    assert(enc@ =~= crate::bytes::le64(v));
    let mut i: usize = 0;
    while i < 8
        invariant
            i <= 8,
            enc@ == crate::bytes::le64(v),
            bytes@.len() == old(bytes)@.len(),
            at + 8 == bytes@.len(),
            at + 8 <= usize::MAX,
            forall|j: int| 0 <= j < at ==> bytes@[j] == old(bytes)@[j],
            forall|j: int| 0 <= j < i ==> bytes@[at + j] == enc@[j],
        decreases 8 - i,
    {
        bytes.set(at + i, enc[i]);
        i = i + 1;
    }
    assert(bytes@ =~= old(bytes)@.take(at as int) + crate::bytes::le64(v));
}

} // verus!
