//! The chain log: blocks as records `[len: u32 LE][block: len bytes][len: u32 LE]`,
//! one after the other. The trailing length lets a reader step backwards from
//! the end of a record to its start.
use vstd::prelude::*;
use crate::block::{block_wf, restore_txs, Block, BlockView};
use crate::bytes::{le32, push_u32, read_bytes, read_u32, spec_read_u32, lemma_le32_round_trip};
use crate::codec::{
    lemma_block_fits,
    at, block_fits, deserialize_block, lemma_at_split, lemma_at_whole,
    lemma_block_round_trip, lemma_ser_list_take, parse_block, ser_block, ser_list, serialize_block,
};
use crate::transaction::OutputView;
use crate::utxo::{UTXOSet, UtxoKey, UtxoKeySet};

verus! {

/// A body framed by its length on both sides.
pub open spec fn frame(body: Seq<u8>) -> Seq<u8> {
    le32(body.len() as u32) + body + le32(body.len() as u32)
}

/// The record that holds a block.
pub open spec fn record(b: BlockView) -> Seq<u8> {
    frame(ser_block(b))
}

/// A log holding `bs`, in order.
pub open spec fn chain_of(bs: Seq<BlockView>) -> Seq<u8> {
    ser_list(bs, |b: BlockView| record(b))
}

/// Where the record of `bs[i]` starts in `chain_of(bs)`.
pub open spec fn offset(bs: Seq<BlockView>, i: int) -> int {
    chain_of(bs.take(i)).len() as int
}

/// Whether `body` is exactly one encoded block, and which.
pub open spec fn decode_body(body: Seq<u8>) -> Option<BlockView> {
    match parse_block(body, 0) {
        Some((b, end)) => if end == body.len() {
            Some(b)
        } else {
            None
        },
        None => None,
    }
}

/// The block whose record starts at `pos`, and the position after the record.
pub open spec fn spec_read_forward(log: Seq<u8>, pos: int) -> Option<(BlockView, int)> {
    match spec_read_u32(log, pos) {
        None => None,
        Some((n, p)) => if p + n + 4 <= log.len() {
            match decode_body(log.subrange(p, p + n)) {
                Some(b) => Some((b, p + n + 4)),
                None => None,
            }
        } else {
            None
        },
    }
}

/// The block whose record ends at `pos`, and the position where the record starts.
pub open spec fn spec_read_backward(log: Seq<u8>, pos: int) -> Option<(BlockView, int)> {
    if pos < 4 || pos > log.len() {
        None
    } else {
        match spec_read_u32(log, pos - 4) {
            None => None,
            Some((n, _)) => if pos - 8 - n < 0 {
                None
            } else {
                match decode_body(log.subrange(pos - 4 - n, pos - 4)) {
                    Some(b) => Some((b, pos - 8 - n)),
                    None => None,
                }
            },
        }
    }
}

/// Resolution of pending keys: walks the log backwards from `pos`, moving
/// every pending output found into the unspent outputs, until nothing is
/// pending, the log's start is reached, or a record cannot be read.
pub open spec fn resolve(log: Seq<u8>, pos: int, u: Map<UtxoKey, OutputView>, p: Set<UtxoKey>) -> (
    Map<UtxoKey, OutputView>,
    Set<UtxoKey>,
)
    decreases pos,
{
    if p == Set::<UtxoKey>::empty() || pos <= 0 {
        (u, p)
    } else {
        match spec_read_backward(log, pos) {
            None => (u, p),
            Some((b, q)) => if !block_wf(b) || q >= pos {
                (u, p)
            } else {
                let (u1, p1) = restore_txs(u, p, b.txs, b.txs.len());
                resolve(log, q, u1, p1)
            },
        }
    }
}

fn decode_body_exec(body: &[u8]) -> (r: Option<Block>)
    ensures
        r matches Some(b) ==> decode_body(body@) == Some(b@),
        r is None ==> decode_body(body@) is None,
{
    deserialize_block(body)
}

impl Block {
    /// Whether the block's indices fit in a `u32`.
    pub fn fits_u32_indices(&self) -> (r: bool)
        ensures
            r == block_wf(self@),
    {
        if self.tx_list.len() > u32::MAX as usize {
            return false;
        }
        let mut i: usize = 0;
        while i < self.tx_list.len()
            invariant
                i <= self.tx_list@.len(),
                self.tx_list@.len() <= u32::MAX,
                forall|k: int| 0 <= k < i ==> crate::transaction::tx_wf(#[trigger] self@.txs[k]),
            decreases self.tx_list@.len() - i,
        {
            let t = &self.tx_list[i];
            assert(t@ == self@.txs[i as int]);
            if t.inputs.len() > u32::MAX as usize || t.outputs.len() > u32::MAX as usize {
                return false;
            }
            i = i + 1;
        }
        true
    }

    /// Appends this block's record to the log. A block whose encoding is
    /// longer than `u32::MAX` bytes is not written, and `false` comes back.
    pub fn write_to_file(&self, file: &mut Vec<u8>) -> (r: bool)
        ensures
            r == (ser_block(self@).len() <= u32::MAX),
            final(file)@ == if r {
                old(file)@ + record(self@)
            } else {
                old(file)@
            },
    {
        let body = serialize_block(self);
        if body.len() > u32::MAX as usize {
            return false;
        }
        let len = body.len() as u32;
        push_u32(file, len);
        crate::bytes::push_bytes(file, body.as_slice());
        push_u32(file, len);
        assert(file@ =~= old(file)@ + record(self@));
        true
    }

    /// Reads the record that starts at `pos`; returns the block and the
    /// position after the record.
    pub fn from_file(file: &[u8], pos: usize) -> (r: Option<(Self, usize)>)
        ensures
            r matches Some((b, p)) ==> spec_read_forward(file@, pos as int) == Some((b@, p as int)),
            r is None ==> spec_read_forward(file@, pos as int) is None,
    {
        let (n, p) = match read_u32(file, pos) {
            None => return None,
            Some(x) => x,
        };
        if file.len() - p < 4 || (file.len() - p - 4) < n as usize {
            return None;
        }
        let (body, q) = match read_bytes(file, p, n as usize) {
            None => return None,
            Some(x) => x,
        };
        match decode_body_exec(body.as_slice()) {
            Some(b) => Some((b, q + 4)),
            None => None,
        }
    }

    /// Reads the record that ends at `pos`; returns the block and the
    /// position where the record starts, ready for another step back.
    pub fn from_file_backwads(file: &[u8], pos: usize) -> (r: Option<(Self, usize)>)
        ensures
            r matches Some((b, p)) ==> spec_read_backward(file@, pos as int) == Some((b@, p as int)),
            r is None ==> spec_read_backward(file@, pos as int) is None,
    {
        if pos < 4 || pos > file.len() {
            return None;
        }
        let (n, _) = match read_u32(file, pos - 4) {
            None => return None,
            Some(x) => x,
        };
        if pos < 8 || pos - 8 < n as usize {
            return None;
        }
        let start = pos - 4 - n as usize;
        let (body, _) = match read_bytes(file, start, n as usize) {
            None => return None,
            Some(x) => x,
        };
        match decode_body_exec(body.as_slice()) {
            Some(b) => Some((b, start - 4)),
            None => None,
        }
    }

    /// Walks the log backwards from `pos` and moves every pending output it
    /// finds into the unspent outputs, until nothing is pending (see `resolve`).
    pub fn update_all_pending_utxos(
        chain: &[u8],
        pos: usize,
        utxo_set: &mut UTXOSet,
        utxos_to_add: &mut UtxoKeySet,
    )
        requires
            old(utxo_set).wf(),
            old(utxos_to_add).wf(),
        ensures
            final(utxo_set).wf(),
            final(utxos_to_add).wf(),
            (final(utxo_set)@, final(utxos_to_add)@) == resolve(
                chain@,
                pos as int,
                old(utxo_set)@,
                old(utxos_to_add)@,
            ),
    {
        let mut cur = pos;
        while !utxos_to_add.is_empty() && cur > 0
            invariant
                utxo_set.wf(),
                utxos_to_add.wf(),
                resolve(chain@, cur as int, utxo_set@, utxos_to_add@) == resolve(
                    chain@,
                    pos as int,
                    old(utxo_set)@,
                    old(utxos_to_add)@,
                ),
            decreases cur,
        {
            let (block, q) = match Block::from_file_backwads(chain, cur) {
                None => return,
                Some(x) => x,
            };
            if !block.fits_u32_indices() || q >= cur {
                return;
            }
            block.add_pending_utxos_to_utxo_set(utxo_set, utxos_to_add);
            cur = q;
        }
    }
}

/// Reading backwards from the end of a log just appended to gives back the
/// appended block, and the position where its record starts.
pub proof fn lemma_append_read_backward(log: Seq<u8>, b: BlockView)
    requires
        block_fits(b),
        ser_block(b).len() <= u32::MAX,
    ensures
        spec_read_backward(log + record(b), (log + record(b)).len() as int) == Some((b, log.len() as int)),
{
    let whole = log + record(b);
    lemma_at_whole(whole);
    lemma_at_split(whole, 0, log, record(b));
    lemma_read_record(whole, log.len() as int, b);
}

/// The lengths around a framed body read as its length.
proof fn lemma_read_frame(log: Seq<u8>, pos: int, body: Seq<u8>)
    requires
        at(log, pos, frame(body)),
        body.len() <= u32::MAX,
    ensures
        spec_read_u32(log, pos) == Some((body.len() as u32, pos + 4)),
        spec_read_u32(log, pos + 4 + body.len()) == Some((body.len() as u32, pos + 8 + body.len())),
        log.subrange(pos + 4, pos + 4 + body.len()) == body,
        frame(body).len() == body.len() + 8,
{
    let n = body.len() as u32;
    lemma_le32_round_trip(n);
    lemma_at_split(log, pos, le32(n) + body, le32(n));
    lemma_at_split(log, pos, le32(n), body);
}

/// A record at `pos` reads forwards and backwards as its block.
#[verifier::rlimit(50)]
pub proof fn lemma_read_record(log: Seq<u8>, pos: int, b: BlockView)
    requires
        at(log, pos, record(b)),
        block_fits(b),
        ser_block(b).len() <= u32::MAX,
    ensures
        spec_read_forward(log, pos) == Some((b, pos + record(b).len())),
        spec_read_backward(log, pos + record(b).len()) == Some((b, pos)),
{
    let body = ser_block(b);
    lemma_read_frame(log, pos, body);
    lemma_block_round_trip(b);
    assert(decode_body(body) == Some(b));
}

/// Every record of a log built by appending reads, forwards from its start
/// and backwards from its end, as the block appended there: a forward scan
/// from the start and a backward scan from the end meet the same blocks in
/// opposite orders.
pub proof fn lemma_chain_scan(bs: Seq<BlockView>, i: int)
    requires
        0 <= i < bs.len(),
        forall|k: int| 0 <= k < bs.len() ==> block_fits(#[trigger] bs[k]),
        forall|k: int| 0 <= k < bs.len() ==> (#[trigger] ser_block(bs[k])).len() <= u32::MAX,
    ensures
        spec_read_forward(chain_of(bs), offset(bs, i)) == Some((bs[i], offset(bs, i + 1))),
        spec_read_backward(chain_of(bs), offset(bs, i + 1)) == Some((bs[i], offset(bs, i))),
{
    let f = |b: BlockView| record(b);
    lemma_ser_list_take(bs, f, i);
    lemma_chain_prefix(bs, i + 1);
    let whole = chain_of(bs);
    let pre = chain_of(bs.take(i + 1));
    assert(at(whole, 0, pre));
    assert(pre == chain_of(bs.take(i)) + record(bs[i]));
    lemma_at_split(whole, 0, chain_of(bs.take(i)), record(bs[i]));
    assert(block_fits(bs[i]));
    assert(ser_block(bs[i]).len() <= u32::MAX);
    lemma_read_record(whole, offset(bs, i), bs[i]);
}

/// The log of a prefix of the blocks is a prefix of the log.
pub proof fn lemma_chain_prefix(bs: Seq<BlockView>, j: int)
    requires
        0 <= j <= bs.len(),
    ensures
        at(chain_of(bs), 0, chain_of(bs.take(j))),
    decreases bs.len() - j,
{
    let f = |b: BlockView| record(b);
    if j == bs.len() {
        assert(bs.take(j) =~= bs);
        lemma_at_whole(chain_of(bs));
    } else {
        lemma_chain_prefix(bs, j + 1);
        lemma_ser_list_take(bs, f, j);
        lemma_at_split(chain_of(bs), 0, chain_of(bs.take(j)), record(bs[j]));
    }
}

/// `lemma_append_read_backward` for a block value: appending its record
/// (what `write_to_file` does when it returns `true`) and reading backwards
/// from the end gives the block back.
pub proof fn lemma_append_read_backward_value(log: Seq<u8>, b: &Block)
    requires
        ser_block(b@).len() <= u32::MAX,
    ensures
        spec_read_backward(log + record(b@), (log + record(b@)).len() as int) == Some((b@, log.len() as int)),
{
    lemma_block_fits(b);
    lemma_append_read_backward(log, b@);
}

/// `lemma_chain_scan` for block values: in a log of their records, the
/// record of block `i` reads forwards and backwards as that block.
pub proof fn lemma_chain_scan_values(bs: &Vec<Block>, i: int)
    requires
        0 <= i < bs@.len(),
        forall|k: int| 0 <= k < bs@.len() ==> (#[trigger] ser_block(bs@[k]@)).len() <= u32::MAX,
    ensures
        ({
            let vs = bs@.map_values(|b: Block| b@);
            &&& spec_read_forward(chain_of(vs), offset(vs, i)) == Some((vs[i], offset(vs, i + 1)))
            &&& spec_read_backward(chain_of(vs), offset(vs, i + 1)) == Some((vs[i], offset(vs, i)))
        }),
{
    let vs = bs@.map_values(|b: Block| b@);
    assert forall|k: int| 0 <= k < vs.len() implies block_fits(#[trigger] vs[k]) && ser_block(vs[k]).len() <= u32::MAX by {
        lemma_block_fits(&bs@[k]);
        assert(vs[k] == bs@[k]@);
    }
    lemma_chain_scan(vs, i);
}

} // verus!
