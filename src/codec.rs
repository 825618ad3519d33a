//! The canonical binary encoding of the ledger's values.
//!
//! Integers are little-endian; a byte string or a list is preceded by its
//! length as a `u64`; a hash is its 32 bytes. A block ends with its nonce, so
//! the nonce is always the last 8 bytes of a block's encoding.
use vstd::prelude::*;
use crate::bytes::{
    le32, le64, push_bytes, push_u32, push_u64, read_bytes, read_hash, read_u32, read_u64,
    spec_read_bytes, spec_read_u32, spec_read_u64, lemma_le32_round_trip, lemma_le64_round_trip,
};
use crate::block::{Block, BlockView};
use crate::transaction::{Input, InputCore, InputView, Output, OutputView, Transaction, TransactionView};

verus! {

/// The items of `s`, each encoded by `f`, one after the other.
pub open spec fn ser_list<A>(s: Seq<A>, f: spec_fn(A) -> Seq<u8>) -> Seq<u8>
    decreases s.len(),
{
    if s.len() == 0 {
        Seq::empty()
    } else {
        ser_list(s.drop_last(), f) + f(s.last())
    }
}

/// A length-prefixed byte string.
pub open spec fn ser_bytes(b: Seq<u8>) -> Seq<u8> {
    le64(b.len() as u64) + b
}

pub open spec fn ser_output(o: OutputView) -> Seq<u8> {
    ser_bytes(o.to_pubkey) + le32(o.amount)
}

/// The encoding of an input's core: the signed payload.
pub open spec fn ser_core(tx_id: Seq<u8>, output_id: u32) -> Seq<u8> {
    tx_id + le32(output_id)
}

pub open spec fn ser_input(i: InputView) -> Seq<u8> {
    ser_core(i.tx_id, i.output_id) + ser_bytes(i.signature)
}

pub open spec fn ser_tx(t: TransactionView) -> Seq<u8> {
    le64(t.time_stamp) + le64(t.inputs.len() as u64) + ser_list(t.inputs, |i: InputView| ser_input(i))
        + le64(t.outputs.len() as u64) + ser_list(t.outputs, |o: OutputView| ser_output(o))
}

/// A block's encoding without its nonce.
pub open spec fn ser_block_prefix(b: BlockView) -> Seq<u8> {
    b.previous_block + le64(b.time_stamp) + le64(b.txs.len() as u64) + ser_list(
        b.txs,
        |t: TransactionView| ser_tx(t),
    )
}

/// A block's encoding: the nonce comes last.
pub open spec fn ser_block(b: BlockView) -> Seq<u8> {
    ser_block_prefix(b) + le64(b.nonce)
}

pub proof fn lemma_ser_list_take<A>(s: Seq<A>, f: spec_fn(A) -> Seq<u8>, i: int)
    requires
        0 <= i < s.len(),
    ensures
        ser_list(s.take(i + 1), f) == ser_list(s.take(i), f) + f(s[i]),
{
    assert(s.take(i + 1).drop_last() =~= s.take(i));
}

pub fn write_bytes(out: &mut Vec<u8>, b: &Vec<u8>)
    ensures
        final(out)@ == old(out)@ + ser_bytes(b@),
{
    push_u64(out, b.len() as u64);
    push_bytes(out, b.as_slice());
    assert(final(out)@ =~= old(out)@ + ser_bytes(b@));
}

pub fn write_hash(out: &mut Vec<u8>, h: &[u8; 32])
    ensures
        final(out)@ == old(out)@ + h@,
{
    push_bytes(out, h.as_slice());
}

pub fn write_core(out: &mut Vec<u8>, c: &InputCore)
    ensures
        final(out)@ == old(out)@ + ser_core(c.tx_id@, c.output_id),
{
    write_hash(out, &c.tx_id);
    push_u32(out, c.output_id);
    assert(final(out)@ =~= old(out)@ + ser_core(c.tx_id@, c.output_id));
}

/// The encoding of an input's core, which its signature covers.
pub fn serialize_core(c: &InputCore) -> (r: Vec<u8>)
    ensures
        r@ == ser_core(c.tx_id@, c.output_id),
{
    let mut out: Vec<u8> = Vec::new();
    write_core(&mut out, c);
    assert(out@ =~= ser_core(c.tx_id@, c.output_id));
    out
}

pub fn write_output(out: &mut Vec<u8>, o: &Output)
    ensures
        final(out)@ == old(out)@ + ser_output(o@),
{
    write_bytes(out, &o.to_pubkey);
    push_u32(out, o.amount);
    assert(final(out)@ =~= old(out)@ + ser_output(o@));
}

pub fn write_input(out: &mut Vec<u8>, i: &Input)
    ensures
        final(out)@ == old(out)@ + ser_input(i@),
{
    write_core(out, &i.core);
    write_bytes(out, &i.signature);
    assert(final(out)@ =~= old(out)@ + ser_input(i@));
}

pub fn write_tx(out: &mut Vec<u8>, t: &Transaction)
    ensures
        final(out)@ == old(out)@ + ser_tx(t@),
{
    let ghost start = out@;
    push_u64(out, t.time_stamp);
    push_u64(out, t.inputs.len() as u64);
    let ghost mid = out@;
    let ghost ins = t@.inputs;
    let ghost fi = |i: InputView| ser_input(i);
    let mut k: usize = 0;
    while k < t.inputs.len()
        invariant
            k <= t.inputs@.len(),
            ins == t@.inputs,
            ins.len() == t.inputs@.len(),
            fi == (|i: InputView| ser_input(i)),
            out@ == mid + ser_list(ins.take(k as int), fi),
        decreases t.inputs@.len() - k,
    {
        proof {
            lemma_ser_list_take(ins, fi, k as int);
        }
        write_input(out, &t.inputs[k]);
        k = k + 1;
        assert(out@ =~= mid + ser_list(ins.take(k as int), fi));
    }
    assert(ins.take(k as int) =~= ins);
    push_u64(out, t.outputs.len() as u64);
    let ghost mid2 = out@;
    let ghost outs = t@.outputs;
    let ghost fo = |o: OutputView| ser_output(o);
    let mut k: usize = 0;
    while k < t.outputs.len()
        invariant
            k <= t.outputs@.len(),
            outs == t@.outputs,
            outs.len() == t.outputs@.len(),
            fo == (|o: OutputView| ser_output(o)),
            out@ == mid2 + ser_list(outs.take(k as int), fo),
        decreases t.outputs@.len() - k,
    {
        proof {
            lemma_ser_list_take(outs, fo, k as int);
        }
        write_output(out, &t.outputs[k]);
        k = k + 1;
        assert(out@ =~= mid2 + ser_list(outs.take(k as int), fo));
    }
    assert(outs.take(k as int) =~= outs);
    assert(out@ =~= start + ser_tx(t@));
}

/// The encoding of a transaction.
pub fn serialize_tx(t: &Transaction) -> (r: Vec<u8>)
    ensures
        r@ == ser_tx(t@),
{
    let mut out: Vec<u8> = Vec::new();
    write_tx(&mut out, t);
    assert(out@ =~= ser_tx(t@));
    out
}

pub fn write_block_prefix(out: &mut Vec<u8>, b: &Block)
    ensures
        final(out)@ == old(out)@ + ser_block_prefix(b@),
{
    let ghost start = out@;
    write_hash(out, &b.previous_block);
    push_u64(out, b.time_stamp);
    push_u64(out, b.tx_list.len() as u64);
    let ghost mid = out@;
    let ghost txs = b@.txs;
    let ghost ft = |t: TransactionView| ser_tx(t);
    let mut k: usize = 0;
    while k < b.tx_list.len()
        invariant
            k <= b.tx_list@.len(),
            txs == b@.txs,
            txs.len() == b.tx_list@.len(),
            ft == (|t: TransactionView| ser_tx(t)),
            out@ == mid + ser_list(txs.take(k as int), ft),
        decreases b.tx_list@.len() - k,
    {
        proof {
            lemma_ser_list_take(txs, ft, k as int);
        }
        write_tx(out, &b.tx_list[k]);
        k = k + 1;
        assert(out@ =~= mid + ser_list(txs.take(k as int), ft));
    }
    assert(txs.take(k as int) =~= txs);
    assert(out@ =~= start + ser_block_prefix(b@));
}

/// The encoding of a block.
pub fn serialize_block(b: &Block) -> (r: Vec<u8>)
    ensures
        r@ == ser_block(b@),
{
    let mut out: Vec<u8> = Vec::new();
    write_block_prefix(&mut out, b);
    push_u64(&mut out, b.nonce);
    assert(out@ =~= ser_block(b@));
    out
}

/// A length-prefixed byte string at `pos`.
pub open spec fn parse_bytes(b: Seq<u8>, pos: int) -> Option<(Seq<u8>, int)> {
    match spec_read_u64(b, pos) {
        None => None,
        Some((n, p)) => spec_read_bytes(b, p, n as int),
    }
}

pub open spec fn parse_output(b: Seq<u8>, pos: int) -> Option<(OutputView, int)> {
    match parse_bytes(b, pos) {
        None => None,
        Some((key, p)) => match spec_read_u32(b, p) {
            None => None,
            Some((amount, q)) => Some((OutputView { to_pubkey: key, amount }, q)),
        },
    }
}

pub open spec fn parse_input(b: Seq<u8>, pos: int) -> Option<(InputView, int)> {
    match spec_read_bytes(b, pos, 32) {
        None => None,
        Some((id, p)) => match spec_read_u32(b, p) {
            None => None,
            Some((index, q)) => match parse_bytes(b, q) {
                None => None,
                Some((sig, r)) => Some((InputView { tx_id: id, output_id: index, signature: sig }, r)),
            },
        },
    }
}

/// `n` items one after the other from `pos`, each read by `f`.
pub open spec fn parse_list<A>(b: Seq<u8>, pos: int, n: nat, f: spec_fn(Seq<u8>, int) -> Option<(A, int)>) -> Option<(Seq<A>, int)>
    decreases n,
{
    if n == 0 {
        Some((Seq::empty(), pos))
    } else {
        match parse_list(b, pos, (n - 1) as nat, f) {
            None => None,
            Some((xs, p)) => match f(b, p) {
                None => None,
                Some((x, q)) => Some((xs.push(x), q)),
            },
        }
    }
}

pub open spec fn parse_tx(b: Seq<u8>, pos: int) -> Option<(TransactionView, int)> {
    match spec_read_u64(b, pos) {
        None => None,
        Some((ts, p1)) => match spec_read_u64(b, p1) {
            None => None,
            Some((n_in, p2)) => match parse_list(b, p2, n_in as nat, |bb: Seq<u8>, pp: int| parse_input(bb, pp)) {
                None => None,
                Some((ins, p3)) => match spec_read_u64(b, p3) {
                    None => None,
                    Some((n_out, p4)) => match parse_list(b, p4, n_out as nat, |bb: Seq<u8>, pp: int| parse_output(bb, pp)) {
                        None => None,
                        Some((outs, p5)) => Some((TransactionView { time_stamp: ts, inputs: ins, outputs: outs }, p5)),
                    },
                },
            },
        },
    }
}

pub open spec fn parse_block(b: Seq<u8>, pos: int) -> Option<(BlockView, int)> {
    match spec_read_bytes(b, pos, 32) {
        None => None,
        Some((prev, p1)) => match spec_read_u64(b, p1) {
            None => None,
            Some((ts, p2)) => match spec_read_u64(b, p2) {
                None => None,
                Some((n, p3)) => match parse_list(b, p3, n as nat, |bb: Seq<u8>, pp: int| parse_tx(bb, pp)) {
                    None => None,
                    Some((txs, p4)) => match spec_read_u64(b, p4) {
                        None => None,
                        Some((nonce, p5)) => Some((BlockView { previous_block: prev, time_stamp: ts, txs, nonce }, p5)),
                    },
                },
            },
        },
    }
}

/// Whether `b` holds exactly one encoded value, read by `f` from the start.
pub open spec fn decodes_whole<A>(b: Seq<u8>, f: spec_fn(Seq<u8>, int) -> Option<(A, int)>) -> bool {
    f(b, 0) matches Some((_, end)) && end == b.len()
}

fn parse_bytes_exec(b: &[u8], pos: usize) -> (r: Option<(Vec<u8>, usize)>)
    ensures
        r matches Some((v, p)) ==> parse_bytes(b@, pos as int) == Some((v@, p as int)),
        r is None ==> parse_bytes(b@, pos as int) is None,
{
    let (n, p) = match read_u64(b, pos) {
        None => return None,
        Some(x) => x,
    };
    if n > (b.len() - p) as u64 {
        return None;
    }
    read_bytes(b, p, n as usize)
}

pub(crate) fn parse_output_exec(b: &[u8], pos: usize) -> (r: Option<(Output, usize)>)
    ensures
        r matches Some((v, p)) ==> parse_output(b@, pos as int) == Some((v@, p as int)),
        r is None ==> parse_output(b@, pos as int) is None,
{
    let (key, p) = match parse_bytes_exec(b, pos) {
        None => return None,
        Some(x) => x,
    };
    let (amount, q) = match read_u32(b, p) {
        None => return None,
        Some(x) => x,
    };
    Some((Output { to_pubkey: key, amount }, q))
}

fn parse_input_exec(b: &[u8], pos: usize) -> (r: Option<(Input, usize)>)
    ensures
        r matches Some((v, p)) ==> parse_input(b@, pos as int) == Some((v@, p as int)),
        r is None ==> parse_input(b@, pos as int) is None,
{
    let (id, p) = match read_hash(b, pos) {
        None => return None,
        Some(x) => x,
    };
    let (index, q) = match read_u32(b, p) {
        None => return None,
        Some(x) => x,
    };
    let (sig, r) = match parse_bytes_exec(b, q) {
        None => return None,
        Some(x) => x,
    };
    Some((Input { core: InputCore { tx_id: id, output_id: index }, signature: sig }, r))
}

pub(crate) fn parse_tx_exec(b: &[u8], pos: usize) -> (r: Option<(Transaction, usize)>)
    ensures
        r matches Some((v, p)) ==> parse_tx(b@, pos as int) == Some((v@, p as int)),
        r is None ==> parse_tx(b@, pos as int) is None,
{
    let (ts, p1) = match read_u64(b, pos) {
        None => return None,
        Some(x) => x,
    };
    let (n_in, p2) = match read_u64(b, p1) {
        None => return None,
        Some(x) => x,
    };
    let ghost fi = |bb: Seq<u8>, pp: int| parse_input(bb, pp);
    let mut inputs: Vec<Input> = Vec::new();
    let mut p = p2;
    let mut k: u64 = 0;
    while k < n_in
        invariant
            k <= n_in,
            spec_read_u64(b@, pos as int) == Some((ts, p1 as int)),
            spec_read_u64(b@, p1 as int) == Some((n_in, p2 as int)),
            fi == (|bb: Seq<u8>, pp: int| parse_input(bb, pp)),
            parse_list(b@, p2 as int, k as nat, fi) == Some((inputs@.map_values(|x: Input| x@), p as int)),
        decreases n_in - k,
    {
        let (x, q) = match parse_input_exec(b, p) {
            None => {
                proof {
                    lemma_parse_list_none(b@, p2 as int, (k + 1) as nat, n_in as nat, fi);
                }
                return None;
            },
            Some(x) => x,
        };
        let ghost before = inputs@.map_values(|x: Input| x@);
        inputs.push(x);
        assert(inputs@.map_values(|x: Input| x@) =~= before.push(x@));
        p = q;
        k = k + 1;
    }
    let ghost ins = inputs@.map_values(|x: Input| x@);
    let ghost p3 = p as int;
    let (n_out, p4) = match read_u64(b, p) {
        None => return None,
        Some(x) => x,
    };
    let ghost fo = |bb: Seq<u8>, pp: int| parse_output(bb, pp);
    let mut outputs: Vec<Output> = Vec::new();
    let mut p = p4;
    let mut k: u64 = 0;
    while k < n_out
        invariant
            k <= n_out,
            spec_read_u64(b@, pos as int) == Some((ts, p1 as int)),
            spec_read_u64(b@, p1 as int) == Some((n_in, p2 as int)),
            parse_list(b@, p2 as int, n_in as nat, |bb: Seq<u8>, pp: int| parse_input(bb, pp)) == Some((ins, p3)),
            spec_read_u64(b@, p3) == Some((n_out, p4 as int)),
            ins == inputs@.map_values(|x: Input| x@),
            fo == (|bb: Seq<u8>, pp: int| parse_output(bb, pp)),
            parse_list(b@, p4 as int, k as nat, fo) == Some((outputs@.map_values(|x: Output| x@), p as int)),
        decreases n_out - k,
    {
        let (x, q) = match parse_output_exec(b, p) {
            None => {
                proof {
                    lemma_parse_list_none(b@, p4 as int, (k + 1) as nat, n_out as nat, fo);
                }
                return None;
            },
            Some(x) => x,
        };
        let ghost before = outputs@.map_values(|x: Output| x@);
        outputs.push(x);
        assert(outputs@.map_values(|x: Output| x@) =~= before.push(x@));
        p = q;
        k = k + 1;
    }
    let t = Transaction { time_stamp: ts, inputs, outputs };
    Some((t, p))
}

fn parse_block_exec(b: &[u8], pos: usize) -> (r: Option<(Block, usize)>)
    ensures
        r matches Some((v, p)) ==> parse_block(b@, pos as int) == Some((v@, p as int)),
        r is None ==> parse_block(b@, pos as int) is None,
{
    let (prev, p1) = match read_hash(b, pos) {
        None => return None,
        Some(x) => x,
    };
    let (ts, p2) = match read_u64(b, p1) {
        None => return None,
        Some(x) => x,
    };
    let (n, p3) = match read_u64(b, p2) {
        None => return None,
        Some(x) => x,
    };
    let ghost ft = |bb: Seq<u8>, pp: int| parse_tx(bb, pp);
    let mut txs: Vec<Transaction> = Vec::new();
    let mut p = p3;
    let mut k: u64 = 0;
    while k < n
        invariant
            k <= n,
            spec_read_bytes(b@, pos as int, 32) == Some((prev@, p1 as int)),
            spec_read_u64(b@, p1 as int) == Some((ts, p2 as int)),
            spec_read_u64(b@, p2 as int) == Some((n, p3 as int)),
            ft == (|bb: Seq<u8>, pp: int| parse_tx(bb, pp)),
            parse_list(b@, p3 as int, k as nat, ft) == Some((txs@.map_values(|x: Transaction| x@), p as int)),
        decreases n - k,
    {
        let (x, q) = match parse_tx_exec(b, p) {
            None => {
                proof {
                    lemma_parse_list_none(b@, p3 as int, (k + 1) as nat, n as nat, ft);
                }
                return None;
            },
            Some(x) => x,
        };
        let ghost before = txs@.map_values(|x: Transaction| x@);
        txs.push(x);
        assert(txs@.map_values(|x: Transaction| x@) =~= before.push(x@));
        p = q;
        k = k + 1;
    }
    let (nonce, p5) = match read_u64(b, p) {
        None => return None,
        Some(x) => x,
    };
    Some((Block { previous_block: prev, time_stamp: ts, tx_list: txs, nonce }, p5))
}

/// Once a list fails to parse, a longer one fails too.
pub proof fn lemma_parse_list_none<A>(b: Seq<u8>, pos: int, n: nat, m: nat, f: spec_fn(Seq<u8>, int) -> Option<(A, int)>)
    requires
        n <= m,
        parse_list(b, pos, n, f) is None,
    ensures
        parse_list(b, pos, m, f) is None,
    decreases m - n,
{
    if n < m {
        lemma_parse_list_none(b, pos, n, (m - 1) as nat, f);
    }
}

/// Decodes a transaction that fills `bytes` exactly.
pub fn deserialize_tx(bytes: &[u8]) -> (r: Option<Transaction>)
    ensures
        r matches Some(t) ==> parse_tx(bytes@, 0) == Some((t@, bytes@.len() as int)),
        r is None ==> !decodes_whole(bytes@, |bb: Seq<u8>, pp: int| parse_tx(bb, pp)),
{
    match parse_tx_exec(bytes, 0) {
        Some((t, end)) => if end == bytes.len() {
            Some(t)
        } else {
            None
        },
        None => None,
    }
}

/// Decodes a block that fills `bytes` exactly.
pub fn deserialize_block(bytes: &[u8]) -> (r: Option<Block>)
    ensures
        r matches Some(x) ==> parse_block(bytes@, 0) == Some((x@, bytes@.len() as int)),
        r is None ==> !decodes_whole(bytes@, |bb: Seq<u8>, pp: int| parse_block(bb, pp)),
{
    match parse_block_exec(bytes, 0) {
        Some((x, end)) => if end == bytes.len() {
            Some(x)
        } else {
            None
        },
        None => None,
    }
}

/// Decodes an output that fills `bytes` exactly.
pub fn deserialize_output(bytes: &[u8]) -> (r: Option<Output>)
    ensures
        r matches Some(x) ==> parse_output(bytes@, 0) == Some((x@, bytes@.len() as int)),
        r is None ==> !decodes_whole(bytes@, |bb: Seq<u8>, pp: int| parse_output(bb, pp)),
{
    match parse_output_exec(bytes, 0) {
        Some((x, end)) => if end == bytes.len() {
            Some(x)
        } else {
            None
        },
        None => None,
    }
}

/// The encoding of an output.
pub fn serialize_output(o: &Output) -> (r: Vec<u8>)
    ensures
        r@ == ser_output(o@),
{
    let mut out: Vec<u8> = Vec::new();
    write_output(&mut out, o);
    assert(out@ =~= ser_output(o@));
    out
}

/// `s` stands in `b` at `pos`.
pub open spec fn at(b: Seq<u8>, pos: int, s: Seq<u8>) -> bool {
    0 <= pos && pos + s.len() <= b.len() && b.subrange(pos, pos + s.len()) == s
}

pub proof fn lemma_at_split(b: Seq<u8>, pos: int, s1: Seq<u8>, s2: Seq<u8>)
    requires
        at(b, pos, s1 + s2),
    ensures
        at(b, pos, s1),
        at(b, pos + s1.len(), s2),
{
    let whole = b.subrange(pos, pos + s1.len() + s2.len());
    assert(whole == s1 + s2);
    assert(b.subrange(pos, pos + s1.len()) =~= whole.subrange(0, s1.len() as int));
    assert(whole.subrange(0, s1.len() as int) =~= s1);
    assert(b.subrange(pos + s1.len(), pos + s1.len() + s2.len()) =~= whole.subrange(
        s1.len() as int,
        (s1.len() + s2.len()) as int,
    ));
    assert(whole.subrange(s1.len() as int, (s1.len() + s2.len()) as int) =~= s2);
}

pub proof fn lemma_at_whole(b: Seq<u8>)
    ensures
        at(b, 0, b),
{
    assert(b.subrange(0, b.len() as int) =~= b);
}

pub proof fn lemma_u32_at(b: Seq<u8>, pos: int, v: u32)
    requires
        at(b, pos, le32(v)),
    ensures
        spec_read_u32(b, pos) == Some((v, pos + 4)),
{
    lemma_le32_round_trip(v);
}

pub proof fn lemma_u64_at(b: Seq<u8>, pos: int, v: u64)
    requires
        at(b, pos, le64(v)),
    ensures
        spec_read_u64(b, pos) == Some((v, pos + 8)),
{
    lemma_le64_round_trip(v);
}

proof fn lemma_bytes_at(b: Seq<u8>, pos: int, s: Seq<u8>)
    requires
        at(b, pos, ser_bytes(s)),
        s.len() <= u64::MAX,
    ensures
        parse_bytes(b, pos) == Some((s, pos + ser_bytes(s).len())),
{
    lemma_le64_round_trip(s.len() as u64);
    lemma_at_split(b, pos, le64(s.len() as u64), s);
    lemma_u64_at(b, pos, s.len() as u64);
}

/// Lengths that the encoding can carry: every byte string and list has at
/// most `u64::MAX` items, and every hash 32 bytes.
pub open spec fn output_fits(o: OutputView) -> bool {
    o.to_pubkey.len() <= u64::MAX
}

pub open spec fn input_fits(i: InputView) -> bool {
    i.tx_id.len() == 32 && i.signature.len() <= u64::MAX
}

pub open spec fn tx_fits(t: TransactionView) -> bool {
    &&& t.inputs.len() <= u64::MAX
    &&& t.outputs.len() <= u64::MAX
    &&& forall|i: int| 0 <= i < t.inputs.len() ==> input_fits(#[trigger] t.inputs[i])
    &&& forall|i: int| 0 <= i < t.outputs.len() ==> output_fits(#[trigger] t.outputs[i])
}

pub open spec fn block_fits(b: BlockView) -> bool {
    &&& b.previous_block.len() == 32
    &&& b.txs.len() <= u64::MAX
    &&& forall|i: int| 0 <= i < b.txs.len() ==> tx_fits(#[trigger] b.txs[i])
}

pub proof fn lemma_output_at(b: Seq<u8>, pos: int, o: OutputView)
    requires
        at(b, pos, ser_output(o)),
        output_fits(o),
    ensures
        parse_output(b, pos) == Some((o, pos + ser_output(o).len())),
{
    lemma_at_split(b, pos, ser_bytes(o.to_pubkey), le32(o.amount));
    lemma_bytes_at(b, pos, o.to_pubkey);
    lemma_le32_round_trip(o.amount);
    lemma_u32_at(b, pos + ser_bytes(o.to_pubkey).len(), o.amount);
}

proof fn lemma_input_at(b: Seq<u8>, pos: int, i: InputView)
    requires
        at(b, pos, ser_input(i)),
        input_fits(i),
    ensures
        parse_input(b, pos) == Some((i, pos + ser_input(i).len())),
{
    lemma_at_split(b, pos, ser_core(i.tx_id, i.output_id), ser_bytes(i.signature));
    lemma_at_split(b, pos, i.tx_id, le32(i.output_id));
    lemma_le32_round_trip(i.output_id);
    lemma_u32_at(b, pos + 32, i.output_id);
    lemma_bytes_at(b, pos + 36, i.signature);
}

pub proof fn lemma_list_at<A>(
    b: Seq<u8>,
    pos: int,
    xs: Seq<A>,
    g: spec_fn(A) -> Seq<u8>,
    f: spec_fn(Seq<u8>, int) -> Option<(A, int)>,
)
    requires
        at(b, pos, ser_list(xs, g)),
        forall|x: A, q: int|
            #![trigger xs.contains(x), f(b, q)]
            xs.contains(x) && at(b, q, g(x)) ==> f(b, q) == Some((x, q + g(x).len())),
    ensures
        parse_list(b, pos, xs.len(), f) == Some((xs, pos + ser_list(xs, g).len())),
    decreases xs.len(),
{
    if xs.len() > 0 {
        let init = xs.drop_last();
        let last = xs.last();
        lemma_at_split(b, pos, ser_list(init, g), g(last));
        assert forall|x: A, q: int|
            #![trigger init.contains(x), f(b, q)]
            init.contains(x) && at(b, q, g(x)) implies f(b, q) == Some((x, q + g(x).len())) by {
            let k = choose|k: int| 0 <= k < init.len() && init[k] == x;
            assert(xs[k] == x);
            assert(xs.contains(x));
        }
        lemma_list_at(b, pos, init, g, f);
        let mid = pos + ser_list(init, g).len();
        assert(xs[xs.len() - 1] == last);
        assert(xs.contains(last));
        assert(f(b, mid) == Some((last, mid + g(last).len())));
        assert(init.push(last) =~= xs);
    } else {
        assert(xs =~= Seq::<A>::empty());
    }
}

pub proof fn lemma_tx_at(b: Seq<u8>, pos: int, t: TransactionView)
    requires
        at(b, pos, ser_tx(t)),
        tx_fits(t),
    ensures
        parse_tx(b, pos) == Some((t, pos + ser_tx(t).len())),
{
    let gi = |i: InputView| ser_input(i);
    let go = |o: OutputView| ser_output(o);
    let fi = |bb: Seq<u8>, pp: int| parse_input(bb, pp);
    let fo = |bb: Seq<u8>, pp: int| parse_output(bb, pp);
    let s1 = le64(t.time_stamp);
    let s2 = le64(t.inputs.len() as u64);
    let s3 = ser_list(t.inputs, gi);
    let s4 = le64(t.outputs.len() as u64);
    let s5 = ser_list(t.outputs, go);
    assert(ser_tx(t) == s1 + s2 + s3 + s4 + s5);
    lemma_at_split(b, pos, s1 + s2 + s3 + s4, s5);
    lemma_at_split(b, pos, s1 + s2 + s3, s4);
    lemma_at_split(b, pos, s1 + s2, s3);
    lemma_at_split(b, pos, s1, s2);
    lemma_le64_round_trip(t.time_stamp);
    lemma_le64_round_trip(t.inputs.len() as u64);
    lemma_le64_round_trip(t.outputs.len() as u64);
    lemma_u64_at(b, pos, t.time_stamp);
    lemma_u64_at(b, pos + 8, t.inputs.len() as u64);
    assert forall|x: InputView, q: int|
        #![trigger t.inputs.contains(x), fi(b, q)]
        t.inputs.contains(x) && at(b, q, gi(x)) implies fi(b, q) == Some((x, q + gi(x).len())) by {
        let k = choose|k: int| 0 <= k < t.inputs.len() && t.inputs[k] == x;
        assert(input_fits(t.inputs[k]));
        lemma_input_at(b, q, x);
    }
    lemma_list_at(b, pos + 16, t.inputs, gi, fi);
    let p3 = pos + 16 + s3.len();
    lemma_u64_at(b, p3, t.outputs.len() as u64);
    assert forall|x: OutputView, q: int|
        #![trigger t.outputs.contains(x), fo(b, q)]
        t.outputs.contains(x) && at(b, q, go(x)) implies fo(b, q) == Some((x, q + go(x).len())) by {
        let k = choose|k: int| 0 <= k < t.outputs.len() && t.outputs[k] == x;
        assert(output_fits(t.outputs[k]));
        lemma_output_at(b, q, x);
    }
    lemma_list_at(b, p3 + 8, t.outputs, go, fo);
}

proof fn lemma_block_at(b: Seq<u8>, pos: int, x: BlockView)
    requires
        at(b, pos, ser_block(x)),
        block_fits(x),
    ensures
        parse_block(b, pos) == Some((x, pos + ser_block(x).len())),
{
    let gt = |t: TransactionView| ser_tx(t);
    let ft = |bb: Seq<u8>, pp: int| parse_tx(bb, pp);
    let s1 = x.previous_block;
    let s2 = le64(x.time_stamp);
    let s3 = le64(x.txs.len() as u64);
    let s4 = ser_list(x.txs, gt);
    let s5 = le64(x.nonce);
    assert(ser_block(x) == s1 + s2 + s3 + s4 + s5);
    lemma_at_split(b, pos, s1 + s2 + s3 + s4, s5);
    lemma_at_split(b, pos, s1 + s2 + s3, s4);
    lemma_at_split(b, pos, s1 + s2, s3);
    lemma_at_split(b, pos, s1, s2);
    lemma_le64_round_trip(x.time_stamp);
    lemma_le64_round_trip(x.txs.len() as u64);
    lemma_le64_round_trip(x.nonce);
    lemma_u64_at(b, pos + 32, x.time_stamp);
    lemma_u64_at(b, pos + 40, x.txs.len() as u64);
    assert forall|t: TransactionView, q: int|
        #![trigger x.txs.contains(t), ft(b, q)]
        x.txs.contains(t) && at(b, q, gt(t)) implies ft(b, q) == Some((t, q + gt(t).len())) by {
        let k = choose|k: int| 0 <= k < x.txs.len() && x.txs[k] == t;
        assert(tx_fits(x.txs[k]));
        lemma_tx_at(b, q, t);
    }
    lemma_list_at(b, pos + 48, x.txs, gt, ft);
    lemma_u64_at(b, pos + 48 + s4.len(), x.nonce);
}

/// Decoding an encoded output gives it back, and uses all of the bytes.
pub proof fn lemma_output_round_trip(o: OutputView)
    requires
        output_fits(o),
    ensures
        parse_output(ser_output(o), 0) == Some((o, ser_output(o).len() as int)),
{
    lemma_at_whole(ser_output(o));
    lemma_output_at(ser_output(o), 0, o);
}

/// Decoding an encoded transaction gives it back, and uses all of the bytes.
pub proof fn lemma_tx_round_trip(t: TransactionView)
    requires
        tx_fits(t),
    ensures
        parse_tx(ser_tx(t), 0) == Some((t, ser_tx(t).len() as int)),
{
    lemma_at_whole(ser_tx(t));
    lemma_tx_at(ser_tx(t), 0, t);
}

/// Decoding an encoded block gives it back, and uses all of the bytes.
pub proof fn lemma_block_round_trip(x: BlockView)
    requires
        block_fits(x),
    ensures
        parse_block(ser_block(x), 0) == Some((x, ser_block(x).len() as int)),
{
    lemma_at_whole(ser_block(x));
    lemma_block_at(ser_block(x), 0, x);
}

/// Every output value meets the encoding's length bounds.
pub proof fn lemma_output_fits(o: &Output)
    ensures
        output_fits(o@),
{
    assert(o.to_pubkey.len() == o.to_pubkey@.len());
}

/// Every transaction value meets the encoding's length bounds.
pub proof fn lemma_tx_fits(t: &Transaction)
    ensures
        tx_fits(t@),
{
    assert(t.inputs.len() == t.inputs@.len());
    assert(t.outputs.len() == t.outputs@.len());
    assert forall|i: int| 0 <= i < t@.inputs.len() implies input_fits(#[trigger] t@.inputs[i]) by {
        let x = t.inputs@[i];
        assert(x.signature.len() == x.signature@.len());
        assert(t@.inputs[i] == x@);
    }
    assert forall|i: int| 0 <= i < t@.outputs.len() implies output_fits(#[trigger] t@.outputs[i]) by {
        lemma_output_fits(&t.outputs@[i]);
        assert(t@.outputs[i] == t.outputs@[i]@);
    }
}

/// Every block value meets the encoding's length bounds.
pub proof fn lemma_block_fits(b: &Block)
    ensures
        block_fits(b@),
{
    assert(b.tx_list.len() == b.tx_list@.len());
    assert forall|i: int| 0 <= i < b@.txs.len() implies tx_fits(#[trigger] b@.txs[i]) by {
        lemma_tx_fits(&b.tx_list@[i]);
        assert(b@.txs[i] == b.tx_list@[i]@);
    }
}

/// Decoding the encoding of an output value gives it back.
pub proof fn lemma_output_value_round_trip(o: &Output)
    ensures
        parse_output(ser_output(o@), 0) == Some((o@, ser_output(o@).len() as int)),
{
    lemma_output_fits(o);
    lemma_output_round_trip(o@);
}

/// Decoding the encoding of a transaction value gives it back, so its id,
/// the digest of that encoding, is the same after the round trip.
pub proof fn lemma_tx_value_round_trip(t: &Transaction)
    ensures
        parse_tx(ser_tx(t@), 0) == Some((t@, ser_tx(t@).len() as int)),
{
    lemma_tx_fits(t);
    lemma_tx_round_trip(t@);
}

/// Decoding the encoding of a block value gives it back.
pub proof fn lemma_block_value_round_trip(b: &Block)
    ensures
        parse_block(ser_block(b@), 0) == Some((b@, ser_block(b@).len() as int)),
{
    lemma_block_fits(b);
    lemma_block_round_trip(b@);
}

} // verus!
