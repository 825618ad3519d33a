//! Encodings of the ledger's persisted state: the scalars, the unspent-output
//! set and the memory pool. Each state file holds one such encoding.
use vstd::prelude::*;
use crate::bytes::{lemma_le64_round_trip, from_le32, le32, le64, push_u32, push_u64, read_hash, read_u32, read_u64, spec_read_bytes, spec_read_u32, spec_read_u64, lemma_le32_round_trip};
use crate::codec::{
    lemma_output_fits, lemma_tx_fits,
    lemma_list_at, lemma_output_at, lemma_tx_at, lemma_u32_at, lemma_u64_at, parse_output_exec, parse_tx_exec,
    at, lemma_at_split, lemma_at_whole, lemma_ser_list_take, output_fits, parse_list,
    parse_output, parse_tx, ser_list, ser_output, ser_tx, tx_fits, write_hash, write_output,
    write_tx,
};
use crate::mempool::Mempool;
use crate::transaction::{tx_id, Transaction, TransactionView};
use crate::utxo::{entry_keys_distinct, UTXOSet, UtxoEntry, UtxoEntryView};

verus! {

/// Encodes a `u32` state value.
pub fn serialize_u32(v: u32) -> (r: Vec<u8>)
    ensures
        r@ == le32(v),
{
    let mut out: Vec<u8> = Vec::new();
    push_u32(&mut out, v);
    assert(out@ =~= le32(v));
    out
}

/// Decodes a `u32` state value: exactly 4 bytes.
pub fn deserialize_u32(b: &[u8]) -> (r: Option<u32>)
    ensures
        r == if b@.len() == 4 {
            Some(from_le32(b@))
        } else {
            None
        },
{
    if b.len() != 4 {
        return None;
    }
    match read_u32(b, 0) {
        Some((v, _)) => {
            assert(b@.subrange(0, 4) =~= b@);
            Some(v)
        },
        None => None,
    }
}

/// Decodes a hash state value: exactly 32 bytes.
pub fn deserialize_hash(b: &[u8]) -> (r: Option<[u8; 32]>)
    ensures
        r matches Some(h) ==> b@.len() == 32 && h@ == b@,
        r is None ==> b@.len() != 32,
{
    if b.len() != 32 {
        return None;
    }
    match read_hash(b, 0) {
        Some((h, _)) => {
            assert(b@.subrange(0, 32) =~= b@);
            Some(h)
        },
        None => None,
    }
}

pub open spec fn ser_entry(e: UtxoEntryView) -> Seq<u8> {
    e.tx_id + le32(e.output_id) + ser_output(e.output)
}

/// The unspent-output set's encoding: the number of entries, then each entry.
pub open spec fn ser_utxo_set(es: Seq<UtxoEntryView>) -> Seq<u8> {
    le64(es.len() as u64) + ser_list(es, |e: UtxoEntryView| ser_entry(e))
}

/// The memory pool's encoding: the number of transactions, then each one.
pub open spec fn ser_mempool(ts: Seq<TransactionView>) -> Seq<u8> {
    le64(ts.len() as u64) + ser_list(ts, |t: TransactionView| ser_tx(t))
}

pub open spec fn parse_entry(b: Seq<u8>, pos: int) -> Option<(UtxoEntryView, int)> {
    match spec_read_bytes(b, pos, 32) {
        None => None,
        Some((id, p)) => match spec_read_u32(b, p) {
            None => None,
            Some((index, q)) => match parse_output(b, q) {
                None => None,
                Some((o, r)) => Some((UtxoEntryView { tx_id: id, output_id: index, output: o }, r)),
            },
        },
    }
}

pub open spec fn parse_utxo_set(b: Seq<u8>, pos: int) -> Option<(Seq<UtxoEntryView>, int)> {
    match spec_read_u64(b, pos) {
        None => None,
        Some((n, p)) => parse_list(b, p, n as nat, |bb: Seq<u8>, pp: int| parse_entry(bb, pp)),
    }
}

pub open spec fn parse_mempool(b: Seq<u8>, pos: int) -> Option<(Seq<TransactionView>, int)> {
    match spec_read_u64(b, pos) {
        None => None,
        Some((n, p)) => parse_list(b, p, n as nat, |bb: Seq<u8>, pp: int| parse_tx(bb, pp)),
    }
}

/// No two transactions share an id.
pub open spec fn tx_ids_distinct(ts: Seq<TransactionView>) -> bool {
    forall|i: int, j: int| 0 <= i < j < ts.len() ==> tx_id(#[trigger] ts[i]) != tx_id(#[trigger] ts[j])
}

/// Encodes the unspent-output set.
pub fn serialize_utxo_set(s: &UTXOSet) -> (r: Vec<u8>)
    ensures
        r@ == ser_utxo_set(s.entries_view()),
{
    let mut out: Vec<u8> = Vec::new();
    push_u64(&mut out, s.entries.len() as u64);
    let ghost mid = out@;
    let ghost es = s.entries_view();
    let ghost fe = |e: UtxoEntryView| ser_entry(e);
    let mut k: usize = 0;
    while k < s.entries.len()
        invariant
            k <= s.entries@.len(),
            es == s.entries_view(),
            es.len() == s.entries@.len(),
            fe == (|e: UtxoEntryView| ser_entry(e)),
            out@ == mid + ser_list(es.take(k as int), fe),
        decreases s.entries@.len() - k,
    {
        proof {
            lemma_ser_list_take(es, fe, k as int);
        }
        let e = &s.entries[k];
        let ghost before = out@;
        write_hash(&mut out, &e.tx_id);
        push_u32(&mut out, e.output_id);
        write_output(&mut out, &e.output);
        assert(out@ =~= before + ser_entry(e@));
        k = k + 1;
        assert(out@ =~= mid + ser_list(es.take(k as int), fe));
    }
    assert(es.take(k as int) =~= es);
    assert(out@ =~= ser_utxo_set(es));
    out
}

/// Encodes the memory pool.
pub fn serialize_mempool(m: &Mempool) -> (r: Vec<u8>)
    ensures
        r@ == ser_mempool(m.txs()),
{
    let mut out: Vec<u8> = Vec::new();
    push_u64(&mut out, m.entries.len() as u64);
    let ghost mid = out@;
    let ghost ts = m.txs();
    let ghost ft = |t: TransactionView| ser_tx(t);
    let mut k: usize = 0;
    while k < m.entries.len()
        invariant
            k <= m.entries@.len(),
            ts == m.txs(),
            ts.len() == m.entries@.len(),
            ft == (|t: TransactionView| ser_tx(t)),
            out@ == mid + ser_list(ts.take(k as int), ft),
        decreases m.entries@.len() - k,
    {
        proof {
            lemma_ser_list_take(ts, ft, k as int);
        }
        write_tx(&mut out, &m.entries[k].tx);
        k = k + 1;
        assert(out@ =~= mid + ser_list(ts.take(k as int), ft));
    }
    assert(ts.take(k as int) =~= ts);
    assert(out@ =~= ser_mempool(ts));
    out
}

fn parse_entry_exec(b: &[u8], pos: usize) -> (r: Option<(UtxoEntry, usize)>)
    ensures
        r matches Some((v, p)) ==> parse_entry(b@, pos as int) == Some((v@, p as int)),
        r is None ==> parse_entry(b@, pos as int) is None,
{
    let (id, p) = match read_hash(b, pos) {
        None => return None,
        Some(x) => x,
    };
    let (index, q) = match read_u32(b, p) {
        None => return None,
        Some(x) => x,
    };
    let (o, r) = match parse_output_exec(b, q) {
        None => return None,
        Some(x) => x,
    };
    Some((UtxoEntry { tx_id: id, output_id: index, output: o }, r))
}

/// Decodes an unspent-output set that fills `b` exactly; refuses one that
/// holds a key twice.
pub fn deserialize_utxo_set(b: &[u8]) -> (r: Option<UTXOSet>)
    ensures
        r matches Some(s) ==> s.wf() && parse_utxo_set(b@, 0) == Some((s.entries_view(), b@.len() as int)),
        r is None ==> !(parse_utxo_set(b@, 0) matches Some((es, end)) && end == b@.len()
            && entry_keys_distinct(es)),
{
    let (n, p0) = match read_u64(b, 0) {
        None => return None,
        Some(x) => x,
    };
    let ghost fe = |bb: Seq<u8>, pp: int| parse_entry(bb, pp);
    let mut items: Vec<UtxoEntry> = Vec::new();
    let mut p = p0;
    let mut k: u64 = 0;
    while k < n
        invariant
            k <= n,
            spec_read_u64(b@, 0) == Some((n, p0 as int)),
            fe == (|bb: Seq<u8>, pp: int| parse_entry(bb, pp)),
            parse_list(b@, p0 as int, k as nat, fe) == Some((items@.map_values(|e: UtxoEntry| e@), p as int)),
        decreases n - k,
    {
        let (x, q) = match parse_entry_exec(b, p) {
            None => {
                proof {
                    crate::codec::lemma_parse_list_none(b@, p0 as int, (k + 1) as nat, n as nat, fe);
                }
                return None;
            },
            Some(x) => x,
        };
        let ghost before = items@.map_values(|e: UtxoEntry| e@);
        items.push(x);
        assert(items@.map_values(|e: UtxoEntry| e@) =~= before.push(x@));
        p = q;
        k = k + 1;
    }
    if p != b.len() {
        return None;
    }
    let ghost es = items@.map_values(|e: UtxoEntry| e@);
    assert(parse_utxo_set(b@, 0) == Some((es, b@.len() as int)));
    let mut set = UTXOSet::new();
    assert(set.entries_view() =~= es.take(0));
    let mut rest = items;
    let mut i: usize = 0;
    let total = rest.len();
    while i < total
        invariant
            total == es.len(),
            parse_utxo_set(b@, 0) == Some((es, b@.len() as int)),
            i <= total,
            rest@.len() == total - i,
            forall|j: int| 0 <= j < rest@.len() ==> (#[trigger] rest@[j])@ == es[i + j],
            set.wf(),
            set.entries_view() == es.take(i as int),
        decreases total - i,
    {
        let e = rest.remove(0);
        assert(e@ == es[i as int]);
        let ghost before = set;
        if !set.push_new(e) {
            proof {
                let k = (es[i as int].tx_id, es[i as int].output_id);
                assert(before@.contains_key(k));
                assert(before.has_key(k));
                let j = before.index_of(k);
                assert(before.entries_view().len() == before.entries@.len());
                assert(0 <= j < i);
                assert(before.key_at(j) == k);
                assert(before.entries_view()[j] == before.entries@[j]@);
                assert(es.take(i as int)[j] == es[j]);
                assert(es[j].tx_id == es[i as int].tx_id && es[j].output_id == es[i as int].output_id);
                assert(!entry_keys_distinct(es));
            }
            return None;
        }
        i = i + 1;
        assert(set.entries_view() =~= es.take(i as int));
    }
    assert(es.take(i as int) =~= es);
    Some(set)
}

#[verifier::rlimit(80)]
/// Decodes a memory pool that fills `b` exactly; refuses one that holds an
/// id twice.
pub fn deserialize_mempool(b: &[u8]) -> (r: Option<Mempool>)
    ensures
        r matches Some(m) ==> m.wf() && parse_mempool(b@, 0) == Some((m.txs(), b@.len() as int)),
        r is None ==> !(parse_mempool(b@, 0) matches Some((ts, end)) && end == b@.len()
            && tx_ids_distinct(ts)),
{
    let (n, p0) = match read_u64(b, 0) {
        None => return None,
        Some(x) => x,
    };
    let ghost ft = |bb: Seq<u8>, pp: int| parse_tx(bb, pp);
    let mut items: Vec<Transaction> = Vec::new();
    let mut p = p0;
    let mut k: u64 = 0;
    while k < n
        invariant
            k <= n,
            spec_read_u64(b@, 0) == Some((n, p0 as int)),
            ft == (|bb: Seq<u8>, pp: int| parse_tx(bb, pp)),
            parse_list(b@, p0 as int, k as nat, ft) == Some((items@.map_values(|t: Transaction| t@), p as int)),
        decreases n - k,
    {
        let (x, q) = match parse_tx_exec(b, p) {
            None => {
                proof {
                    crate::codec::lemma_parse_list_none(b@, p0 as int, (k + 1) as nat, n as nat, ft);
                }
                return None;
            },
            Some(x) => x,
        };
        let ghost before = items@.map_values(|t: Transaction| t@);
        items.push(x);
        assert(items@.map_values(|t: Transaction| t@) =~= before.push(x@));
        p = q;
        k = k + 1;
    }
    if p != b.len() {
        return None;
    }
    let ghost ts = items@.map_values(|t: Transaction| t@);
    assert(parse_mempool(b@, 0) == Some((ts, b@.len() as int)));
    let mut pool = Mempool::new();
    assert(pool.txs() =~= ts.take(0));
    let mut rest = items;
    let mut i: usize = 0;
    let total = rest.len();
    while i < total
        invariant
            total == ts.len(),
            parse_mempool(b@, 0) == Some((ts, b@.len() as int)),
            i <= total,
            rest@.len() == total - i,
            forall|j: int| 0 <= j < rest@.len() ==> (#[trigger] rest@[j])@ == ts[i + j],
            pool.wf(),
            pool.txs() == ts.take(i as int),
        decreases total - i,
    {
        let t = rest.remove(0);
        assert(t@ == ts[i as int]);
        let ghost before = pool;
        if !pool.insert(t) {
            proof {
                let k = tx_id(ts[i as int]);
                assert(before@.contains_key(k));
                assert(before.has_key(k));
                let j = before.index_of(k);
                assert(before.txs().len() == before.entries@.len());
                assert(0 <= j < i);
                assert(before.key_at(j) == k);
                assert(before.key_at(j) == tx_id(before.entries@[j].tx@));
                assert(before.txs()[j] == before.entries@[j].tx@);
                assert(ts.take(i as int)[j] == ts[j]);
                assert(tx_id(ts[j]) == tx_id(ts[i as int]));
                assert(!tx_ids_distinct(ts));
            }
            return None;
        }
        i = i + 1;
        assert(pool.txs() =~= ts.take(i as int));
    }
    assert(ts.take(i as int) =~= ts);
    Some(pool)
}

pub open spec fn entry_fits(e: UtxoEntryView) -> bool {
    e.tx_id.len() == 32 && output_fits(e.output)
}

proof fn lemma_entry_at(b: Seq<u8>, pos: int, e: UtxoEntryView)
    requires
        at(b, pos, ser_entry(e)),
        entry_fits(e),
    ensures
        parse_entry(b, pos) == Some((e, pos + ser_entry(e).len())),
{
    lemma_at_split(b, pos, e.tx_id + le32(e.output_id), ser_output(e.output));
    lemma_at_split(b, pos, e.tx_id, le32(e.output_id));
    lemma_le32_round_trip(e.output_id);
    lemma_u32_at(b, pos + 32, e.output_id);
    lemma_output_at(b, pos + 36, e.output);
}

/// Decoding an encoded unspent-output set gives its entries back, in order,
/// and uses all of the bytes.
pub proof fn lemma_utxo_set_round_trip(es: Seq<UtxoEntryView>)
    requires
        es.len() <= u64::MAX,
        forall|i: int| 0 <= i < es.len() ==> entry_fits(#[trigger] es[i]),
    ensures
        parse_utxo_set(ser_utxo_set(es), 0) == Some((es, ser_utxo_set(es).len() as int)),
{
    let b = ser_utxo_set(es);
    let g = |e: UtxoEntryView| ser_entry(e);
    let f = |bb: Seq<u8>, pp: int| parse_entry(bb, pp);
    lemma_at_whole(b);
    lemma_at_split(b, 0, le64(es.len() as u64), ser_list(es, g));
    lemma_le64_round_trip(es.len() as u64);
    lemma_u64_at(b, 0, es.len() as u64);
    assert forall|x: UtxoEntryView, q: int|
        #![trigger es.contains(x), f(b, q)]
        es.contains(x) && at(b, q, g(x)) implies f(b, q) == Some((x, q + g(x).len())) by {
        let k = choose|k: int| 0 <= k < es.len() && es[k] == x;
        assert(entry_fits(es[k]));
        lemma_entry_at(b, q, x);
    }
    lemma_list_at(b, 8, es, g, f);
}

/// Decoding an encoded memory pool gives its transactions back, in order,
/// and uses all of the bytes.
pub proof fn lemma_mempool_round_trip(ts: Seq<TransactionView>)
    requires
        ts.len() <= u64::MAX,
        forall|i: int| 0 <= i < ts.len() ==> tx_fits(#[trigger] ts[i]),
    ensures
        parse_mempool(ser_mempool(ts), 0) == Some((ts, ser_mempool(ts).len() as int)),
{
    let b = ser_mempool(ts);
    let g = |t: TransactionView| ser_tx(t);
    let f = |bb: Seq<u8>, pp: int| parse_tx(bb, pp);
    lemma_at_whole(b);
    lemma_at_split(b, 0, le64(ts.len() as u64), ser_list(ts, g));
    lemma_le64_round_trip(ts.len() as u64);
    lemma_u64_at(b, 0, ts.len() as u64);
    assert forall|x: TransactionView, q: int|
        #![trigger ts.contains(x), f(b, q)]
        ts.contains(x) && at(b, q, g(x)) implies f(b, q) == Some((x, q + g(x).len())) by {
        let k = choose|k: int| 0 <= k < ts.len() && ts[k] == x;
        assert(tx_fits(ts[k]));
        lemma_tx_at(b, q, x);
    }
    lemma_list_at(b, 8, ts, g, f);
}

/// A well-formed set's entries have distinct keys, so its encoding decodes.
pub proof fn lemma_utxo_set_keys_distinct(s: &UTXOSet)
    requires
        s.wf(),
    ensures
        entry_keys_distinct(s.entries_view()),
{
    assert forall|i: int, j: int| 0 <= i < j < s.entries_view().len() implies (#[trigger] s.entries_view()[i]).tx_id
        != (#[trigger] s.entries_view()[j]).tx_id || s.entries_view()[i].output_id != s.entries_view()[j].output_id by {
        assert(s.key_at(i) != s.key_at(j));
    }
}

/// A well-formed pool's transactions have distinct ids, so its encoding decodes.
pub proof fn lemma_mempool_ids_distinct(m: &Mempool)
    requires
        m.wf(),
    ensures
        tx_ids_distinct(m.txs()),
{
    assert forall|i: int, j: int| 0 <= i < j < m.txs().len() implies tx_id(#[trigger] m.txs()[i]) != tx_id(#[trigger] m.txs()[j]) by {
        assert(m.key_at(i) != m.key_at(j));
        assert(m.key_at(i) == tx_id(m.entries@[i].tx@));
        assert(m.key_at(j) == tx_id(m.entries@[j].tx@));
    }
}

/// Decoding the encoding of a well-formed unspent-output set gives its
/// entries back, with keys distinct, so `deserialize_utxo_set` returns a set
/// that holds the same map (`UTXOSet::lemma_same_entries`).
pub proof fn lemma_utxo_set_value_round_trip(s: &UTXOSet)
    requires
        s.wf(),
    ensures
        parse_utxo_set(ser_utxo_set(s.entries_view()), 0) == Some(
            (s.entries_view(), ser_utxo_set(s.entries_view()).len() as int),
        ),
        entry_keys_distinct(s.entries_view()),
{
    assert(s.entries.len() == s.entries@.len());
    assert forall|i: int| 0 <= i < s.entries_view().len() implies entry_fits(#[trigger] s.entries_view()[i]) by {
        lemma_output_fits(&s.entries@[i].output);
        assert(s.entries_view()[i] == s.entries@[i]@);
    }
    lemma_utxo_set_round_trip(s.entries_view());
    lemma_utxo_set_keys_distinct(s);
}

/// Decoding the encoding of a well-formed memory pool gives its transactions
/// back, with ids distinct, so `deserialize_mempool` returns them.
pub proof fn lemma_mempool_value_round_trip(m: &Mempool)
    requires
        m.wf(),
    ensures
        parse_mempool(ser_mempool(m.txs()), 0) == Some((m.txs(), ser_mempool(m.txs()).len() as int)),
        tx_ids_distinct(m.txs()),
{
    assert(m.entries.len() == m.entries@.len());
    assert forall|i: int| 0 <= i < m.txs().len() implies tx_fits(#[trigger] m.txs()[i]) by {
        lemma_tx_fits(&m.entries@[i].tx);
        assert(m.txs()[i] == m.entries@[i].tx@);
    }
    lemma_mempool_round_trip(m.txs());
    lemma_mempool_ids_distinct(m);
}

} // verus!
