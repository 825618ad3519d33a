//! Undoing a block: applying it and then rewinding it, with the outputs it
//! spent restored from history, gives back the unspent outputs it was
//! applied to.
use vstd::prelude::*;
use crate::block::{
    apply_txs, insert_outputs, pend_inputs, remove_inputs, remove_outputs, reward_tally,
    rewind_pending, rewind_utxo, unpend_outputs, validate_block, BlockView,
};
use crate::transaction::{
    first_input_error, input_error, input_key, tx_id, tx_wf, validate, InputView, OutputView,
    TransactionValidityError, TransactionView,
};
use crate::utxo::UtxoKey;
use crate::block::{restore_outputs, restore_txs, block_wf};
use crate::chain_log::{chain_of, lemma_chain_scan, offset, record, resolve};
use crate::codec::{block_fits, lemma_ser_list_take, ser_block};

verus! {

/// `k` is the key that input `i` of transaction `j < n` spends.
pub open spec fn spent_by(txs: Seq<TransactionView>, n: int, k: UtxoKey) -> bool {
    exists|j: int, i: int|
        0 <= j < n && 0 <= i < txs[j].inputs.len() && #[trigger] input_key(txs[j].inputs[i]) == k
}

/// `k` is the key of an output of transaction `j < n`.
pub open spec fn made_by(txs: Seq<TransactionView>, n: int, k: UtxoKey) -> bool {
    exists|j: int| 0 <= j < n && #[trigger] tx_id(txs[j]) == k.0 && k.1 < txs[j].outputs.len()
}

proof fn lemma_remove_inputs(m: Map<UtxoKey, OutputView>, ins: Seq<InputView>, c: nat, k: UtxoKey)
    requires
        c <= ins.len(),
    ensures
        remove_inputs(m, ins, c).contains_key(k) == (m.contains_key(k) && forall|i: int|
            0 <= i < c ==> input_key(#[trigger] ins[i]) != k),
        remove_inputs(m, ins, c).contains_key(k) ==> remove_inputs(m, ins, c)[k] == m[k],
    decreases c,
{
    if c > 0 {
        lemma_remove_inputs(m, ins, (c - 1) as nat, k);
    }
}

proof fn lemma_insert_outputs(m: Map<UtxoKey, OutputView>, id: Seq<u8>, outs: Seq<OutputView>, c: nat, k: UtxoKey)
    requires
        c <= outs.len() <= u32::MAX,
    ensures
        insert_outputs(m, id, outs, c).contains_key(k) == (m.contains_key(k) || (k.0 == id && k.1 < c)),
        !(k.0 == id && k.1 < c) && m.contains_key(k) ==> insert_outputs(m, id, outs, c)[k] == m[k],
    decreases c,
{
    if c > 0 {
        lemma_insert_outputs(m, id, outs, (c - 1) as nat, k);
    }
}

proof fn lemma_remove_outputs(m: Map<UtxoKey, OutputView>, id: Seq<u8>, c: nat, k: UtxoKey)
    requires
        c <= u32::MAX + 1,
    ensures
        remove_outputs(m, id, c).contains_key(k) == (m.contains_key(k) && !(k.0 == id && k.1 < c)),
        remove_outputs(m, id, c).contains_key(k) ==> remove_outputs(m, id, c)[k] == m[k],
    decreases c,
{
    if c > 0 {
        lemma_remove_outputs(m, id, (c - 1) as nat, k);
    }
}

proof fn lemma_unpend_outputs(p: Set<UtxoKey>, id: Seq<u8>, c: nat, k: UtxoKey)
    requires
        c <= u32::MAX + 1,
    ensures
        unpend_outputs(p, id, c).contains(k) == (p.contains(k) && !(k.0 == id && k.1 < c)),
    decreases c,
{
    if c > 0 {
        lemma_unpend_outputs(p, id, (c - 1) as nat, k);
    }
}

proof fn lemma_pend_inputs(p: Set<UtxoKey>, ins: Seq<InputView>, c: nat, k: UtxoKey)
    requires
        c <= ins.len(),
    ensures
        pend_inputs(p, ins, c).contains(k) == (p.contains(k) || exists|i: int|
            0 <= i < c && input_key(#[trigger] ins[i]) == k),
    decreases c,
{
    if c > 0 {
        lemma_pend_inputs(p, ins, (c - 1) as nat, k);
    }
}

/// What a block may be undone from: every input spends a key of `u`, no
/// output key is in `u`, ids are distinct and indices fit in a `u32`.
pub open spec fn undoable(u: Map<UtxoKey, OutputView>, txs: Seq<TransactionView>) -> bool {
    &&& forall|j: int| 0 <= j < txs.len() ==> tx_wf(#[trigger] txs[j])
    &&& forall|j: int, i: int|
        0 <= j < txs.len() && 0 <= i < txs[j].inputs.len() ==> u.contains_key(
            #[trigger] input_key(txs[j].inputs[i]),
        )
    &&& forall|j: int, i: u32|
        #![trigger u.contains_key((tx_id(txs[j]), i))]
        0 <= j < txs.len() && i < txs[j].outputs.len() ==> !u.contains_key((tx_id(txs[j]), i))
}

proof fn lemma_apply(u: Map<UtxoKey, OutputView>, txs: Seq<TransactionView>, n: nat, k: UtxoKey)
    requires
        n <= txs.len(),
        undoable(u, txs),
    ensures
        apply_txs(u, txs, n).contains_key(k) == ((u.contains_key(k) && !spent_by(txs, n as int, k))
            || made_by(txs, n as int, k)),
        u.contains_key(k) && !spent_by(txs, n as int, k) ==> apply_txs(u, txs, n)[k] == u[k],
    decreases n,
{
    if n > 0 {
        let j = n - 1;
        let t = txs[j];
        let prev = apply_txs(u, txs, (n - 1) as nat);
        lemma_apply(u, txs, (n - 1) as nat, k);
        assert(tx_wf(t));
        let mid = remove_inputs(prev, t.inputs, t.inputs.len());
        lemma_remove_inputs(prev, t.inputs, t.inputs.len(), k);
        lemma_insert_outputs(mid, tx_id(t), t.outputs, t.outputs.len(), k);
        assert(apply_txs(u, txs, n) == insert_outputs(mid, tx_id(t), t.outputs, t.outputs.len()));
        let spent_here = exists|i: int| 0 <= i < t.inputs.len() && input_key(#[trigger] t.inputs[i]) == k;
        if spent_here {
            let i = choose|i: int| 0 <= i < t.inputs.len() && input_key(#[trigger] t.inputs[i]) == k;
            assert(input_key(txs[j].inputs[i]) == k);
            assert(spent_by(txs, n as int, k));
            assert(u.contains_key(k));
            if made_by(txs, (n - 1) as int, k) {
                let j2 = choose|j2: int| 0 <= j2 < n - 1 && #[trigger] tx_id(txs[j2]) == k.0 && k.1 < txs[j2].outputs.len();
                assert(!u.contains_key((tx_id(txs[j2]), k.1)));
            }
        }
        if spent_by(txs, n as int, k) && !spent_here {
            let (j2, i2) = choose|j2: int, i2: int|
                0 <= j2 < n && 0 <= i2 < txs[j2].inputs.len() && #[trigger] input_key(txs[j2].inputs[i2]) == k;
            if j2 == j {
                assert(input_key(t.inputs[i2]) == k);
            }
            assert(spent_by(txs, (n - 1) as int, k));
        }
        if spent_by(txs, (n - 1) as int, k) {
            let (j2, i2) = choose|j2: int, i2: int|
                0 <= j2 < n - 1 && 0 <= i2 < txs[j2].inputs.len() && #[trigger] input_key(txs[j2].inputs[i2]) == k;
            assert(spent_by(txs, n as int, k));
        }
        if made_by(txs, n as int, k) && !(k.0 == tx_id(t) && k.1 < t.outputs.len()) {
            let j2 = choose|j2: int| 0 <= j2 < n && #[trigger] tx_id(txs[j2]) == k.0 && k.1 < txs[j2].outputs.len();
            assert(made_by(txs, (n - 1) as int, k));
        }
        if made_by(txs, (n - 1) as int, k) {
            let j2 = choose|j2: int| 0 <= j2 < n - 1 && #[trigger] tx_id(txs[j2]) == k.0 && k.1 < txs[j2].outputs.len();
            assert(made_by(txs, n as int, k));
        }
        if k.0 == tx_id(t) && k.1 < t.outputs.len() {
            assert(made_by(txs, n as int, k));
            let i = k.1;
            assert(!u.contains_key((tx_id(txs[j]), i)));
        }
    }
}

proof fn lemma_rewind_utxo(m: Map<UtxoKey, OutputView>, txs: Seq<TransactionView>, n: nat, k: UtxoKey)
    requires
        n <= txs.len(),
        forall|j: int| 0 <= j < txs.len() ==> tx_wf(#[trigger] txs[j]),
    ensures
        rewind_utxo(m, txs, n).contains_key(k) == (m.contains_key(k) && !made_by(txs, n as int, k)),
        rewind_utxo(m, txs, n).contains_key(k) ==> rewind_utxo(m, txs, n)[k] == m[k],
    decreases n,
{
    if n > 0 {
        let t = txs[n - 1];
        assert(tx_wf(t));
        lemma_rewind_utxo(m, txs, (n - 1) as nat, k);
        lemma_remove_outputs(rewind_utxo(m, txs, (n - 1) as nat), tx_id(t), t.outputs.len(), k);
        if made_by(txs, n as int, k) && !(k.0 == tx_id(t) && k.1 < t.outputs.len()) {
            let j2 = choose|j2: int| 0 <= j2 < n && #[trigger] tx_id(txs[j2]) == k.0 && k.1 < txs[j2].outputs.len();
            assert(made_by(txs, (n - 1) as int, k));
        }
        if made_by(txs, (n - 1) as int, k) {
            let j2 = choose|j2: int| 0 <= j2 < n - 1 && #[trigger] tx_id(txs[j2]) == k.0 && k.1 < txs[j2].outputs.len();
            assert(made_by(txs, n as int, k));
        }
        if k.0 == tx_id(t) && k.1 < t.outputs.len() {
            assert(made_by(txs, n as int, k));
        }
    }
}

proof fn lemma_rewind_pending(u: Map<UtxoKey, OutputView>, txs: Seq<TransactionView>, n: nat, k: UtxoKey)
    requires
        n <= txs.len(),
        undoable(u, txs),
    ensures
        rewind_pending(Set::empty(), txs, n).contains(k) == spent_by(txs, n as int, k),
    decreases n,
{
    if n > 0 {
        let j = n - 1;
        let t = txs[j];
        assert(tx_wf(t));
        lemma_rewind_pending(u, txs, (n - 1) as nat, k);
        let prev = rewind_pending(Set::empty(), txs, (n - 1) as nat);
        lemma_unpend_outputs(prev, tx_id(t), t.outputs.len(), k);
        lemma_pend_inputs(unpend_outputs(prev, tx_id(t), t.outputs.len()), t.inputs, t.inputs.len(), k);
        let spent_here = exists|i: int| 0 <= i < t.inputs.len() && input_key(#[trigger] t.inputs[i]) == k;
        if spent_here {
            let i = choose|i: int| 0 <= i < t.inputs.len() && input_key(#[trigger] t.inputs[i]) == k;
            assert(input_key(txs[j].inputs[i]) == k);
        }
        if spent_by(txs, n as int, k) && !spent_here {
            let (j2, i2) = choose|j2: int, i2: int|
                0 <= j2 < n && 0 <= i2 < txs[j2].inputs.len() && #[trigger] input_key(txs[j2].inputs[i2]) == k;
            if j2 == j {
                assert(input_key(t.inputs[i2]) == k);
            }
            assert(spent_by(txs, (n - 1) as int, k));
        }
        if spent_by(txs, (n - 1) as int, k) {
            let (j2, i2) = choose|j2: int, i2: int|
                0 <= j2 < n - 1 && 0 <= i2 < txs[j2].inputs.len() && #[trigger] input_key(txs[j2].inputs[i2]) == k;
            assert(spent_by(txs, n as int, k));
            assert(u.contains_key(input_key(txs[j2].inputs[i2])));
            if k.0 == tx_id(t) && k.1 < t.outputs.len() {
                let i = k.1;
                assert(!u.contains_key((tx_id(txs[j]), i)));
            }
        }
    }
}

/// Applying a block to `u` and rewinding it, then restoring each pending key
/// with the output that history holds for it (its value in `u`), gives `u`
/// back; the pending keys are exactly the keys the block spent, all of `u`.
pub proof fn lemma_apply_then_rewind(u: Map<UtxoKey, OutputView>, b: BlockView)
    requires
        undoable(u, b.txs),
    ensures
        ({
            let applied = apply_txs(u, b.txs, b.txs.len());
            let rewound = rewind_utxo(applied, b.txs, b.txs.len());
            let pending = rewind_pending(Set::empty(), b.txs, b.txs.len());
            &&& pending.subset_of(u.dom())
            &&& rewound.union_prefer_right(u.restrict(pending)) == u
        }),
{
    let n = b.txs.len();
    let txs = b.txs;
    let applied = apply_txs(u, txs, n);
    let rewound = rewind_utxo(applied, txs, n);
    let pending = rewind_pending(Set::empty(), txs, n);
    assert forall|k: UtxoKey| #[trigger] pending.contains(k) implies u.contains_key(k) by {
        lemma_rewind_pending(u, txs, n, k);
        let (j2, i2) = choose|j2: int, i2: int|
            0 <= j2 < n && 0 <= i2 < txs[j2].inputs.len() && #[trigger] input_key(txs[j2].inputs[i2]) == k;
    }
    let r = rewound.union_prefer_right(u.restrict(pending));
    assert forall|k: UtxoKey| #[trigger] r.contains_key(k) == u.contains_key(k) by {
        lemma_rewind_pending(u, txs, n, k);
        lemma_apply(u, txs, n, k);
        lemma_rewind_utxo(applied, txs, n, k);
        if u.contains_key(k) && made_by(txs, n as int, k) {
            let j2 = choose|j2: int| 0 <= j2 < n && #[trigger] tx_id(txs[j2]) == k.0 && k.1 < txs[j2].outputs.len();
            let i = k.1;
            assert(!u.contains_key((tx_id(txs[j2]), i)));
        }
    }
    assert forall|k: UtxoKey| r.contains_key(k) implies #[trigger] r[k] == u[k] by {
        lemma_rewind_pending(u, txs, n, k);
        lemma_apply(u, txs, n, k);
        lemma_rewind_utxo(applied, txs, n, k);
        if u.contains_key(k) && made_by(txs, n as int, k) {
            let j2 = choose|j2: int| 0 <= j2 < n && #[trigger] tx_id(txs[j2]) == k.0 && k.1 < txs[j2].outputs.len();
            let i = k.1;
            assert(!u.contains_key((tx_id(txs[j2]), i)));
        }
    }
    assert(r =~= u);
}

proof fn lemma_no_input_error(t: TransactionView, u: Map<UtxoKey, OutputView>, n: nat, i: int)
    requires
        first_input_error(t, u, n) is None,
        0 <= i < n,
    ensures
        input_error(t, u, i) is None,
    decreases n,
{
    if i < n - 1 {
        lemma_no_input_error(t, u, (n - 1) as nat, i);
    }
}

proof fn lemma_input_error_kind(t: TransactionView, u: Map<UtxoKey, OutputView>, n: nat)
    ensures
        first_input_error(t, u, n) matches Some(e) ==> !(e is InvalidOutputAmount),
    decreases n,
{
    if n > 0 {
        lemma_input_error_kind(t, u, (n - 1) as nat);
    }
}

proof fn lemma_tally_some(txs: Seq<TransactionView>, u: Map<UtxoKey, OutputView>, n: nat, j: int)
    requires
        reward_tally(txs, u, n) is Some,
        0 <= j < n,
    ensures
        validate(txs[j], u) matches Ok(_) || validate(txs[j], u) matches Err(
            TransactionValidityError::InvalidOutputAmount(_),
        ),
    decreases n,
{
    if j < n - 1 {
        lemma_tally_some(txs, u, (n - 1) as nat, j);
    }
}

/// Every input of a valid block spends a key of the set it was validated against.
pub proof fn lemma_valid_block_spends_existing(
    b: BlockView,
    difficulty: u32,
    reward: u32,
    u: Map<UtxoKey, OutputView>,
)
    requires
        validate_block(b, difficulty, reward, u) is Ok,
    ensures
        forall|j: int, i: int|
            0 <= j < b.txs.len() && 0 <= i < b.txs[j].inputs.len() ==> u.contains_key(
                #[trigger] input_key(b.txs[j].inputs[i]),
            ),
{
    assert forall|j: int, i: int|
        0 <= j < b.txs.len() && 0 <= i < b.txs[j].inputs.len() implies u.contains_key(
            #[trigger] input_key(b.txs[j].inputs[i]),
        ) by {
        lemma_tally_some(b.txs, u, b.txs.len(), j);
        let t = b.txs[j];
        lemma_input_error_kind(t, u, t.inputs.len());
        assert(first_input_error(t, u, t.inputs.len()) is None);
        lemma_no_input_error(t, u, t.inputs.len(), i);
    }
}

/// For a block validated against `u`: applying it and rewinding it, then
/// restoring each pending key with the output that history holds for it,
/// gives `u` back. Excluded are blocks with an output key already in `u`
/// (a transaction applied before), on which the rewind takes that output away.
pub proof fn lemma_valid_block_apply_then_rewind(
    u: Map<UtxoKey, OutputView>,
    b: BlockView,
    difficulty: u32,
    reward: u32,
)
    requires
        validate_block(b, difficulty, reward, u) is Ok,
        crate::block::block_wf(b),
        forall|j: int, i: u32|
            #![trigger u.contains_key((tx_id(b.txs[j]), i))]
            0 <= j < b.txs.len() && i < b.txs[j].outputs.len() ==> !u.contains_key((tx_id(b.txs[j]), i)),
    ensures
        ({
            let applied = apply_txs(u, b.txs, b.txs.len());
            let rewound = rewind_utxo(applied, b.txs, b.txs.len());
            let pending = rewind_pending(Set::empty(), b.txs, b.txs.len());
            &&& pending.subset_of(u.dom())
            &&& rewound.union_prefer_right(u.restrict(pending)) == u
        }),
{
    lemma_valid_block_spends_existing(b, difficulty, reward, u);
    lemma_apply_then_rewind(u, b);
}

/// The output that the first of the first `n` transactions making key `k` gives it.
pub open spec fn tx_makes(txs: Seq<TransactionView>, n: nat, k: UtxoKey) -> Option<OutputView>
    decreases n,
{
    if n == 0 {
        None
    } else {
        match tx_makes(txs, (n - 1) as nat, k) {
            Some(o) => Some(o),
            None => if tx_id(txs[n - 1]) == k.0 && k.1 < txs[n - 1].outputs.len() {
                Some(txs[n - 1].outputs[k.1 as int])
            } else {
                None
            },
        }
    }
}

/// The output that the latest of the first `m` blocks making key `k` gives it.
pub open spec fn found(bs: Seq<BlockView>, m: nat, k: UtxoKey) -> Option<OutputView>
    decreases m,
{
    if m == 0 {
        None
    } else {
        match tx_makes(bs[m - 1].txs, bs[m - 1].txs.len(), k) {
            Some(o) => Some(o),
            None => found(bs, (m - 1) as nat, k),
        }
    }
}

proof fn lemma_restore_outputs(
    u: Map<UtxoKey, OutputView>,
    p: Set<UtxoKey>,
    id: Seq<u8>,
    outs: Seq<OutputView>,
    c: nat,
    k: UtxoKey,
)
    requires
        c <= outs.len() <= u32::MAX,
    ensures
        ({
            let (u2, p2) = restore_outputs(u, p, id, outs, c);
            &&& p2.contains(k) == (p.contains(k) && !(k.0 == id && k.1 < c))
            &&& p.contains(k) && k.0 == id && k.1 < c ==> u2.contains_key(k) && u2[k] == outs[k.1 as int]
            &&& !(p.contains(k) && k.0 == id && k.1 < c) ==> u2.contains_key(k) == u.contains_key(k)
                && (u.contains_key(k) ==> u2[k] == u[k])
        }),
    decreases c,
{
    if c > 0 {
        lemma_restore_outputs(u, p, id, outs, (c - 1) as nat, k);
    }
}

proof fn lemma_restore_txs(
    u: Map<UtxoKey, OutputView>,
    p: Set<UtxoKey>,
    txs: Seq<TransactionView>,
    n: nat,
    k: UtxoKey,
)
    requires
        n <= txs.len(),
        forall|j: int| 0 <= j < txs.len() ==> tx_wf(#[trigger] txs[j]),
    ensures
        ({
            let (u2, p2) = restore_txs(u, p, txs, n);
            &&& p2.contains(k) == (p.contains(k) && tx_makes(txs, n, k) is None)
            &&& (p.contains(k) && tx_makes(txs, n, k) is Some) ==> u2.contains_key(k) && u2[k] == tx_makes(txs, n, k)->0
            &&& !(p.contains(k) && tx_makes(txs, n, k) is Some) ==> u2.contains_key(k) == u.contains_key(k)
                && (u.contains_key(k) ==> u2[k] == u[k])
        }),
    decreases n,
{
    if n > 0 {
        let t = txs[n - 1];
        assert(tx_wf(t));
        lemma_restore_txs(u, p, txs, (n - 1) as nat, k);
        let (u1, p1) = restore_txs(u, p, txs, (n - 1) as nat);
        lemma_restore_outputs(u1, p1, tx_id(t), t.outputs, t.outputs.len(), k);
    }
}

/// The blocks of a log that the resolution may read: well formed, and each
/// encoding short enough for its record.
pub open spec fn loggable(bs: Seq<BlockView>) -> bool {
    forall|k: int| 0 <= k < bs.len() ==> block_wf(#[trigger] bs[k]) && block_fits(bs[k])
        && ser_block(bs[k]).len() <= u32::MAX
}

proof fn lemma_resolve(bs: Seq<BlockView>, m: nat, uu: Map<UtxoKey, OutputView>, pp: Set<UtxoKey>, k: UtxoKey)
    requires
        m <= bs.len(),
        loggable(bs),
    ensures
        ({
            let (u2, p2) = resolve(chain_of(bs), offset(bs, m as int), uu, pp);
            &&& p2.contains(k) == (pp.contains(k) && found(bs, m, k) is None)
            &&& (pp.contains(k) && found(bs, m, k) is Some) ==> u2.contains_key(k) && u2[k] == found(bs, m, k)->0
            &&& !(pp.contains(k) && found(bs, m, k) is Some) ==> u2.contains_key(k) == uu.contains_key(k)
                && (uu.contains_key(k) ==> u2[k] == uu[k])
        }),
    decreases m,
{
    let log = chain_of(bs);
    if m == 0 {
        assert(bs.take(0) =~= Seq::<BlockView>::empty());
        assert(offset(bs, 0) == 0);
    } else {
        let b = bs[m - 1];
        assert(block_wf(b) && block_fits(b) && ser_block(b).len() <= u32::MAX);
        lemma_ser_list_take(bs, |x: BlockView| record(x), m - 1);
        assert(offset(bs, m as int) == offset(bs, m - 1) + record(b).len());
        if pp == Set::<UtxoKey>::empty() {
            assert(!pp.contains(k));
        } else {
            lemma_chain_scan(bs, m - 1);
            assert forall|j: int| 0 <= j < b.txs.len() implies tx_wf(#[trigger] b.txs[j]) by {}
            let (u1, p1) = restore_txs(uu, pp, b.txs, b.txs.len());
            lemma_restore_txs(uu, pp, b.txs, b.txs.len(), k);
            lemma_resolve(bs, (m - 1) as nat, u1, p1, k);
        }
    }
}

proof fn lemma_rewind_then_resolve_at(
    u: Map<UtxoKey, OutputView>,
    txs: Seq<TransactionView>,
    bs: Seq<BlockView>,
    k: UtxoKey,
)
    requires
        undoable(u, txs),
        loggable(bs),
        spent_by(txs, txs.len() as int, k) ==> found(bs, bs.len(), k) == Some(u[k]),
    ensures
        ({
            let applied = apply_txs(u, txs, txs.len());
            let rewound = rewind_utxo(applied, txs, txs.len());
            let pending = rewind_pending(Set::empty(), txs, txs.len());
            let (u2, p2) = resolve(chain_of(bs), offset(bs, bs.len() as int), rewound, pending);
            &&& u2.contains_key(k) == u.contains_key(k)
            &&& u.contains_key(k) ==> u2[k] == u[k]
            &&& !p2.contains(k)
        }),
{
    let n = txs.len();
    let applied = apply_txs(u, txs, n);
    let rewound = rewind_utxo(applied, txs, n);
    let pending = rewind_pending(Set::empty(), txs, n);
    lemma_rewind_pending(u, txs, n, k);
    lemma_apply(u, txs, n, k);
    lemma_rewind_utxo(applied, txs, n, k);
    lemma_resolve(bs, bs.len(), rewound, pending, k);
    if spent_by(txs, n as int, k) {
        let (j2, i2) = choose|j2: int, i2: int|
            0 <= j2 < n && 0 <= i2 < txs[j2].inputs.len() && #[trigger] input_key(txs[j2].inputs[i2]) == k;
        assert(u.contains_key(k));
    }
    if u.contains_key(k) && made_by(txs, n as int, k) {
        let j2 = choose|j2: int| 0 <= j2 < n && #[trigger] tx_id(txs[j2]) == k.0 && k.1 < txs[j2].outputs.len();
        let i = k.1;
        assert(!u.contains_key((tx_id(txs[j2]), i)));
    }
}

/// Rewinding a block validated against `u` and then resolving the pending
/// keys over a chain log of earlier blocks gives `u` back with nothing left
/// pending, when, for each key the block spent, the latest block of the log
/// that makes that key gives it its value in `u`. This is what
/// `Block::rewind` followed by `Block::update_all_pending_utxos` from the
/// end of the log computes. As in `lemma_valid_block_apply_then_rewind`,
/// blocks with an output key already in `u` are excluded.
pub proof fn lemma_rewind_then_resolve(
    u: Map<UtxoKey, OutputView>,
    b: BlockView,
    difficulty: u32,
    reward: u32,
    bs: Seq<BlockView>,
)
    requires
        validate_block(b, difficulty, reward, u) is Ok,
        crate::block::block_wf(b),
        forall|j: int, i: u32|
            #![trigger u.contains_key((tx_id(b.txs[j]), i))]
            0 <= j < b.txs.len() && i < b.txs[j].outputs.len() ==> !u.contains_key((tx_id(b.txs[j]), i)),
        loggable(bs),
        forall|k: UtxoKey| spent_by(b.txs, b.txs.len() as int, k) ==> #[trigger] found(bs, bs.len(), k) == Some(u[k]),
    ensures
        ({
            let applied = apply_txs(u, b.txs, b.txs.len());
            let rewound = rewind_utxo(applied, b.txs, b.txs.len());
            let pending = rewind_pending(Set::empty(), b.txs, b.txs.len());
            resolve(chain_of(bs), chain_of(bs).len() as int, rewound, pending) == (u, Set::<UtxoKey>::empty())
        }),
{
    lemma_valid_block_spends_existing(b, difficulty, reward, u);
    lemma_rewind_then_resolve_all(u, b.txs, bs);
}

proof fn lemma_rewind_then_resolve_all(u: Map<UtxoKey, OutputView>, txs: Seq<TransactionView>, bs: Seq<BlockView>)
    requires
        undoable(u, txs),
        loggable(bs),
        forall|k: UtxoKey| spent_by(txs, txs.len() as int, k) ==> #[trigger] found(bs, bs.len(), k) == Some(u[k]),
    ensures
        ({
            let applied = apply_txs(u, txs, txs.len());
            let rewound = rewind_utxo(applied, txs, txs.len());
            let pending = rewind_pending(Set::empty(), txs, txs.len());
            resolve(chain_of(bs), chain_of(bs).len() as int, rewound, pending) == (u, Set::<UtxoKey>::empty())
        }),
{
    let n = txs.len();
    let applied = apply_txs(u, txs, n);
    let rewound = rewind_utxo(applied, txs, n);
    let pending = rewind_pending(Set::empty(), txs, n);
    assert(bs.take(bs.len() as int) =~= bs);
    assert(offset(bs, bs.len() as int) == chain_of(bs).len());
    let (u2, p2) = resolve(chain_of(bs), offset(bs, bs.len() as int), rewound, pending);
    assert forall|k: UtxoKey| #[trigger] u2.contains_key(k) == u.contains_key(k) by {
        lemma_rewind_then_resolve_at(u, txs, bs, k);
    }
    assert forall|k: UtxoKey| u2.contains_key(k) implies #[trigger] u2[k] == u[k] by {
        lemma_rewind_then_resolve_at(u, txs, bs, k);
    }
    assert forall|k: UtxoKey| !#[trigger] p2.contains(k) by {
        lemma_rewind_then_resolve_at(u, txs, bs, k);
    }
    assert(u2 =~= u);
    assert(p2 =~= Set::<UtxoKey>::empty());
}

} // verus!
