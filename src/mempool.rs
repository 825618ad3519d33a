//! The memory pool: pending transactions keyed by their id.
use vstd::prelude::*;
use crate::bytes::hash_eq;
use crate::transaction::{tx_id, Sha256Hash, Transaction, TransactionView};

verus! {

/// A pending transaction with its id.
#[derive(Debug)]
pub struct MempoolEntry {
    pub id: Sha256Hash,
    pub tx: Transaction,
}

/// The pending transactions, held as a list of entries with pairwise
/// distinct ids, each entry's id being its transaction's id.
#[derive(Debug)]
pub struct Mempool {
    pub entries: Vec<MempoolEntry>,
}

impl Mempool {
    pub open spec fn key_at(&self, i: int) -> Seq<u8> {
        self.entries@[i].id@
    }

    /// No two entries share an id, and each id is its transaction's.
    pub open spec fn wf(&self) -> bool {
        &&& forall|i: int, j: int|
            0 <= i < j < self.entries@.len() ==> #[trigger] self.key_at(i) != #[trigger] self.key_at(j)
        &&& forall|i: int|
            0 <= i < self.entries@.len() ==> #[trigger] self.key_at(i) == tx_id(self.entries@[i].tx@)
    }

    /// The transactions in the order they are held.
    pub open spec fn txs(&self) -> Seq<TransactionView> {
        self.entries@.map_values(|e: MempoolEntry| e.tx@)
    }

    pub open spec fn has_key(&self, k: Seq<u8>) -> bool {
        exists|i: int| 0 <= i < self.entries@.len() && self.key_at(i) == k
    }

    pub open spec fn index_of(&self, k: Seq<u8>) -> int {
        choose|i: int| 0 <= i < self.entries@.len() && self.key_at(i) == k
    }
}

impl View for Mempool {
    type V = Map<Seq<u8>, TransactionView>;

    open spec fn view(&self) -> Map<Seq<u8>, TransactionView> {
        Map::new(|k: Seq<u8>| self.has_key(k), |k: Seq<u8>| self.entries@[self.index_of(k)].tx@)
    }
}

impl Mempool {
    pub proof fn lemma_entry(&self, i: int)
        requires
            self.wf(),
            0 <= i < self.entries@.len(),
        ensures
            self@.contains_key(self.key_at(i)),
            self@[self.key_at(i)] == self.entries@[i].tx@,
    {
        let k = self.key_at(i);
        assert(self.has_key(k));
        let j = self.index_of(k);
        if j != i {
            if j < i {
                assert(self.key_at(j) != self.key_at(i));
            } else {
                assert(self.key_at(i) != self.key_at(j));
            }
        }
    }

    pub fn new() -> (r: Self)
        ensures
            r.wf(),
            r@ == Map::<Seq<u8>, TransactionView>::empty(),
            r.entries@.len() == 0,
    {
        let r = Mempool { entries: Vec::new() };
        assert(r@ =~= Map::<Seq<u8>, TransactionView>::empty());
        r
    }

    fn find(&self, id: &Sha256Hash) -> (r: Option<usize>)
        ensures
            r matches Some(i) ==> i < self.entries@.len() && self.key_at(i as int) == id@,
            r is None ==> !self.has_key(id@),
    {
        let mut i: usize = 0;
        while i < self.entries.len()
            invariant
                i <= self.entries@.len(),
                forall|j: int| 0 <= j < i ==> self.key_at(j) != id@,
            decreases self.entries@.len() - i,
        {
            if hash_eq(&self.entries[i].id, id) {
                return Some(i);
            }
            i = i + 1;
        }
        None
    }

    /// Whether a transaction with this id is held.
    pub fn contains_id(&self, id: &Sha256Hash) -> (r: bool)
        ensures
            r == self@.contains_key(id@),
    {
        self.find(id).is_some()
    }

    /// Adds `tx` under its id unless a transaction with that id is held;
    /// returns whether it was added.
    pub fn insert(&mut self, tx: Transaction) -> (r: bool)
        requires
            old(self).wf(),
        ensures
            final(self).wf(),
            r == !old(self)@.contains_key(tx_id(tx@)),
            final(self)@ == if r {
                old(self)@.insert(tx_id(tx@), tx@)
            } else {
                old(self)@
            },
            final(self).txs() == if r {
                old(self).txs().push(tx@)
            } else {
                old(self).txs()
            },
    {
        let id = tx.calculate_id();
        let ghost k = id@;
        let ghost v = tx@;
        if self.find(&id).is_some() {
            return false;
        }
        self.entries.push(MempoolEntry { id, tx });
        let ghost o = *old(self);
        let ghost n: int = o.entries@.len() as int;
        assert forall|a: int, b: int|
            0 <= a < b < self.entries@.len() implies #[trigger] self.key_at(a)
            != #[trigger] self.key_at(b) by {
            if b == n {
                if o.key_at(a) == k {
                    assert(o.has_key(k));
                }
            } else {
                assert(o.key_at(a) != o.key_at(b));
            }
        }
        assert forall|i: int| 0 <= i < self.entries@.len() implies #[trigger] self.key_at(i) == tx_id(self.entries@[i].tx@) by {
            if i < n {
                assert(o.key_at(i) == tx_id(o.entries@[i].tx@));
            }
        }
        assert forall|kk: Seq<u8>| #[trigger] self.has_key(kk) == (o.has_key(kk) || kk == k) by {
            if o.has_key(kk) {
                let j = o.index_of(kk);
                assert(self.key_at(j) == kk);
            }
            if kk == k {
                assert(self.key_at(n) == kk);
            }
            if self.has_key(kk) {
                let j = self.index_of(kk);
                assert(j == n || o.key_at(j) == kk);
            }
        }
        assert forall|kk: Seq<u8>| self.has_key(kk) implies #[trigger] self@[kk] == o@.insert(k, v)[kk] by {
            let j = self.index_of(kk);
            self.lemma_entry(j);
            if kk != k {
                assert(j != n);
                assert(o.key_at(j) == kk);
                o.lemma_entry(j);
            } else {
                self.lemma_entry(n);
            }
        }
        assert(self@ =~= o@.insert(k, v));
        assert(self.txs() =~= o.txs().push(v));
        true
    }

    /// Takes out the transaction with `tx`'s id; returns whether one was held.
    #[verifier::rlimit(60)]
    pub fn remove(&mut self, tx: &Transaction) -> (r: bool)
        requires
            old(self).wf(),
        ensures
            final(self).wf(),
            final(self)@ == old(self)@.remove(tx_id(tx@)),
            r == old(self)@.contains_key(tx_id(tx@)),
    {
        let id = tx.calculate_id();
        let ghost k = id@;
        match self.find(&id) {
            Some(i) => {
                self.entries.remove(i);
                let ghost o = *old(self);
                assert forall|a: int, b: int|
                    0 <= a < b < self.entries@.len() implies #[trigger] self.key_at(a)
                    != #[trigger] self.key_at(b) by {
                    let a2 = if a < i { a } else { a + 1 };
                    let b2 = if b < i { b } else { b + 1 };
                    assert(self.key_at(a) == o.key_at(a2));
                    assert(self.key_at(b) == o.key_at(b2));
                    assert(o.key_at(a2) != o.key_at(b2));
                }
                assert forall|a: int| 0 <= a < self.entries@.len() implies #[trigger] self.key_at(a) == tx_id(self.entries@[a].tx@) by {
                    let a2 = if a < i { a } else { a + 1 };
                    assert(o.key_at(a2) == tx_id(o.entries@[a2].tx@));
                }
                assert forall|kk: Seq<u8>| #[trigger] self.has_key(kk) == (o.has_key(kk) && kk != k) by {
                    if o.has_key(kk) && kk != k {
                        let j = o.index_of(kk);
                        assert(j != i);
                        let j2 = if j < i { j } else { j - 1 };
                        assert(self.key_at(j2) == kk);
                    }
                    if self.has_key(kk) {
                        let j = self.index_of(kk);
                        let j2 = if j < i { j } else { j + 1 };
                        assert(o.key_at(j2) == kk);
                        if kk == k {
                            assert(j2 != i);
                            if j2 < i {
                                assert(o.key_at(j2) != o.key_at(i as int));
                            } else {
                                assert(o.key_at(i as int) != o.key_at(j2));
                            }
                        }
                    }
                }
                assert forall|kk: Seq<u8>| self.has_key(kk) implies #[trigger] self@[kk] == o@.remove(k)[kk] by {
                    let j = self.index_of(kk);
                    self.lemma_entry(j);
                    let j2 = if j < i { j } else { j + 1 };
                    assert(o.key_at(j2) == kk);
                    o.lemma_entry(j2);
                }
                assert(self@ =~= o@.remove(k));
                proof {
                    o.lemma_entry(i as int);
                }
                true
            },
            None => {
                assert(self@ =~= old(self)@.remove(k));
                false
            },
        }
    }

    /// The number of transactions held.
    pub fn len(&self) -> (r: usize)
        ensures
            r == self.entries@.len(),
    {
        self.entries.len()
    }
}

} // verus!
