//! The unspent-output set: a map from (transaction id, output index) to output.
use vstd::prelude::*;
use crate::bytes::hash_eq;
use crate::transaction::{Output, OutputView, Sha256Hash};

verus! {

/// The key of an unspent output: the id of the transaction that made it and
/// its index among that transaction's outputs.
pub type UtxoKey = (Seq<u8>, u32);

/// One unspent output with its key.
#[derive(Debug)]
pub struct UtxoEntry {
    pub tx_id: Sha256Hash,
    pub output_id: u32,
    pub output: Output,
}

pub struct UtxoEntryView {
    pub tx_id: Seq<u8>,
    pub output_id: u32,
    pub output: OutputView,
}

impl View for UtxoEntry {
    type V = UtxoEntryView;

    open spec fn view(&self) -> UtxoEntryView {
        UtxoEntryView { tx_id: self.tx_id@, output_id: self.output_id, output: self.output@ }
    }
}

/// No two entries share a key.
pub open spec fn entry_keys_distinct(es: Seq<UtxoEntryView>) -> bool {
    forall|i: int, j: int|
        0 <= i < j < es.len() ==> (#[trigger] es[i]).tx_id != (#[trigger] es[j]).tx_id
            || es[i].output_id != es[j].output_id
}

/// The unspent outputs, held as a list of entries with pairwise distinct keys.
#[derive(Debug)]
pub struct UTXOSet {
    pub entries: Vec<UtxoEntry>,
}

impl UTXOSet {
    pub open spec fn key_at(&self, i: int) -> UtxoKey {
        (self.entries@[i].tx_id@, self.entries@[i].output_id)
    }

    /// No two entries share a key.
    pub open spec fn wf(&self) -> bool {
        forall|i: int, j: int|
            0 <= i < j < self.entries@.len() ==> #[trigger] self.key_at(i) != #[trigger] self.key_at(j)
    }

    pub open spec fn has_key(&self, k: UtxoKey) -> bool {
        exists|i: int| 0 <= i < self.entries@.len() && self.key_at(i) == k
    }

    pub open spec fn index_of(&self, k: UtxoKey) -> int {
        choose|i: int| 0 <= i < self.entries@.len() && self.key_at(i) == k
    }
}

impl View for UTXOSet {
    type V = Map<UtxoKey, OutputView>;

    open spec fn view(&self) -> Map<UtxoKey, OutputView> {
        Map::new(|k: UtxoKey| self.has_key(k), |k: UtxoKey| self.entries@[self.index_of(k)].output@)
    }
}

impl UTXOSet {
    pub proof fn lemma_entry(&self, i: int)
        requires
            self.wf(),
            0 <= i < self.entries@.len(),
        ensures
            self@.contains_key(self.key_at(i)),
            self@[self.key_at(i)] == self.entries@[i].output@,
    {
        let k = self.key_at(i);
        assert(self.has_key(k));
        let j = self.index_of(k);
        if j != i {
            if j < i {
                assert(self.key_at(j) != self.key_at(i));
            } else {
                assert(self.key_at(i) != self.key_at(j));
            }
        }
    }

    pub fn new() -> (r: Self)
        ensures
            r.wf(),
            r@ == Map::<UtxoKey, OutputView>::empty(),
            r.entries@.len() == 0,
    {
        let r = UTXOSet { entries: Vec::new() };
        assert(r@ =~= Map::<UtxoKey, OutputView>::empty());
        r
    }

    fn find(&self, tx_id: &Sha256Hash, output_id: u32) -> (r: Option<usize>)
        ensures
            r matches Some(i) ==> i < self.entries@.len() && self.key_at(i as int) == (
                tx_id@,
                output_id,
            ),
            r is None ==> !self.has_key((tx_id@, output_id)),
    {
        let mut i: usize = 0;
        while i < self.entries.len()
            invariant
                i <= self.entries@.len(),
                forall|j: int| 0 <= j < i ==> self.key_at(j) != (tx_id@, output_id),
            decreases self.entries@.len() - i,
        {
            let e = &self.entries[i];
            if e.output_id == output_id && hash_eq(&e.tx_id, tx_id) {
                return Some(i);
            }
            i = i + 1;
        }
        None
    }

    /// Whether the key is present.
    pub fn contains_key(&self, tx_id: &Sha256Hash, output_id: u32) -> (r: bool)
        requires
            self.wf(),
        ensures
            r == self@.contains_key((tx_id@, output_id)),
    {
        self.find(tx_id, output_id).is_some()
    }

    /// The output under the key, if any.
    pub fn get(&self, tx_id: &Sha256Hash, output_id: u32) -> (r: Option<&Output>)
        requires
            self.wf(),
        ensures
            r matches Some(o) ==> self@.contains_key((tx_id@, output_id)) && o@ == self@[(
                tx_id@,
                output_id,
            )],
            r is None ==> !self@.contains_key((tx_id@, output_id)),
    {
        match self.find(tx_id, output_id) {
            Some(i) => {
                proof {
                    self.lemma_entry(i as int);
                }
                Some(&self.entries[i].output)
            },
            None => None,
        }
    }

    /// Puts `output` under the key, replacing what was there.
    pub fn insert(&mut self, tx_id: Sha256Hash, output_id: u32, output: Output)
        requires
            old(self).wf(),
        ensures
            final(self).wf(),
            final(self)@ == old(self)@.insert((tx_id@, output_id), output@),
    {
        let ghost k = (tx_id@, output_id);
        let ghost v = output@;
        let entry = UtxoEntry { tx_id, output_id, output };
        match self.find(&tx_id, output_id) {
            Some(i) => {
                self.entries.set(i, entry);
                let ghost o = *old(self);
                assert forall|a: int, b: int|
                    0 <= a < b < self.entries@.len() implies #[trigger] self.key_at(a)
                    != #[trigger] self.key_at(b) by {
                    assert(o.key_at(a) != o.key_at(b));
                    if a != i && b != i {
                    } else {
                        assert(self.key_at(i as int) == o.key_at(i as int));
                    }
                }
                assert forall|kk: UtxoKey| #[trigger] self.has_key(kk) == (o.has_key(kk) || kk == k) by {
                    if o.has_key(kk) {
                        let j = o.index_of(kk);
                        assert(self.key_at(j) == kk);
                    }
                    if self.has_key(kk) {
                        let j = self.index_of(kk);
                        assert(j == i || o.key_at(j) == kk);
                    }
                }
                assert forall|kk: UtxoKey| self.has_key(kk) implies #[trigger] self@[kk] == o@.insert(k, v)[kk] by {
                    let j = self.index_of(kk);
                    self.lemma_entry(j);
                    if kk != k {
                        assert(j != i);
                        assert(o.key_at(j) == kk);
                        o.lemma_entry(j);
                    } else {
                        self.lemma_entry(i as int);
                    }
                }
                assert(self@ =~= o@.insert(k, v));
            },
            None => {
                self.entries.push(entry);
                let ghost o = *old(self);
                let ghost n: int = o.entries@.len() as int;
                assert forall|a: int, b: int|
                    0 <= a < b < self.entries@.len() implies #[trigger] self.key_at(a)
                    != #[trigger] self.key_at(b) by {
                    if b == n {
                        if o.key_at(a) == k {
                            assert(o.has_key(k));
                        }
                    } else {
                        assert(o.key_at(a) != o.key_at(b));
                    }
                }
                assert forall|kk: UtxoKey| #[trigger] self.has_key(kk) == (o.has_key(kk) || kk == k) by {
                    if o.has_key(kk) {
                        let j = o.index_of(kk);
                        assert(self.key_at(j) == kk);
                    }
                    if kk == k {
                        assert(self.key_at(n) == kk);
                    }
                    if self.has_key(kk) {
                        let j = self.index_of(kk);
                        assert(j == n || o.key_at(j) == kk);
                    }
                }
                assert forall|kk: UtxoKey| self.has_key(kk) implies #[trigger] self@[kk] == o@.insert(k, v)[kk] by {
                    let j = self.index_of(kk);
                    self.lemma_entry(j);
                    if kk != k {
                        assert(j != n);
                        assert(o.key_at(j) == kk);
                        o.lemma_entry(j);
                    } else {
                        self.lemma_entry(n);
                    }
                }
                assert(self@ =~= o@.insert(k, v));
            },
        }
    }

    /// Takes the key out; returns whether it was present.
    pub fn remove(&mut self, tx_id: &Sha256Hash, output_id: u32) -> (r: bool)
        requires
            old(self).wf(),
        ensures
            final(self).wf(),
            final(self)@ == old(self)@.remove((tx_id@, output_id)),
            r == old(self)@.contains_key((tx_id@, output_id)),
    {
        let ghost k = (tx_id@, output_id);
        match self.find(tx_id, output_id) {
            Some(i) => {
                self.entries.remove(i);
                let ghost o = *old(self);
                assert forall|a: int, b: int|
                    0 <= a < b < self.entries@.len() implies #[trigger] self.key_at(a)
                    != #[trigger] self.key_at(b) by {
                    let a2 = if a < i { a } else { a + 1 };
                    let b2 = if b < i { b } else { b + 1 };
                    assert(self.key_at(a) == o.key_at(a2));
                    assert(self.key_at(b) == o.key_at(b2));
                    assert(o.key_at(a2) != o.key_at(b2));
                }
                assert forall|kk: UtxoKey| #[trigger] self.has_key(kk) == (o.has_key(kk) && kk != k) by {
                    if o.has_key(kk) && kk != k {
                        let j = o.index_of(kk);
                        assert(j != i);
                        let j2 = if j < i { j } else { j - 1 };
                        assert(self.key_at(j2) == kk);
                    }
                    if self.has_key(kk) {
                        let j = self.index_of(kk);
                        let j2 = if j < i { j } else { j + 1 };
                        assert(o.key_at(j2) == kk);
                        if kk == k {
                            assert(j2 != i);
                            if j2 < i {
                                assert(o.key_at(j2) != o.key_at(i as int));
                            } else {
                                assert(o.key_at(i as int) != o.key_at(j2));
                            }
                        }
                    }
                }
                assert forall|kk: UtxoKey| self.has_key(kk) implies #[trigger] self@[kk] == o@.remove(k)[kk] by {
                    let j = self.index_of(kk);
                    self.lemma_entry(j);
                    let j2 = if j < i { j } else { j + 1 };
                    assert(o.key_at(j2) == kk);
                    o.lemma_entry(j2);
                }
                assert(self@ =~= o@.remove(k));
                proof {
                    o.lemma_entry(i as int);
                }
                true
            },
            None => {
                assert(self@ =~= old(self)@.remove(k));
                false
            },
        }
    }

    /// The entries in the order they are held.
    pub open spec fn entries_view(&self) -> Seq<UtxoEntryView> {
        self.entries@.map_values(|e: UtxoEntry| e@)
    }

    /// Appends an entry whose key is not held yet; returns `false`, changing
    /// nothing, where it is.
    pub fn push_new(&mut self, entry: UtxoEntry) -> (r: bool)
        requires
            old(self).wf(),
        ensures
            final(self).wf(),
            r == !old(self)@.contains_key((entry.tx_id@, entry.output_id)),
            r ==> final(self).entries_view() == old(self).entries_view().push(entry@),
            !r ==> final(self).entries_view() == old(self).entries_view(),
    {
        let ghost k = (entry.tx_id@, entry.output_id);
        if self.find(&entry.tx_id, entry.output_id).is_some() {
            return false;
        }
        let ghost e = entry@;
        self.entries.push(entry);
        let ghost o = *old(self);
        let ghost n: int = o.entries@.len() as int;
        assert forall|a: int, b: int|
            0 <= a < b < self.entries@.len() implies #[trigger] self.key_at(a)
            != #[trigger] self.key_at(b) by {
            if b == n {
                if o.key_at(a) == k {
                    assert(o.has_key(k));
                }
            } else {
                assert(o.key_at(a) != o.key_at(b));
            }
        }
        assert(self.entries_view() =~= o.entries_view().push(e));
        true
    }

    /// Two sets that hold the same entries hold the same map.
    pub proof fn lemma_same_entries(&self, other: &UTXOSet)
        requires
            self.wf(),
            other.wf(),
            self.entries_view() == other.entries_view(),
        ensures
            self@ == other@,
    {
        assert(self.entries_view().len() == self.entries@.len());
        assert(other.entries_view().len() == other.entries@.len());
        assert forall|i: int| 0 <= i < self.entries@.len() implies #[trigger] self.key_at(i) == other.key_at(i) by {
            assert(self.entries_view()[i] == other.entries_view()[i]);
            assert(self.entries_view()[i] == self.entries@[i]@);
            assert(other.entries_view()[i] == other.entries@[i]@);
        }
        assert forall|k: UtxoKey| #[trigger] self.has_key(k) == other.has_key(k) by {
            if self.has_key(k) {
                let j = self.index_of(k);
                assert(other.key_at(j) == k);
            }
            if other.has_key(k) {
                let j = other.index_of(k);
                assert(self.key_at(j) == k);
            }
        }
        assert forall|k: UtxoKey| self.has_key(k) implies #[trigger] self@[k] == other@[k] by {
            let j = self.index_of(k);
            assert(self.key_at(j) == k);
            self.lemma_entry(j);
            assert(other.key_at(j) == k);
            other.lemma_entry(j);
            assert(self.entries_view()[j] == other.entries_view()[j]);
            assert(self.entries_view()[j] == self.entries@[j]@);
            assert(other.entries_view()[j] == other.entries@[j]@);
        }
        assert(self@ =~= other@);
    }

    /// The number of unspent outputs held.
    pub fn len(&self) -> (r: usize)
        ensures
            r == self.entries@.len(),
    {
        self.entries.len()
    }
}

/// A set of unspent-output keys, held as a list without repeats.
#[derive(Debug)]
pub struct UtxoKeySet {
    pub keys: Vec<(Sha256Hash, u32)>,
}

impl UtxoKeySet {
    pub open spec fn key_at(&self, i: int) -> UtxoKey {
        (self.keys@[i].0@, self.keys@[i].1)
    }

    /// No key is held twice.
    pub open spec fn wf(&self) -> bool {
        forall|i: int, j: int|
            0 <= i < j < self.keys@.len() ==> #[trigger] self.key_at(i) != #[trigger] self.key_at(j)
    }
}

impl View for UtxoKeySet {
    type V = Set<UtxoKey>;

    open spec fn view(&self) -> Set<UtxoKey> {
        Set::new(|k: UtxoKey| exists|i: int| 0 <= i < self.keys@.len() && self.key_at(i) == k)
    }
}

impl UtxoKeySet {
    pub fn new() -> (r: Self)
        ensures
            r.wf(),
            r@ == Set::<UtxoKey>::empty(),
    {
        let r = UtxoKeySet { keys: Vec::new() };
        assert(r@ =~= Set::<UtxoKey>::empty());
        r
    }

    fn find(&self, tx_id: &Sha256Hash, output_id: u32) -> (r: Option<usize>)
        ensures
            r matches Some(i) ==> i < self.keys@.len() && self.key_at(i as int) == (tx_id@, output_id),
            r is None ==> !self@.contains((tx_id@, output_id)),
    {
        let mut i: usize = 0;
        while i < self.keys.len()
            invariant
                i <= self.keys@.len(),
                forall|j: int| 0 <= j < i ==> self.key_at(j) != (tx_id@, output_id),
            decreases self.keys@.len() - i,
        {
            if self.keys[i].1 == output_id && hash_eq(&self.keys[i].0, tx_id) {
                return Some(i);
            }
            i = i + 1;
        }
        None
    }

    pub fn contains(&self, tx_id: &Sha256Hash, output_id: u32) -> (r: bool)
        ensures
            r == self@.contains((tx_id@, output_id)),
    {
        self.find(tx_id, output_id).is_some()
    }

    pub fn is_empty(&self) -> (r: bool)
        ensures
            r == (self@ == Set::<UtxoKey>::empty()),
    {
        if self.keys.len() == 0 {
            assert(self@ =~= Set::<UtxoKey>::empty());
            true
        } else {
            assert(self@.contains(self.key_at(0)));
            false
        }
    }

    pub fn insert(&mut self, tx_id: Sha256Hash, output_id: u32)
        requires
            old(self).wf(),
        ensures
            final(self).wf(),
            final(self)@ == old(self)@.insert((tx_id@, output_id)),
    {
        let ghost k = (tx_id@, output_id);
        if self.find(&tx_id, output_id).is_none() {
            self.keys.push((tx_id, output_id));
            let ghost o = *old(self);
            let ghost n: int = o.keys@.len() as int;
            assert forall|a: int, b: int|
                0 <= a < b < self.keys@.len() implies #[trigger] self.key_at(a) != #[trigger] self.key_at(b) by {
                if b == n {
                    if o.key_at(a) == k {
                        assert(o@.contains(k));
                    }
                } else {
                    assert(o.key_at(a) != o.key_at(b));
                }
            }
            assert forall|kk: UtxoKey| #[trigger] self@.contains(kk) == o@.insert(k).contains(kk) by {
                if o@.contains(kk) {
                    let j = choose|j: int| 0 <= j < o.keys@.len() && o.key_at(j) == kk;
                    assert(self.key_at(j) == kk);
                }
                if kk == k {
                    assert(self.key_at(n) == kk);
                }
                if self@.contains(kk) {
                    let j = choose|j: int| 0 <= j < self.keys@.len() && self.key_at(j) == kk;
                    assert(j == n || o.key_at(j) == kk);
                }
            }
            assert(self@ =~= o@.insert(k));
        } else {
            assert(self@ =~= old(self)@.insert(k));
        }
    }

    /// Takes the key out; returns whether it was present.
    pub fn remove(&mut self, tx_id: &Sha256Hash, output_id: u32) -> (r: bool)
        requires
            old(self).wf(),
        ensures
            final(self).wf(),
            final(self)@ == old(self)@.remove((tx_id@, output_id)),
            r == old(self)@.contains((tx_id@, output_id)),
    {
        let ghost k = (tx_id@, output_id);
        match self.find(tx_id, output_id) {
            Some(i) => {
                self.keys.remove(i);
                let ghost o = *old(self);
                assert forall|a: int, b: int|
                    0 <= a < b < self.keys@.len() implies #[trigger] self.key_at(a) != #[trigger] self.key_at(b) by {
                    let a2 = if a < i { a } else { a + 1 };
                    let b2 = if b < i { b } else { b + 1 };
                    assert(self.key_at(a) == o.key_at(a2));
                    assert(self.key_at(b) == o.key_at(b2));
                    assert(o.key_at(a2) != o.key_at(b2));
                }
                assert forall|kk: UtxoKey| #[trigger] self@.contains(kk) == o@.remove(k).contains(kk) by {
                    if o@.contains(kk) && kk != k {
                        let j = choose|j: int| 0 <= j < o.keys@.len() && o.key_at(j) == kk;
                        assert(j != i);
                        let j2 = if j < i { j } else { j - 1 };
                        assert(self.key_at(j2) == kk);
                    }
                    if self@.contains(kk) {
                        let j = choose|j: int| 0 <= j < self.keys@.len() && self.key_at(j) == kk;
                        let j2 = if j < i { j } else { j + 1 };
                        assert(o.key_at(j2) == kk);
                        if kk == k {
                            assert(j2 != i);
                            if j2 < i {
                                assert(o.key_at(j2) != o.key_at(i as int));
                            } else {
                                assert(o.key_at(i as int) != o.key_at(j2));
                            }
                        }
                    }
                }
                assert(self@ =~= o@.remove(k));
                assert(o@.contains(k)) by {
                    assert(o.key_at(i as int) == k);
                }
                true
            },
            None => {
                assert(self@ =~= old(self)@.remove(k));
                false
            },
        }
    }
}

} // verus!
