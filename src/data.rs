//! The keyed store: byte keys to byte values, each with an optional absolute
//! expiry, enforced lazily when a key is read.
use vstd::prelude::*;

verus! {

/// A stored value with its expiry: a time in milliseconds on the caller's clock.
pub struct ValueWithMeta {
    value: Vec<u8>,
    expiry: Option<u64>,
}

impl View for ValueWithMeta {
    type V = (Seq<u8>, Option<u64>);

    closed spec fn view(&self) -> (Seq<u8>, Option<u64>) {
        (self.value@, self.expiry)
    }
}

/// The absolute expiry that a duration of `ttl` milliseconds from `now` gives.
pub open spec fn deadline(ttl: Option<u64>, now: u64) -> Option<u64> {
    match ttl {
        Some(d) => Some((now + d) as u64),
        None => None,
    }
}

/// Whether a stored value is still present at time `now`: an expiry at or before
/// `now` makes it absent.
pub open spec fn is_live(stored: (Seq<u8>, Option<u64>), now: u64) -> bool {
    match stored.1 {
        Some(t) => now < t,
        None => true,
    }
}

/// The value that `key` holds at time `now`, if any.
pub open spec fn live_value(m: Map<Seq<u8>, (Seq<u8>, Option<u64>)>, key: Seq<u8>, now: u64) -> Option<
    Seq<u8>,
> {
    if m.contains_key(key) && is_live(m[key], now) {
        Some(m[key].0)
    } else {
        None
    }
}

impl ValueWithMeta {
    /// A value that expires `ttl` milliseconds after `now`, or never.
    pub fn new(value: Vec<u8>, ttl: Option<u64>, now: u64) -> (r: ValueWithMeta)
        requires
            ttl is Some ==> now + ttl->0 <= u64::MAX,
        ensures
            r@ == (value@, deadline(ttl, now)),
    {
        let expiry = match ttl {
            Some(d) => Some(now + d),
            None => None,
        };
        ValueWithMeta { value, expiry }
    }
}

struct Entry {
    key: Vec<u8>,
    meta: ValueWithMeta,
}

/// The store. Keys are unique; there is no bound on its size.
pub struct Data {
    entries: Vec<Entry>,
}

pub fn bytes_equal(a: &[u8], b: &[u8]) -> (r: bool)
    ensures
        r == (a@ == b@),
{
    if a.len() != b.len() {
        return false;
    }
    let mut i: usize = 0;
    while i < a.len()
        invariant
            a@.len() == b@.len(),
            i <= a@.len(),
            forall|j: int| 0 <= j < i ==> a@[j] == b@[j],
        decreases a@.len() - i,
    {
        if a[i] != b[i] {
            return false;
        }
        i = i + 1;
    }
    assert(a@ =~= b@);
    true
}

impl Data {
    /// Well-formedness: no key appears twice.
    pub closed spec fn wf(&self) -> bool {
        forall|i: int, j: int|
            0 <= i < self.entries.len() && 0 <= j < self.entries.len() && i != j
                ==> (#[trigger] self.entries[i]).key@ != (#[trigger] self.entries[j]).key@
    }

    spec fn holds(self, k: Seq<u8>) -> bool {
        exists|i: int| 0 <= i < self.entries.len() && (#[trigger] self.entries[i]).key@ == k
    }

    spec fn index_of(self, k: Seq<u8>) -> int {
        choose|i: int| 0 <= i < self.entries.len() && (#[trigger] self.entries[i]).key@ == k
    }

    /// What the store holds: each key with its value and expiry.
    pub closed spec fn view(&self) -> Map<Seq<u8>, (Seq<u8>, Option<u64>)> {
        Map::new(|k: Seq<u8>| self.holds(k), |k: Seq<u8>| self.entries[self.index_of(k)].meta@)
    }

    proof fn lemma_index(self, i: int)
        requires
            self.wf(),
            0 <= i < self.entries.len(),
        ensures
            self.view().contains_key(self.entries[i].key@),
            self.view()[self.entries[i].key@] == self.entries[i].meta@,
    {
        let k = self.entries[i].key@;
        assert(self.holds(k));
        let j = self.index_of(k);
        assert(self.entries[j].key@ == k);
    }

    /// An empty store.
    pub fn new() -> (r: Data)
        ensures
            r.wf(),
            r.view() == Map::<Seq<u8>, (Seq<u8>, Option<u64>)>::empty(),
    {
        let r = Data { entries: Vec::new() };
        assert(r.view() =~= Map::<Seq<u8>, (Seq<u8>, Option<u64>)>::empty());
        r
    }

    fn find(&self, key: &[u8]) -> (r: Option<usize>)
        ensures
            match r {
                Some(i) => i < self.entries.len() && self.entries[i as int].key@ == key@,
                None => !self.view().contains_key(key@),
            },
    {
        let mut i: usize = 0;
        while i < self.entries.len()
            invariant
                i <= self.entries.len(),
                forall|j: int| 0 <= j < i ==> (#[trigger] self.entries[j]).key@ != key@,
            decreases self.entries.len() - i,
        {
            if bytes_equal(self.entries[i].key.as_slice(), key) {
                return Some(i);
            }
            i = i + 1;
        }
        None
    }

    /// Whether the store physically holds `key`, live or expired.
    pub fn holds_key(&self, key: &[u8]) -> (r: bool)
        ensures
            r == self.view().contains_key(key@),
    {
        match self.find(key) {
            Some(i) => {
                assert(self.holds(key@));
                true
            },
            None => false,
        }
    }

    /// The value of `key` at time `now`. An entry whose expiry has passed is removed
    /// and reads as absent.
    pub fn get(&mut self, key: &[u8], now: u64) -> (r: Option<Vec<u8>>)
        requires
            old(self).wf(),
        ensures
            final(self).wf(),
            r is Some <==> live_value(old(self).view(), key@, now) is Some,
            r is Some ==> r->0@ == live_value(old(self).view(), key@, now)->0,
            final(self).view() == if old(self).view().contains_key(key@) && !is_live(
                old(self).view()[key@],
                now,
            ) {
                old(self).view().remove(key@)
            } else {
                old(self).view()
            },
    {
        match self.find(key) {
            None => None,
            Some(i) => {
                proof {
                    self.lemma_index(i as int);
                }
                let expired = match self.entries[i].meta.expiry {
                    Some(t) => t <= now,
                    None => false,
                };
                if expired {
                    let ghost before = *self;
                    self.entries.remove(i);
                    proof {
                        assert forall|k: Seq<u8>|
                            #![auto]
                            self.view().contains_key(k) <==> before.view().remove(key@).contains_key(k) by {
                            if self.holds(k) {
                                let j = choose|j: int| 0 <= j < self.entries.len() && (#[trigger] self.entries[j]).key@ == k;
                                if j < i {
                                    assert(before.entries[j] == self.entries[j]);
                                } else {
                                    assert(before.entries[j + 1] == self.entries[j]);
                                }
                            }
                            if before.view().remove(key@).contains_key(k) {
                                let j = choose|j: int| 0 <= j < before.entries.len() && (#[trigger] before.entries[j]).key@ == k;
                                if j < i {
                                    assert(before.entries[j] == self.entries[j]);
                                } else {
                                    assert(j != i);
                                    assert(before.entries[j] == self.entries[j - 1]);
                                }
                            }
                        }
                        assert forall|k: Seq<u8>| #[trigger] self.view().contains_key(k) implies self.view()[k] == before.view()[k] by {
                            let j = self.index_of(k);
                            self.lemma_index(j);
                            if j < i {
                                assert(before.entries[j] == self.entries[j]);
                                before.lemma_index(j);
                            } else {
                                assert(before.entries[j + 1] == self.entries[j]);
                                before.lemma_index(j + 1);
                            }
                        }
                        assert(self.view() =~= before.view().remove(key@));
                    }
                    None
                } else {
                    Some(self.entries[i].meta.value.clone())
                }
            },
        }
    }

    /// Stores `value` under `key`, replacing any earlier value and its expiry; the
    /// new value expires `ttl` milliseconds after `now`, or never. Hands back the
    /// value that `key` held at `now`, if any.
    pub fn set(&mut self, key: Vec<u8>, value: Vec<u8>, ttl: Option<u64>, now: u64) -> (r: Option<
        Vec<u8>,
    >)
        requires
            old(self).wf(),
            ttl is Some ==> now + ttl->0 <= u64::MAX,
        ensures
            final(self).wf(),
            final(self).view() == old(self).view().insert(key@, (value@, deadline(ttl, now))),
            r is Some <==> live_value(old(self).view(), key@, now) is Some,
            r is Some ==> r->0@ == live_value(old(self).view(), key@, now)->0,
    {
        let meta = ValueWithMeta::new(value, ttl, now);
        let ghost before = *self;
        let ghost k = key@;
        match self.find(key.as_slice()) {
            Some(i) => {
                proof {
                    self.lemma_index(i as int);
                }
                let previous = match self.entries[i].meta.expiry {
                    Some(t) => if t <= now {
                        None
                    } else {
                        Some(self.entries[i].meta.value.clone())
                    },
                    None => Some(self.entries[i].meta.value.clone()),
                };
                self.entries.set(i, Entry { key, meta });
                proof {
                    assert forall|a: int, b: int|
                        0 <= a < self.entries.len() && 0 <= b < self.entries.len() && a != b
                            implies (#[trigger] self.entries[a]).key@ != (#[trigger] self.entries[b]).key@ by {
                        assert(before.entries[a].key@ == self.entries[a].key@);
                        assert(before.entries[b].key@ == self.entries[b].key@);
                    }
                    assert forall|q: Seq<u8>|
                        #![auto]
                        self.view().contains_key(q) <==> before.view().insert(k, meta@).contains_key(q) by {
                        if self.holds(q) {
                            let j = choose|j: int| 0 <= j < self.entries.len() && (#[trigger] self.entries[j]).key@ == q;
                            assert(before.entries[j].key@ == q);
                        }
                        if before.holds(q) {
                            let j = choose|j: int| 0 <= j < before.entries.len() && (#[trigger] before.entries[j]).key@ == q;
                            assert(self.entries[j].key@ == q);
                        }
                        if q == k {
                            assert(self.entries[i as int].key@ == q);
                        }
                    }
                    assert forall|q: Seq<u8>| #[trigger] self.view().contains_key(q) implies self.view()[q] == before.view().insert(k, meta@)[q] by {
                        let j = self.index_of(q);
                        self.lemma_index(j);
                        before.lemma_index(j);
                    }
                    assert(self.view() =~= before.view().insert(k, meta@));
                }
                previous
            },
            None => {
                self.entries.push(Entry { key, meta });
                proof {
                    let n = before.entries.len() as int;
                    assert forall|a: int, b: int|
                        0 <= a < self.entries.len() && 0 <= b < self.entries.len() && a != b
                            implies (#[trigger] self.entries[a]).key@ != (#[trigger] self.entries[b]).key@ by {
                        if a < n && b < n {
                            assert(before.entries[a] == self.entries[a]);
                            assert(before.entries[b] == self.entries[b]);
                        } else if a < n {
                            assert(before.entries[a] == self.entries[a]);
                            before.lemma_index(a);
                        } else {
                            assert(before.entries[b] == self.entries[b]);
                            before.lemma_index(b);
                        }
                    }
                    assert forall|q: Seq<u8>|
                        #![auto]
                        self.view().contains_key(q) <==> before.view().insert(k, meta@).contains_key(q) by {
                        if self.holds(q) {
                            let j = choose|j: int| 0 <= j < self.entries.len() && (#[trigger] self.entries[j]).key@ == q;
                            if j < n {
                                assert(before.entries[j] == self.entries[j]);
                            }
                        }
                        if before.holds(q) {
                            let j = choose|j: int| 0 <= j < before.entries.len() && (#[trigger] before.entries[j]).key@ == q;
                            assert(self.entries[j] == before.entries[j]);
                        }
                        if q == k {
                            assert(self.entries[n].key@ == q);
                        }
                    }
                    assert forall|q: Seq<u8>| #[trigger] self.view().contains_key(q) implies self.view()[q] == before.view().insert(k, meta@)[q] by {
                        let j = self.index_of(q);
                        self.lemma_index(j);
                        if j < n {
                            assert(before.entries[j] == self.entries[j]);
                            before.lemma_index(j);
                        }
                    }
                    assert(self.view() =~= before.view().insert(k, meta@));
                }
                None
            },
        }
    }
}

} // verus!
