//! The cache: text values under text keys, each with an optional lifetime
//! that is checked only when the key is read.

use vstd::prelude::*;
use vstd::string::*;
use crate::utils::now;

verus! {

/// What the cache holds under a key.
pub struct Stored {
    pub value: Seq<char>,
    pub ttl: Option<u64>,
    pub inserted_at: u128,
}

struct Entry {
    key: String,
    value: String,
    ttl: Option<u64>,
    inserted_at: u128,
}

impl Entry {
    spec fn stored(&self) -> Stored {
        Stored { value: self.value@, ttl: self.ttl, inserted_at: self.inserted_at }
    }
}

/// True when an entry with this lifetime, stored then, is gone at `now`: it
/// has a lifetime and more milliseconds than that have passed.
pub open spec fn expired(s: Stored, now: u128) -> bool {
    match s.ttl {
        Some(ttl) => now - s.inserted_at > ttl,
        None => false,
    }
}

/// What a read of `key` at `now` returns.
pub open spec fn lookup(m: Map<Seq<char>, Stored>, key: Seq<char>, now: u128) -> Option<Seq<char>> {
    if m.contains_key(key) && !expired(m[key], now) {
        Some(m[key].value)
    } else {
        None
    }
}

/// The contents after a read of `key` at `now`: an expired entry is dropped.
pub open spec fn after_lookup(m: Map<Seq<char>, Stored>, key: Seq<char>, now: u128) -> Map<Seq<char>, Stored> {
    if m.contains_key(key) && expired(m[key], now) {
        m.remove(key)
    } else {
        m
    }
}

/// A text, when present, seen as its characters.
pub open spec fn text_view(r: Option<String>) -> Option<Seq<char>> {
    match r {
        Some(s) => Some(s@),
        None => None,
    }
}

/// A key-value cache with lazy expiry. The entries sit in a vector with
/// unique keys: what vstd states of std's hash map holds only for key types
/// with a proven hashing model, and `String` has none.
pub struct Cache {
    entries: Vec<Entry>,
    contents: Ghost<Map<Seq<char>, Stored>>,
}

impl View for Cache {
    type V = Map<Seq<char>, Stored>;

    closed spec fn view(&self) -> Map<Seq<char>, Stored> {
        self.contents@
    }
}

impl Cache {
    /// Keys are unique among the entries, and the entries are the contents.
    pub closed spec fn wf(&self) -> bool {
        &&& forall|i: int, j: int|
            0 <= i < j < self.entries@.len() ==> #[trigger] self.entries@[i].key@
                != #[trigger] self.entries@[j].key@
        &&& forall|i: int|
            0 <= i < self.entries@.len() ==> self.contents@.contains_key(
                #[trigger] self.entries@[i].key@,
            ) && self.contents@[self.entries@[i].key@] == self.entries@[i].stored()
        &&& forall|k: Seq<char>|
            #[trigger] self.contents@.contains_key(k) ==> exists|i: int|
                0 <= i < self.entries@.len() && #[trigger] self.entries@[i].key@ == k
    }

    /// An empty cache.
    pub fn new() -> (r: Cache)
        ensures
            r.wf(),
            r@ == Map::<Seq<char>, Stored>::empty(),
    {
        Cache { entries: Vec::new(), contents: Ghost(Map::empty()) }
    }

    /// The index of the entry under `key`, if any.
    fn find(&self, key: &String) -> (r: Option<usize>)
        requires
            self.wf(),
        ensures
            match r {
                Some(i) => i < self.entries@.len() && self.entries@[i as int].key@ == key@,
                None => !self@.contains_key(key@),
            },
    {
        let mut i: usize = 0;
        while i < self.entries.len()
            invariant
                self.wf(),
                0 <= i <= self.entries@.len(),
                forall|j: int| 0 <= j < i ==> self.entries@[j].key@ != key@,
            decreases self.entries.len() - i,
        {
            if self.entries[i].key == *key {
                return Some(i);
            }
            i = i + 1;
        }
        None
    }

    /// Reads `key` at time `now` (milliseconds): the value, unless the key is
    /// absent or its entry has expired, in which case the entry is dropped.
    pub fn get_at(&mut self, key: &str, now: u128) -> (r: Option<String>)
        requires
            old(self).wf(),
        ensures
            final(self).wf(),
            text_view(r) == lookup(old(self)@, key@, now),
            final(self)@ == after_lookup(old(self)@, key@, now),
    {
        let k = String::from_str(key);
        match self.find(&k) {
            None => None,
            Some(i) => {
                let ghost m = self@;
                proof {
                    assert(m.contains_key(k@));
                    assert(m[k@] == self.entries@[i as int].stored());
                }
                let expired = match self.entries[i].ttl {
                    Some(ttl) => now > self.entries[i].inserted_at && now - self.entries[i].inserted_at
                        > ttl as u128,
                    None => false,
                };
                if expired {
                    let ghost old_entries = self.entries@;
                    self.entries.remove(i);
                    self.contents = Ghost(m.remove(k@));
                    proof {
                        assert forall|j: int| 0 <= j < self.entries@.len() implies #[trigger] self.entries@[j]
                            == old_entries[if j < i { j } else { j + 1 }] by {}
                        assert forall|kk: Seq<char>| #[trigger] self.contents@.contains_key(kk) implies exists|j: int|
                            0 <= j < self.entries@.len() && #[trigger] self.entries@[j].key@ == kk by {
                            let j0 = choose|j: int| 0 <= j < old_entries.len() && #[trigger] old_entries[j].key@ == kk;
                            assert(j0 != i);
                            if j0 < i {
                                assert(self.entries@[j0].key@ == kk);
                            } else {
                                assert(self.entries@[j0 - 1].key@ == kk);
                            }
                        }
                    }
                    None
                } else {
                    Some(self.entries[i].value.clone())
                }
            },
        }
    }

    /// Stores `value` under `key` at time `now` (milliseconds), with an
    /// optional lifetime; what was under `key` before is replaced whole.
    pub fn set_at(&mut self, key: String, value: String, ttl: Option<u64>, now: u128)
        requires
            old(self).wf(),
        ensures
            final(self).wf(),
            final(self)@ == old(self)@.insert(
                key@,
                Stored { value: value@, ttl: ttl, inserted_at: now },
            ),
    {
        let ghost m = self@;
        let ghost kv = key@;
        let ghost s = Stored { value: value@, ttl: ttl, inserted_at: now };
        match self.find(&key) {
            Some(i) => {
                let ghost old_entries = self.entries@;
                let entry = Entry { key, value, ttl, inserted_at: now };
                self.entries.set(i, entry);
                self.contents = Ghost(m.insert(kv, s));
                proof {
                    assert forall|kk: Seq<char>| #[trigger] self.contents@.contains_key(kk) implies exists|j: int|
                        0 <= j < self.entries@.len() && #[trigger] self.entries@[j].key@ == kk by {
                        if kk != kv {
                            let j0 = choose|j: int| 0 <= j < old_entries.len() && #[trigger] old_entries[j].key@ == kk;
                            assert(self.entries@[j0].key@ == kk);
                        } else {
                            assert(self.entries@[i as int].key@ == kk);
                        }
                    }
                }
            },
            None => {
                let ghost old_entries = self.entries@;
                let entry = Entry { key, value, ttl, inserted_at: now };
                self.entries.push(entry);
                self.contents = Ghost(m.insert(kv, s));
                proof {
                    let n = self.entries@.len() - 1;
                    assert(self.entries@[n].key@ == kv);
                    assert forall|kk: Seq<char>| #[trigger] self.contents@.contains_key(kk) implies exists|j: int|
                        0 <= j < self.entries@.len() && #[trigger] self.entries@[j].key@ == kk by {
                        if kk != kv {
                            assert(m.contains_key(kk));
                            let j0 = choose|j: int| 0 <= j < old_entries.len() && #[trigger] old_entries[j].key@ == kk;
                            assert(self.entries@[j0] == old_entries[j0]);
                        } else {
                            assert(self.entries@[n].key@ == kk);
                        }
                    }
                }
            },
        }
    }

    /// Reads `key` now: the value, unless the key is absent or its entry has
    /// expired, in which case the entry is dropped.
    pub fn get(&mut self, key: &str) -> (r: Option<String>)
        requires
            old(self).wf(),
        ensures
            final(self).wf(),
            exists|t: u128|
                text_view(r) == lookup(old(self)@, key@, t) && final(self)@ == after_lookup(
                    old(self)@,
                    key@,
                    t,
                ),
    {
        let t = now();
        self.get_at(key, t)
    }

    /// Stores `value` under `key` now, with an optional lifetime in
    /// milliseconds; what was under `key` before is replaced whole.
    pub fn set(&mut self, key: String, value: String, ttl: Option<u64>)
        requires
            old(self).wf(),
        ensures
            final(self).wf(),
            exists|t: u128|
                final(self)@ == old(self)@.insert(
                    key@,
                    Stored { value: value@, ttl: ttl, inserted_at: t },
                ),
    {
        let t = now();
        self.set_at(key, value, ttl, t);
    }
}

} // verus!
