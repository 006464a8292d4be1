//! A map from text keys to values, kept in key order.
use vstd::prelude::*;
use crate::text;

verus! {

/// Entries in strictly ascending key order, so no key occurs twice.
#[derive(Debug, Clone, PartialEq, Eq)]
pub struct KeyMap<V> {
    pub entries: Vec<(String, V)>,
}

/// Each key sorts after the ones before it.
pub open spec fn ascending<V>(entries: Seq<(String, V)>) -> bool {
    forall|i: int, j: int|
        0 <= i < j < entries.len() ==> text::key_lt(#[trigger] entries[i].0@, #[trigger] entries[j].0@)
}

/// `key` is the key of some entry.
pub open spec fn has_key<V>(entries: Seq<(String, V)>, key: Seq<char>) -> bool {
    exists|i: int| 0 <= i < entries.len() && (#[trigger] entries[i]).0@ == key
}

/// The place of the entry with `key`.
pub open spec fn place_of<V>(entries: Seq<(String, V)>, key: Seq<char>) -> int {
    choose|i: int| 0 <= i < entries.len() && (#[trigger] entries[i]).0@ == key
}

impl<V> View for KeyMap<V> {
    type V = Map<Seq<char>, V>;

    open spec fn view(&self) -> Map<Seq<char>, V> {
        Map::new(
            |key: Seq<char>| has_key(self.entries@, key),
            |key: Seq<char>| self.entries@[place_of(self.entries@, key)].1,
        )
    }
}

impl<V> KeyMap<V> {
    /// The keys are strictly ascending.
    pub open spec fn wf(&self) -> bool {
        ascending(self.entries@)
    }

    /// A map without entries.
    pub fn new() -> (m: Self)
        ensures
            m.wf(),
            m@ == Map::<Seq<char>, V>::empty(),
            m.entries@.len() == 0,
    {
        let m = KeyMap { entries: Vec::new() };
        assert(m@ =~= Map::<Seq<char>, V>::empty());
        m
    }

    /// The number of entries.
    pub fn len(&self) -> (n: usize)
        ensures
            n == self.entries@.len(),
    {
        self.entries.len()
    }

    /// Where `key` stands, or would stand: the number of smaller keys.
    fn place(&self, key: &str) -> (at: usize)
        requires
            self.wf(),
        ensures
            at <= self.entries@.len(),
            forall|i: int| 0 <= i < at ==> text::key_lt((#[trigger] self.entries@[i]).0@, key@),
            forall|i: int|
                at <= i < self.entries@.len() ==> text::key_le(key@, (#[trigger] self.entries@[i]).0@),
    {
        let mut lo: usize = 0;
        let mut hi: usize = self.entries.len();
        while lo < hi
            invariant
                self.wf(),
                lo <= hi <= self.entries@.len(),
                forall|i: int| 0 <= i < lo ==> text::key_lt((#[trigger] self.entries@[i]).0@, key@),
                forall|i: int|
                    hi <= i < self.entries@.len() ==> text::key_le(
                        key@,
                        (#[trigger] self.entries@[i]).0@,
                    ),
            decreases hi - lo,
        {
            let mid: usize = lo + (hi - lo) / 2;
            let ghost m = self.entries@[mid as int].0@;
            if text::sorts_before(self.entries[mid].0.as_str(), key) {
                assert forall|i: int| 0 <= i < mid + 1 implies text::key_lt(
                    (#[trigger] self.entries@[i]).0@,
                    key@,
                ) by {
                    if i < mid {
                        text::key_lt_transitive(self.entries@[i].0@, m, key@);
                    }
                }
                lo = mid + 1;
            } else {
                proof {
                    text::key_not_lt(m, key@);
                }
                assert forall|i: int| mid <= i < self.entries@.len() implies text::key_le(
                    key@,
                    (#[trigger] self.entries@[i]).0@,
                ) by {
                    if i > mid && text::key_lt(key@, m) {
                        text::key_lt_transitive(key@, m, self.entries@[i].0@);
                    }
                }
                hi = mid;
            }
        }
        lo
    }

    /// The value under `key`.
    pub fn get(&self, key: &str) -> (r: Option<&V>)
        requires
            self.wf(),
        ensures
            r is Some <==> self@.contains_key(key@),
            r is Some ==> *r->0 == self@[key@],
    {
        let at = self.place(key);
        proof {
            self.lemma_place(key@, at as int);
        }
        if at < self.entries.len() && text::same(self.entries[at].0.as_str(), key) {
            Some(&self.entries[at].1)
        } else {
            None
        }
    }

    /// With every smaller key before `at` and none after, `key` can only stand
    /// at `at`.
    proof fn lemma_place(&self, key: Seq<char>, at: int)
        requires
            self.wf(),
            0 <= at <= self.entries@.len(),
            forall|i: int| 0 <= i < at ==> text::key_lt((#[trigger] self.entries@[i]).0@, key),
            forall|i: int|
                at <= i < self.entries@.len() ==> text::key_le(key, (#[trigger] self.entries@[i]).0@),
        ensures
            forall|i: int|
                0 <= i < self.entries@.len() && (#[trigger] self.entries@[i]).0@ == key ==> i == at,
            has_key(self.entries@, key) <==> at < self.entries@.len() && self.entries@[at].0@
                == key,
            has_key(self.entries@, key) ==> place_of(self.entries@, key) == at,
    {
        text::key_lt_irreflexive(key);
        assert forall|i: int|
            0 <= i < self.entries@.len() && (#[trigger] self.entries@[i]).0@ == key implies i
            == at by {
            if i > at {
                assert(text::key_lt(self.entries@[at].0@, self.entries@[i].0@));
                text::key_not_lt(self.entries@[at].0@, key);
                if text::key_lt(key, self.entries@[at].0@) {
                    text::key_lt_transitive(key, self.entries@[at].0@, key);
                }
            }
        }
    }

    /// Put `value` under `key`, in place of what was there.
    pub fn insert(&mut self, key: String, value: V)
        requires
            old(self).wf(),
        ensures
            final(self).wf(),
            final(self)@ == old(self)@.insert(key@, value),
            old(self).entries@.len() <= final(self).entries@.len() <= old(self).entries@.len() + 1,
    {
        let at = self.place(key.as_str());
        let ghost before = *self;
        let ghost k = key@;
        proof {
            self.lemma_place(k, at as int);
        }
        if at < self.entries.len() && text::same(
            self.entries[at].0.as_str(),
            key.as_str(),
        ) {
            self.entries[at] = (key, value);
            assert(self.entries@ == before.entries@.update(at as int, (key, value)));
            assert forall|i: int| 0 <= i < self.entries@.len() implies (#[trigger] self.entries@[i]).0@
                == before.entries@[i].0@ by {}
            assert(ascending(self.entries@)) by {
                assert forall|i: int, j: int| 0 <= i < j < self.entries@.len() implies text::key_lt(
                    #[trigger] self.entries@[i].0@,
                    #[trigger] self.entries@[j].0@,
                ) by {
                    assert(text::key_lt(before.entries@[i].0@, before.entries@[j].0@));
                }
            }
            assert forall|other: Seq<char>|
                has_key(self.entries@, other) <==> has_key(before.entries@, other) by {
                if has_key(self.entries@, other) {
                    let i = place_of(self.entries@, other);
                    assert(before.entries@[i].0@ == other);
                }
                if has_key(before.entries@, other) {
                    let i = place_of(before.entries@, other);
                    assert(self.entries@[i].0@ == other);
                }
            }
            assert forall|other: Seq<char>| #[trigger] has_key(self.entries@, other) implies self@[other]
                == before@.insert(k, value)[other] by {
                let i = place_of(self.entries@, other);
                let j = place_of(before.entries@, other);
                assert(has_key(before.entries@, other));
                lemma_unique(before.entries@, i, j);
            }
            assert(self@ =~= before@.insert(k, value));
        } else {
            self.entries.insert(at, (key, value));
            assert(self.entries@ == before.entries@.insert(at as int, (key, value)));
            assert(ascending(self.entries@)) by {
                assert forall|i: int, j: int| 0 <= i < j < self.entries@.len() implies text::key_lt(
                    #[trigger] self.entries@[i].0@,
                    #[trigger] self.entries@[j].0@,
                ) by {
                    let oi = if i < at { i } else { i - 1 };
                    let oj = if j < at { j } else { j - 1 };
                    if i != at && j != at {
                        assert(text::key_lt(before.entries@[oi].0@, before.entries@[oj].0@));
                    } else if i == at {
                        assert(text::key_le(k, before.entries@[oj].0@));
                    }
                }
            }
            assert forall|other: Seq<char>|
                has_key(self.entries@, other) <==> (has_key(before.entries@, other) || other
                    == k) by {
                if has_key(self.entries@, other) {
                    let i = place_of(self.entries@, other);
                    if i < at {
                        assert(before.entries@[i].0@ == other);
                    } else if i > at {
                        assert(before.entries@[i - 1].0@ == other);
                    }
                }
                if has_key(before.entries@, other) {
                    let i = place_of(before.entries@, other);
                    if i < at {
                        assert(self.entries@[i].0@ == other);
                    } else {
                        assert(self.entries@[i + 1].0@ == other);
                    }
                }
                if other == k {
                    assert(self.entries@[at as int].0@ == other);
                }
            }
            assert forall|other: Seq<char>| #[trigger] has_key(self.entries@, other) implies self@[other]
                == before@.insert(k, value)[other] by {
                let i = place_of(self.entries@, other);
                if other == k {
                    assert(self.entries@[at as int].0@ == k);
                    lemma_unique(self.entries@, i, at as int);
                } else {
                    let j = place_of(before.entries@, other);
                    assert(has_key(before.entries@, other));
                    let jj = if j < at { j } else { j + 1 };
                    assert(self.entries@[jj].0@ == other);
                    lemma_unique(self.entries@, i, jj);
                }
            }
            assert(self@ =~= before@.insert(k, value));
        }
    }
}

/// In strictly ascending entries a key has one place.
proof fn lemma_unique<V>(entries: Seq<(String, V)>, i: int, j: int)
    requires
        ascending(entries),
        0 <= i < entries.len(),
        0 <= j < entries.len(),
        entries[i].0@ == entries[j].0@,
    ensures
        i == j,
{
    text::key_lt_irreflexive(entries[i].0@);
}

/// A copy of a map from text to text.
pub fn copy_of(m: &KeyMap<String>) -> (r: KeyMap<String>)
    ensures
        r.entries@ == m.entries@,
        m.wf() ==> r.wf(),
{
    let mut entries: Vec<(String, String)> = Vec::new();
    let mut i: usize = 0;
    while i < m.entries.len()
        invariant
            0 <= i <= m.entries@.len(),
            entries@ == m.entries@.take(i as int),
        decreases m.entries@.len() - i,
    {
        entries.push((m.entries[i].0.clone(), m.entries[i].1.clone()));
        assert(m.entries@.take(i + 1) =~= m.entries@.take(i as int).push(m.entries@[i as int]));
        i = i + 1;
    }
    assert(entries@ =~= m.entries@);
    KeyMap { entries }
}

/// The map holds its entries and nothing else: each entry's key has the entry's
/// value, and each key is some entry's.
pub proof fn the_entries_are_the_map<V>(m: KeyMap<V>, i: int, key: Seq<char>)
    requires
        m.wf(),
    ensures
        0 <= i < m.entries@.len() ==> m@.contains_key(m.entries@[i].0@) && m@[m.entries@[i].0@]
            == m.entries@[i].1,
        m@.contains_key(key) ==> exists|j: int|
            0 <= j < m.entries@.len() && (#[trigger] m.entries@[j]).0@ == key && m@[key]
                == m.entries@[j].1,
{
    if 0 <= i < m.entries@.len() {
        let k = m.entries@[i].0@;
        assert(has_key(m.entries@, k));
        let j = place_of(m.entries@, k);
        assert(0 <= j < m.entries@.len() && m.entries@[j].0@ == k);
        text::key_lt_irreflexive(k);
        if j < i {
            assert(text::key_lt(m.entries@[j].0@, m.entries@[i].0@));
        }
        if i < j {
            assert(text::key_lt(m.entries@[i].0@, m.entries@[j].0@));
        }
    }
    if m@.contains_key(key) {
        let j = place_of(m.entries@, key);
        assert(m.entries@[j].0@ == key);
    }
}

} // verus!
