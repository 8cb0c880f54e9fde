//! A map keyed by text that keeps its entries in the lexical order of their
//! keys.

use crate::text::{lemma_lex_lt_total, lemma_lex_lt_transitive, lex_lt, position, Position};
use vstd::prelude::*;

verus! {

/// The keys stand in strictly ascending lexical order, so none occurs twice.
pub open spec fn keys_ascend<V>(s: Seq<(Seq<char>, V)>) -> bool {
    forall|i: int, j: int|
        #![trigger s[i], s[j]]
        0 <= i < j < s.len() ==> lex_lt(s[i].0, s[j].0)
}

/// Some entry of `s` has the key `key`.
pub open spec fn has_key<V>(s: Seq<(Seq<char>, V)>, key: Seq<char>) -> bool {
    exists|i: int| 0 <= i < s.len() && (#[trigger] s[i]).0 == key
}

/// The place of an entry with the key `key`, where there is one.
pub open spec fn slot_of<V>(s: Seq<(Seq<char>, V)>, key: Seq<char>) -> int {
    choose|i: int| 0 <= i < s.len() && (#[trigger] s[i]).0 == key
}

/// The value that `s` holds for `key`, where it holds one.
pub open spec fn value_of<V>(s: Seq<(Seq<char>, V)>, key: Seq<char>) -> V {
    s[slot_of(s, key)].1
}

/// The entries as a map from key to value.
pub open spec fn as_map<V>(s: Seq<(Seq<char>, V)>) -> Map<Seq<char>, V> {
    Map::new(|k: Seq<char>| has_key(s, k), |k: Seq<char>| value_of(s, k))
}

/// Among ascending keys, a key is found at one place only.
pub proof fn lemma_one_slot<V>(s: Seq<(Seq<char>, V)>, i: int)
    requires
        keys_ascend(s),
        0 <= i < s.len(),
    ensures
        has_key(s, s[i].0),
        slot_of(s, s[i].0) == i,
        value_of(s, s[i].0) == s[i].1,
{
    let j = slot_of(s, s[i].0);
    lemma_lex_lt_total(s[i].0, s[j].0);
    if i < j {
        assert(lex_lt(s[i].0, s[j].0));
    } else if j < i {
        assert(lex_lt(s[j].0, s[i].0));
    }
}

/// Replacing the value at the place of a key is the map's update.
pub proof fn lemma_update_is_insert<V>(s: Seq<(Seq<char>, V)>, i: int, value: V)
    requires
        keys_ascend(s),
        0 <= i < s.len(),
    ensures
        keys_ascend(s.update(i, (s[i].0, value))),
        as_map(s.update(i, (s[i].0, value))) == as_map(s).insert(s[i].0, value),
{
    let key = s[i].0;
    let t = s.update(i, (key, value));
    assert(keys_ascend(t)) by {
        assert forall|a: int, b: int| 0 <= a < b < t.len() implies lex_lt(
            (#[trigger] t[a]).0,
            (#[trigger] t[b]).0,
        ) by {
            assert(t[a].0 == s[a].0 && t[b].0 == s[b].0);
        }
    }
    assert forall|k: Seq<char>| has_key(t, k) <==> (k == key || has_key(s, k)) by {
        if has_key(t, k) {
            let j = slot_of(t, k);
            assert(s[j].0 == k);
        }
        if has_key(s, k) {
            let j = slot_of(s, k);
            assert(t[j].0 == k);
        }
        if k == key {
            assert(t[i].0 == k);
        }
    }
    assert forall|k: Seq<char>| has_key(t, k) implies value_of(t, k) == as_map(s).insert(
        key,
        value,
    )[k] by {
        let j = slot_of(t, k);
        lemma_one_slot(t, j);
        if k != key {
            assert(s[j].0 == k);
            lemma_one_slot(s, j);
        } else {
            lemma_one_slot(t, i);
        }
    }
    assert(as_map(t) =~= as_map(s).insert(key, value));
}

/// A key that stands between two neighbours is held by no entry.
pub proof fn lemma_between<V>(s: Seq<(Seq<char>, V)>, p: int, key: Seq<char>)
    requires
        keys_ascend(s),
        0 <= p <= s.len(),
        forall|j: int| 0 <= j < p ==> lex_lt((#[trigger] s[j]).0, key),
        p < s.len() ==> lex_lt(key, s[p].0),
    ensures
        !has_key(s, key),
        forall|j: int| p <= j < s.len() ==> lex_lt(key, (#[trigger] s[j]).0),
{
    assert forall|j: int| p <= j < s.len() implies lex_lt(key, (#[trigger] s[j]).0) by {
        if p < j {
            assert(lex_lt(s[p].0, s[j].0));
            lemma_lex_lt_transitive(key, s[p].0, s[j].0);
        }
    }
    if has_key(s, key) {
        let j = slot_of(s, key);
        lemma_lex_lt_total(key, key);
    }
}

/// Putting a new key at the place that keeps the order is the map's insert.
pub proof fn lemma_insert_is_insert<V>(s: Seq<(Seq<char>, V)>, p: int, key: Seq<char>, value: V)
    requires
        keys_ascend(s),
        0 <= p <= s.len(),
        forall|j: int| 0 <= j < p ==> lex_lt((#[trigger] s[j]).0, key),
        p < s.len() ==> lex_lt(key, s[p].0),
    ensures
        !has_key(s, key),
        keys_ascend(s.insert(p, (key, value))),
        as_map(s.insert(p, (key, value))) == as_map(s).insert(key, value),
{
    let t = s.insert(p, (key, value));
    lemma_between(s, p, key);
    assert(keys_ascend(t)) by {
        assert forall|a: int, b: int| 0 <= a < b < t.len() implies lex_lt(
            (#[trigger] t[a]).0,
            (#[trigger] t[b]).0,
        ) by {
            if b < p {
                assert(t[a] == s[a] && t[b] == s[b]);
            } else if b == p {
                assert(t[a] == s[a]);
            } else if a < p {
                assert(t[a] == s[a] && t[b] == s[b - 1]);
                lemma_lex_lt_transitive(s[a].0, key, s[b - 1].0);
            } else if a == p {
                assert(t[b] == s[b - 1]);
            } else {
                assert(t[a] == s[a - 1] && t[b] == s[b - 1]);
            }
        }
    }
    assert forall|k: Seq<char>| has_key(t, k) <==> (k == key || has_key(s, k)) by {
        if has_key(t, k) {
            let j = slot_of(t, k);
            if j < p {
                assert(s[j].0 == k);
            } else if j > p {
                assert(s[j - 1].0 == k);
            }
        }
        if has_key(s, k) {
            let j = slot_of(s, k);
            if j < p {
                assert(t[j].0 == k);
            } else {
                assert(t[j + 1].0 == k);
            }
        }
        if k == key {
            assert(t[p].0 == k);
        }
    }
    assert forall|k: Seq<char>| has_key(t, k) implies value_of(t, k) == as_map(s).insert(
        key,
        value,
    )[k] by {
        let j = slot_of(t, k);
        lemma_one_slot(t, j);
        if j < p {
            assert(s[j] == t[j]);
            lemma_one_slot(s, j);
        } else if j > p {
            assert(s[j - 1] == t[j]);
            lemma_one_slot(s, j - 1);
        }
    }
    assert(as_map(t) =~= as_map(s).insert(key, value));
}

/// The entries after the first: they ascend, and they hold what the whole
/// holds but for the first key.
proof fn lemma_tail<V>(s: Seq<(Seq<char>, V)>)
    requires
        keys_ascend(s),
        s.len() > 0,
    ensures
        keys_ascend(s.drop_first()),
        forall|k: Seq<char>| has_key(s.drop_first(), k) <==> (has_key(s, k) && k != s[0].0),
        forall|k: Seq<char>|
            has_key(s.drop_first(), k) ==> value_of(s.drop_first(), k) == value_of(s, k),
{
    let t = s.drop_first();
    assert forall|i: int, j: int| 0 <= i < j < t.len() implies lex_lt(
        (#[trigger] t[i]).0,
        (#[trigger] t[j]).0,
    ) by {
        assert(t[i] == s[i + 1] && t[j] == s[j + 1]);
    }
    assert forall|k: Seq<char>| has_key(t, k) <==> (has_key(s, k) && k != s[0].0) by {
        if has_key(t, k) {
            let j = slot_of(t, k);
            assert(s[j + 1].0 == k);
            assert(lex_lt(s[0].0, s[j + 1].0));
            lemma_lex_lt_total(k, k);
        }
        if has_key(s, k) && k != s[0].0 {
            let j = slot_of(s, k);
            assert(t[j - 1].0 == k);
        }
    }
    assert forall|k: Seq<char>| has_key(t, k) implies value_of(t, k) == value_of(s, k) by {
        let j = slot_of(t, k);
        lemma_one_slot(t, j);
        assert(s[j + 1] == t[j]);
        lemma_one_slot(s, j + 1);
    }
}

/// Ascending entries are determined by the map that they stand for: there is
/// one way only to hold a map in the lexical order of its keys.
pub proof fn lemma_ascending_unique<V>(a: Seq<(Seq<char>, V)>, b: Seq<(Seq<char>, V)>)
    requires
        keys_ascend(a),
        keys_ascend(b),
        as_map(a) == as_map(b),
    ensures
        a == b,
    decreases a.len(),
{
    assert forall|k: Seq<char>| has_key(a, k) == has_key(b, k) by {
        assert(as_map(a).contains_key(k) == has_key(a, k));
        assert(as_map(b).contains_key(k) == has_key(b, k));
    }
    assert forall|k: Seq<char>| has_key(a, k) implies value_of(a, k) == value_of(b, k) by {
        assert(as_map(a).contains_key(k));
        assert(as_map(a)[k] == value_of(a, k));
        assert(as_map(b)[k] == value_of(b, k));
    }
    if a.len() == 0 {
        if b.len() > 0 {
            assert(has_key(b, b[0].0));
        }
        assert(a =~= b);
    } else {
        assert(has_key(a, a[0].0));
        let j = slot_of(b, a[0].0);
        assert(has_key(b, b[0].0));
        let i = slot_of(a, b[0].0);
        lemma_lex_lt_total(a[0].0, b[0].0);
        if j > 0 {
            assert(lex_lt(b[0].0, b[j].0));
            if i > 0 {
                assert(lex_lt(a[0].0, a[i].0));
            }
        }
        assert(a[0].0 == b[0].0);
        lemma_one_slot(a, 0);
        lemma_one_slot(b, 0);
        assert(a[0] == b[0]);
        lemma_tail(a);
        lemma_tail(b);
        let ta = a.drop_first();
        let tb = b.drop_first();
        assert forall|k: Seq<char>| has_key(ta, k) == has_key(tb, k) by {
            assert(has_key(a, k) == has_key(b, k));
        }
        assert forall|k: Seq<char>| has_key(ta, k) implies value_of(ta, k) == value_of(tb, k) by {
            assert(has_key(a, k));
            assert(value_of(a, k) == value_of(b, k));
        }
        assert forall|k: Seq<char>| as_map(ta).contains_key(k) == as_map(tb).contains_key(k) by {
            assert(as_map(ta).contains_key(k) == has_key(ta, k));
            assert(as_map(tb).contains_key(k) == has_key(tb, k));
        }
        assert forall|k: Seq<char>| as_map(ta).contains_key(k) implies as_map(ta)[k] == as_map(
            tb,
        )[k] by {
            assert(has_key(ta, k));
            assert(as_map(ta)[k] == value_of(ta, k));
            assert(as_map(tb)[k] == value_of(tb, k));
        }
        assert(as_map(ta) =~= as_map(tb));
        lemma_ascending_unique(a.drop_first(), b.drop_first());
        assert(a =~= seq![a[0]] + a.drop_first());
        assert(b =~= seq![b[0]] + b.drop_first());
    }
}

/// A map from text to `V`, held as a vector of entries in the lexical order
/// of their keys.
#[derive(Debug)]
pub struct TextMap<V> {
    entries: Vec<(String, V)>,
}

impl<V> View for TextMap<V> {
    type V = Seq<(Seq<char>, V)>;

    closed spec fn view(&self) -> Seq<(Seq<char>, V)> {
        self.entries@.map_values(|e: (String, V)| (e.0@, e.1))
    }
}

impl<V> TextMap<V> {
    /// The invariant of the map: its keys ascend.
    pub open spec fn wf(&self) -> bool {
        keys_ascend(self@)
    }

    /// The map that the entries stand for.
    pub open spec fn map(&self) -> Map<Seq<char>, V> {
        as_map(self@)
    }

    /// A map without entries.
    pub fn new() -> (m: Self)
        ensures
            m@ == Seq::<(Seq<char>, V)>::empty(),
            m.wf(),
    {
        let m = TextMap { entries: Vec::new() };
        assert(m@ =~= Seq::<(Seq<char>, V)>::empty());
        m
    }

    /// The number of entries.
    pub fn len(&self) -> (n: usize)
        ensures
            n == self@.len(),
    {
        self.entries.len()
    }

    /// The key of the entry at place `i`.
    pub fn key_at(&self, i: usize) -> (key: &String)
        requires
            i < self@.len(),
        ensures
            key@ == self@[i as int].0,
    {
        &self.entries[i].0
    }

    /// The value of the entry at place `i`.
    pub fn value_at(&self, i: usize) -> (value: &V)
        requires
            i < self@.len(),
        ensures
            *value == self@[i as int].1,
    {
        &self.entries[i].1
    }

    /// The value of the entry at place `i`, to be changed in place.
    pub fn value_at_mut(&mut self, i: usize) -> (value: &mut V)
        requires
            i < old(self)@.len(),
        ensures
            *value == old(self)@[i as int].1,
            final(self)@ == old(self)@.update(i as int, (old(self)@[i as int].0, *final(value))),
    {
        &mut self.entries[i].1
    }

    /// Looks for `key`: whether an entry holds it, and the place where it
    /// stands or would have to stand.
    pub fn search(&self, key: &str) -> (r: (bool, usize))
        requires
            self.wf(),
        ensures
            r.1 <= self@.len(),
            r.0 == has_key(self@, key@),
            r.0 ==> r.1 < self@.len() && self@[r.1 as int].0 == key@,
            forall|j: int| 0 <= j < r.1 ==> lex_lt((#[trigger] self@[j]).0, key@),
            !r.0 && r.1 < self@.len() ==> lex_lt(key@, self@[r.1 as int].0),
    {
        let mut i: usize = 0;
        while i < self.entries.len()
            invariant
                i <= self.entries.len(),
                self.entries.len() == self@.len(),
                self.wf(),
                forall|j: int| 0 <= j < i ==> lex_lt((#[trigger] self@[j]).0, key@),
            decreases self.entries.len() - i,
        {
            proof {
                crate::text::lemma_position_same(self@[i as int].0, key@);
                crate::text::lemma_position_mirror(self@[i as int].0, key@);
            }
            match position(self.entries[i].0.as_str(), key) {
                Position::Before => {
                    i += 1;
                },
                Position::Same => {
                    assert(self@[i as int].0 == key@);
                    return (true, i);
                },
                Position::After => {
                    proof {
                        lemma_between(self@, i as int, key@);
                    }
                    return (false, i);
                },
            }
        }
        proof {
            lemma_between(self@, i as int, key@);
        }
        (false, i)
    }

    /// Whether an entry holds `key`.
    pub fn contains_key(&self, key: &str) -> (r: bool)
        requires
            self.wf(),
        ensures
            r == self.map().contains_key(key@),
    {
        self.search(key).0
    }

    /// The value held for `key`, if there is one.
    pub fn get(&self, key: &str) -> (r: Option<&V>)
        requires
            self.wf(),
        ensures
            match r {
                Some(value) => self.map().contains_key(key@) && *value == self.map()[key@],
                None => !self.map().contains_key(key@),
            },
    {
        let (found, at) = self.search(key);
        if found {
            proof {
                lemma_one_slot(self@, at as int);
            }
            Some(&self.entries[at].1)
        } else {
            None
        }
    }

    /// Puts a new entry at place `at`, where the order asks for it.
    pub fn insert_at(&mut self, at: usize, key: String, value: V)
        requires
            old(self).wf(),
            at <= old(self)@.len(),
            forall|j: int| 0 <= j < at ==> lex_lt((#[trigger] old(self)@[j]).0, key@),
            at < old(self)@.len() ==> lex_lt(key@, old(self)@[at as int].0),
        ensures
            final(self).wf(),
            final(self)@ == old(self)@.insert(at as int, (key@, value)),
            final(self).map() == old(self).map().insert(key@, value),
    {
        proof {
            lemma_insert_is_insert(self@, at as int, key@, value);
        }
        let ghost before = self@;
        self.entries.insert(at, (key, value));
        assert(self@ =~= before.insert(at as int, (key@, value)));
    }

    /// Gives `key` the value `value`, in place of what it had, if anything.
    pub fn insert(&mut self, key: String, value: V)
        requires
            old(self).wf(),
        ensures
            final(self).wf(),
            final(self).map() == old(self).map().insert(key@, value),
            final(self)@.len() == old(self)@.len() + if old(self).map().contains_key(key@) {
                0int
            } else {
                1int
            },
    {
        let (found, at) = self.search(key.as_str());
        if found {
            proof {
                lemma_update_is_insert(self@, at as int, value);
            }
            let ghost before = self@;
            self.entries.set(at, (key, value));
            assert(self@ =~= before.update(at as int, (key@, value)));
        } else {
            self.insert_at(at, key, value);
        }
    }
}

} // verus!
