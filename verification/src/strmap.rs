//! A map keyed by strings that keeps its keys in ascending order, as the
//! configuration's collection and context tables require: iteration visits
//! keys in the order of their bytes, which for UTF-8 text is the order of
//! their characters' code points.
use vstd::prelude::*;

use crate::text::chars_of;

verus! {

/// Lexicographic order on character sequences from position `i` on.
pub open spec fn lex_lt_from(a: Seq<char>, b: Seq<char>, i: int) -> bool
    decreases a.len() - i,
{
    if i < 0 {
        false
    } else if i >= a.len() {
        i < b.len()
    } else if i >= b.len() {
        false
    } else if a[i] != b[i] {
        a[i] < b[i]
    } else {
        lex_lt_from(a, b, i + 1)
    }
}

/// `a < b` in the order in which `String` compares: lexicographic on code points.
pub open spec fn lex_lt(a: Seq<char>, b: Seq<char>) -> bool {
    lex_lt_from(a, b, 0)
}

pub proof fn lemma_lex_irreflexive(a: Seq<char>, i: int)
    requires
        0 <= i,
    ensures
        !lex_lt_from(a, a, i),
    decreases a.len() - i,
{
    if i < a.len() {
        lemma_lex_irreflexive(a, i + 1);
    }
}

pub proof fn lemma_lex_transitive(a: Seq<char>, b: Seq<char>, c: Seq<char>, i: int)
    requires
        0 <= i,
        lex_lt_from(a, b, i),
        lex_lt_from(b, c, i),
    ensures
        lex_lt_from(a, c, i),
    decreases a.len() - i,
{
    if i < a.len() && i < b.len() && i < c.len() && a[i] == b[i] && b[i] == c[i] {
        lemma_lex_transitive(a, b, c, i + 1);
    }
}

/// Compares two strings: `Some(true)` when `a < b`, `Some(false)` when
/// `b < a`, `None` when they are equal.
pub fn compare_chars(a: &Vec<char>, b: &Vec<char>) -> (r: Option<bool>)
    ensures
        r == Some(true) <==> lex_lt(a@, b@),
        r == Some(false) <==> lex_lt(b@, a@),
        r is None <==> a@ == b@,
{
    let mut i: usize = 0;
    while i < a.len() && i < b.len()
        invariant
            i <= a@.len(),
            i <= b@.len(),
            a@.subrange(0, i as int) == b@.subrange(0, i as int),
            lex_lt(a@, b@) == lex_lt_from(a@, b@, i as int),
            lex_lt(b@, a@) == lex_lt_from(b@, a@, i as int),
        decreases a.len() - i,
    {
        if a[i] != b[i] {
            let lt = a[i] < b[i];
            proof {
                if a@ == b@ {
                    assert(false);
                }
            }
            return Some(lt);
        }
        proof {
            assert(a@.subrange(0, i + 1) == a@.subrange(0, i as int).push(a@[i as int]));
            assert(b@.subrange(0, i + 1) == b@.subrange(0, i as int).push(b@[i as int]));
        }
        i += 1;
    }
    if a.len() == b.len() {
        proof {
            assert(a@ == a@.subrange(0, i as int));
            assert(b@ == b@.subrange(0, i as int));
            lemma_lex_irreflexive(a@, 0);
        }
        None
    } else {
        proof {
            if a@ == b@ {
                assert(false);
            }
        }
        Some(a.len() < b.len())
    }
}

/// Whether the keys are in strictly ascending order.
pub open spec fn keys_sorted(keys: Seq<Seq<char>>) -> bool {
    forall|i: int, j: int| 0 <= i < j < keys.len() ==> lex_lt(#[trigger] keys[i], #[trigger] keys[j])
}

/// The number of keys less than `k`, which is where `k` goes in sorted keys.
pub open spec fn rank(keys: Seq<Seq<char>>, k: Seq<char>) -> int
    decreases keys.len(),
{
    if keys.len() == 0 {
        0
    } else if lex_lt(keys[0], k) {
        1 + rank(keys.drop_first(), k)
    } else {
        0
    }
}

/// A map from strings to values, its entries kept in ascending key order.
pub struct StrMap<V> {
    entries: Vec<(String, V)>,
    contents: Ghost<Map<Seq<char>, V>>,
}

impl<V> StrMap<V> {
    /// The keys, in ascending order.
    pub closed spec fn keys(&self) -> Seq<Seq<char>> {
        self.entries@.map_values(|e: (String, V)| e.0@)
    }

    /// The values, in the order of their keys.
    pub closed spec fn values(&self) -> Seq<V> {
        self.entries@.map_values(|e: (String, V)| e.1)
    }

    /// What the map holds.
    pub closed spec fn contents(&self) -> Map<Seq<char>, V> {
        self.contents@
    }

    /// Keys ascend, and the entries describe exactly what the map holds.
    #[verifier::type_invariant]
    pub closed spec fn well_formed(&self) -> bool {
        &&& keys_sorted(self.keys())
        &&& forall|i: int|
            0 <= i < self.keys().len() ==> #[trigger] self.contents@.contains_key(self.keys()[i])
                && self.contents@[self.keys()[i]] == self.values()[i]
        &&& forall|k: Seq<char>| #[trigger]
            self.contents@.contains_key(k) ==> exists|i: int| 0 <= i < self.keys().len() && self.keys()[i] == k
    }

    /// The facts that hold of every map: keys ascend, and the key sequence
    /// and the value sequence describe exactly what the map holds.
    pub proof fn lemma_well_formed(&self)
        requires
            self.well_formed(),
        ensures
            keys_sorted(self.keys()),
            self.keys().len() == self.values().len(),
            forall|i: int|
                0 <= i < self.keys().len() ==> #[trigger] self@.contains_key(self.keys()[i])
                    && self@[self.keys()[i]] == self.values()[i],
            forall|k: Seq<char>| #[trigger]
                self@.contains_key(k) <==> self.keys().contains(k),
    {
        assert forall|i: int| 0 <= i < self.keys().len() implies #[trigger] self@.contains_key(self.keys()[i])
            && self@[self.keys()[i]] == self.values()[i] by {
            assert(self.contents@.contains_key(self.keys()[i]));
        }
        assert forall|k: Seq<char>| #[trigger] self@.contains_key(k) <==> self.keys().contains(k) by {
            if self.keys().contains(k) {
                let i = choose|i: int| 0 <= i < self.keys().len() && self.keys()[i] == k;
                assert(self.contents@.contains_key(self.keys()[i]));
            }
        }
    }

    /// An empty map.
    pub fn new() -> (m: Self)
        ensures
            m@ == Map::<Seq<char>, V>::empty(),
            m.keys() == Seq::<Seq<char>>::empty(),
    {
        let m = StrMap { entries: Vec::new(), contents: Ghost(Map::empty()) };
        proof {
            assert(m.keys() == Seq::<Seq<char>>::empty());
        }
        m
    }

    /// The number of entries.
    pub fn len(&self) -> (n: usize)
        ensures
            n == self.keys().len(),
            n == self@.len(),
    {
        proof {
            use_type_invariant(self);
            self.lemma_well_formed();
            lemma_distinct_keys_len(self.keys(), self@);
        }
        self.entries.len()
    }

    /// The key at position `i` in ascending order.
    pub fn key_at(&self, i: usize) -> (k: &String)
        requires
            i < self.keys().len(),
        ensures
            k@ == self.keys()[i as int],
    {
        &self.entries[i].0
    }

    /// The value at position `i` in ascending key order.
    pub fn value_at(&self, i: usize) -> (v: &V)
        requires
            i < self.keys().len(),
        ensures
            *v == self.values()[i as int],
    {
        &self.entries[i].1
    }

    /// Where `key` is, or where it would go.
    fn locate(&self, key: &Vec<char>) -> (r: (usize, bool))
        ensures
            r.0 <= self.keys().len(),
            r.0 == rank(self.keys(), key@),
            r.1 <==> (r.0 < self.keys().len() && self.keys()[r.0 as int] == key@),
            forall|i: int| 0 <= i < r.0 ==> lex_lt(#[trigger] self.keys()[i], key@),
            forall|i: int| r.0 <= i < self.keys().len() && !(r.1 && i == r.0) ==> lex_lt(
                key@,
                #[trigger] self.keys()[i],
            ),
    {
        proof {
            use_type_invariant(self);
        }
        let mut i: usize = 0;
        proof {
            assert(self.keys().subrange(0, self.keys().len() as int) == self.keys());
        }
        while i < self.entries.len()
            invariant
                i <= self.keys().len(),
                self.keys().len() == self.entries@.len(),
                keys_sorted(self.keys()),
                forall|j: int| 0 <= j < i ==> lex_lt(#[trigger] self.keys()[j], key@),
                rank(self.keys(), key@) == i + rank(self.keys().subrange(i as int, self.keys().len() as int), key@),
            decreases self.entries.len() - i,
        {
            let k = chars_of(self.entries[i].0.as_str());
            let c = compare_chars(&k, key);
            let ghost rest = self.keys().subrange(i as int, self.keys().len() as int);
            assert(rest[0] == k@);
            if c != Some(true) {
                proof {
                    assert(rank(rest, key@) == 0);
                    let found = c is None;
                    assert forall|j: int| i <= j < self.keys().len() && !(found && j == i) implies lex_lt(
                        key@,
                        #[trigger] self.keys()[j],
                    ) by {
                        if j == i {
                            assert(c == Some(false));
                        } else {
                            assert(lex_lt(self.keys()[i as int], self.keys()[j]));
                            if c is None {
                                assert(k@ == key@);
                            } else {
                                assert(c == Some(false));
                                assert(lex_lt(key@, k@));
                                lemma_lex_transitive(key@, k@, self.keys()[j], 0);
                            }
                        }
                    }
                }
                return (i, c.is_none());
            }
            proof {
                assert(rest.drop_first() == self.keys().subrange(i + 1, self.keys().len() as int));
            }
            i += 1;
        }
        proof {
            assert(self.keys().subrange(i as int, self.keys().len() as int).len() == 0);
        }
        (i, false)
    }

    /// Whether the map has an entry for `key`.
    pub fn contains_key(&self, key: &str) -> (r: bool)
        ensures
            r == self@.contains_key(key@),
    {
        proof {
            use_type_invariant(self);
            self.lemma_well_formed();
        }
        let k = chars_of(key);
        let (pos, found) = self.locate(&k);
        proof {
            if !found && self@.contains_key(key@) {
                let i = choose|i: int| 0 <= i < self.keys().len() && self.keys()[i] == key@;
                if i < pos {
                    lemma_lex_irreflexive(key@, 0);
                } else {
                    lemma_lex_irreflexive(key@, 0);
                }
            }
        }
        found
    }

    /// The value for `key`, if any.
    pub fn get(&self, key: &str) -> (r: Option<&V>)
        ensures
            r matches Some(v) ==> self@.contains_key(key@) && *v == self@[key@],
            r is None ==> !self@.contains_key(key@),
    {
        proof {
            use_type_invariant(self);
            self.lemma_well_formed();
        }
        let k = chars_of(key);
        let (pos, found) = self.locate(&k);
        if found {
            proof {
                assert(self.values()[pos as int] == self.entries@[pos as int].1);
                assert(self@.contains_key(self.keys()[pos as int]));
            }
            Some(&self.entries[pos].1)
        } else {
            proof {
                if self@.contains_key(key@) {
                    let i = choose|i: int| 0 <= i < self.keys().len() && self.keys()[i] == key@;
                    lemma_lex_irreflexive(key@, 0);
                }
            }
            None
        }
    }

    /// Sets the value for `key`, keeping the keys in order; gives back the
    /// value it replaces.
    pub fn insert(&mut self, key: String, value: V) -> (old_value: Option<V>)
        ensures
            final(self)@ == old(self)@.insert(key@, value),
            old_value matches Some(v) ==> old(self)@.contains_key(key@) && v == old(self)@[key@],
            old_value is None ==> !old(self)@.contains_key(key@),
            final(self).keys() == (if old(self)@.contains_key(key@) {
                old(self).keys()
            } else {
                old(self).keys().insert(rank(old(self).keys(), key@), key@)
            }),
    {
        proof {
            use_type_invariant(&*self);
            self.lemma_well_formed();
        }
        let k = chars_of(key.as_str());
        let (pos, found) = self.locate(&k);
        let ghost old_keys = self.keys();
        let ghost old_values = self.values();
        let ghost old_map = self.contents@;
        let ghost new_map = old_map.insert(key@, value);
        if found {
            let mut whole = StrMap::new();
        std::mem::swap(&mut whole, self);
        let StrMap { mut entries, contents: _ } = whole;
            let (_, previous) = entries.remove(pos);
            entries.insert(pos, (key, value));
            proof {
                assert(old_map.contains_key(old_keys[pos as int]));
                assert(previous == old_values[pos as int]);
                assert(entries@.map_values(|e: (String, V)| e.0@) =~= old_keys);
                assert(entries@.map_values(|e: (String, V)| e.1) =~= old_values.update(pos as int, value));
                assert forall|k2: Seq<char>| #[trigger] new_map.contains_key(k2) implies exists|i: int|
                    0 <= i < old_keys.len() && old_keys[i] == k2 by {
                    if k2 != key@ {
                        assert(old_map.contains_key(k2));
                    } else {
                        assert(old_keys[pos as int] == k2);
                    }
                }
                assert forall|i: int| 0 <= i < old_keys.len() implies #[trigger] new_map.contains_key(old_keys[i])
                    && new_map[old_keys[i]] == old_values.update(pos as int, value)[i] by {
                    assert(old_map.contains_key(old_keys[i]));
                    if i != pos {
                        assert(old_keys[i] != old_keys[pos as int]) by {
                            if i < pos {
                                assert(lex_lt(old_keys[i], old_keys[pos as int]));
                            } else {
                                assert(lex_lt(old_keys[pos as int], old_keys[i]));
                            }
                            lemma_lex_irreflexive(old_keys[i], 0);
                        }
                    }
                }
            }
            *self = StrMap { entries, contents: Ghost(new_map) };
            Some(previous)
        } else {
            let mut whole = StrMap::new();
        std::mem::swap(&mut whole, self);
        let StrMap { mut entries, contents: _ } = whole;
            entries.insert(pos, (key, value));
            let ghost new_keys = old_keys.insert(pos as int, key@);
            let ghost new_values = old_values.insert(pos as int, value);
            proof {
                assert(entries@.map_values(|e: (String, V)| e.0@) =~= new_keys);
                assert(entries@.map_values(|e: (String, V)| e.1) =~= new_values);
                assert forall|i: int, j: int| 0 <= i < j < new_keys.len() implies lex_lt(
                    #[trigger] new_keys[i],
                    #[trigger] new_keys[j],
                ) by {
                    if j < pos {
                    } else if j == pos {
                    } else if i < pos {
                        assert(lex_lt(old_keys[i], key@));
                        assert(lex_lt(key@, old_keys[j - 1]));
                        lemma_lex_transitive(old_keys[i], key@, old_keys[j - 1], 0);
                    } else if i == pos {
                    } else {
                        assert(lex_lt(old_keys[i - 1], old_keys[j - 1]));
                    }
                }
                assert forall|k2: Seq<char>| #[trigger] new_map.contains_key(k2) implies exists|i: int|
                    0 <= i < new_keys.len() && new_keys[i] == k2 by {
                    if k2 != key@ {
                        assert(old_map.contains_key(k2));
                        let i = choose|i: int| 0 <= i < old_keys.len() && old_keys[i] == k2;
                        if i < pos {
                            assert(new_keys[i] == k2);
                        } else {
                            assert(new_keys[i + 1] == k2);
                        }
                    } else {
                        assert(new_keys[pos as int] == k2);
                    }
                }
                assert forall|i: int| 0 <= i < new_keys.len() implies #[trigger] new_map.contains_key(new_keys[i])
                    && new_map[new_keys[i]] == new_values[i] by {
                    if i < pos {
                        assert(old_map.contains_key(old_keys[i]));
                        assert(new_keys[i] == old_keys[i] && new_values[i] == old_values[i]);
                        assert(lex_lt(old_keys[i], key@));
                        if old_keys[i] == key@ {
                            lemma_lex_irreflexive(key@, 0);
                        }
                    } else if i > pos {
                        assert(old_map.contains_key(old_keys[i - 1]));
                        assert(new_keys[i] == old_keys[i - 1] && new_values[i] == old_values[i - 1]);
                        assert(lex_lt(key@, old_keys[i - 1]));
                        if old_keys[i - 1] == key@ {
                            lemma_lex_irreflexive(key@, 0);
                        }
                    }
                }
                if old_map.contains_key(key@) {
                    let i = choose|i: int| 0 <= i < old_keys.len() && old_keys[i] == key@;
                    lemma_lex_irreflexive(key@, 0);
                }
                let ks = entries@.map_values(|e: (String, V)| e.0@);
                let vs = entries@.map_values(|e: (String, V)| e.1);
                assert(keys_sorted(ks));
                assert(forall|i: int| 0 <= i < ks.len() ==> #[trigger] new_map.contains_key(ks[i])
                    && new_map[ks[i]] == vs[i]);
                assert(forall|k: Seq<char>| #[trigger] new_map.contains_key(k) ==> exists|i: int|
                    0 <= i < ks.len() && ks[i] == k);
            }
            *self = StrMap { entries, contents: Ghost(new_map) };
            None
        }
    }

    /// Removes the entry for `key`, giving back its value.
    pub fn remove(&mut self, key: &str) -> (removed: Option<V>)
        ensures
            final(self)@ == old(self)@.remove(key@),
            removed matches Some(v) ==> old(self)@.contains_key(key@) && v == old(self)@[key@],
            removed is None ==> !old(self)@.contains_key(key@),
            final(self).keys() == (if old(self)@.contains_key(key@) {
                old(self).keys().remove(rank(old(self).keys(), key@))
            } else {
                old(self).keys()
            }),
    {
        proof {
            use_type_invariant(&*self);
            self.lemma_well_formed();
        }
        let k = chars_of(key);
        let (pos, found) = self.locate(&k);
        let ghost old_keys = self.keys();
        let ghost old_values = self.values();
        let ghost old_map = self.contents@;
        let ghost new_map = old_map.remove(key@);
        if !found {
            proof {
                if old_map.contains_key(key@) {
                    let i = choose|i: int| 0 <= i < old_keys.len() && old_keys[i] == key@;
                    lemma_lex_irreflexive(key@, 0);
                }
                assert(new_map =~= old_map);
            }
            return None;
        }
        let mut whole = StrMap::new();
        std::mem::swap(&mut whole, self);
        let StrMap { mut entries, contents: _ } = whole;
        let (_, previous) = entries.remove(pos);
        let ghost new_keys = old_keys.remove(pos as int);
        let ghost new_values = old_values.remove(pos as int);
        proof {
            assert(old_map.contains_key(old_keys[pos as int]));
            assert(previous == old_values[pos as int]);
            assert(entries@.map_values(|e: (String, V)| e.0@) =~= new_keys);
            assert(entries@.map_values(|e: (String, V)| e.1) =~= new_values);
            assert forall|i: int, j: int| 0 <= i < j < new_keys.len() implies lex_lt(
                #[trigger] new_keys[i],
                #[trigger] new_keys[j],
            ) by {
                let oi = if i < pos { i } else { i + 1 };
                let oj = if j < pos { j } else { j + 1 };
                assert(lex_lt(old_keys[oi], old_keys[oj]));
            }
            assert forall|k2: Seq<char>| #[trigger] new_map.contains_key(k2) implies exists|i: int|
                0 <= i < new_keys.len() && new_keys[i] == k2 by {
                let i = choose|i: int| 0 <= i < old_keys.len() && old_keys[i] == k2;
                if i < pos {
                    assert(new_keys[i] == k2);
                } else if i > pos {
                    assert(new_keys[i - 1] == k2);
                }
            }
            assert forall|i: int| 0 <= i < new_keys.len() implies #[trigger] new_map.contains_key(new_keys[i])
                && new_map[new_keys[i]] == new_values[i] by {
                let oi = if i < pos { i } else { i + 1 };
                assert(new_keys[i] == old_keys[oi]);
                assert(new_values[i] == old_values[oi]);
                assert(old_map.contains_key(old_keys[oi]));
                if old_keys[oi] == key@ {
                    if oi < pos {
                        assert(lex_lt(old_keys[oi], old_keys[pos as int]));
                    } else {
                        assert(lex_lt(old_keys[pos as int], old_keys[oi]));
                    }
                    lemma_lex_irreflexive(key@, 0);
                }
            }
        }
        *self = StrMap { entries, contents: Ghost(new_map) };
        Some(previous)
    }
}

impl<V> View for StrMap<V> {
    type V = Map<Seq<char>, V>;

    closed spec fn view(&self) -> Map<Seq<char>, V> {
        self.contents@
    }
}

/// Distinct keys that describe a map have as many entries as the map.
proof fn lemma_distinct_keys_len<V>(keys: Seq<Seq<char>>, m: Map<Seq<char>, V>)
    requires
        keys_sorted(keys),
        forall|k: Seq<char>| #[trigger] m.contains_key(k) <==> keys.contains(k),
    ensures
        m.dom().finite(),
        m.len() == keys.len(),
    decreases keys.len(),
{
    if keys.len() == 0 {
        assert(m.dom() =~= Set::<Seq<char>>::empty());
    } else {
        let last = keys.last();
        let rest = keys.drop_last();
        let m2 = m.remove(last);
        assert forall|k: Seq<char>| #[trigger] m2.contains_key(k) <==> rest.contains(k) by {
            if rest.contains(k) {
                let i = choose|i: int| 0 <= i < rest.len() && rest[i] == k;
                assert(lex_lt(keys[i], keys[keys.len() - 1]));
                if k == last {
                    lemma_lex_irreflexive(k, 0);
                }
                assert(keys.contains(k));
            }
            if m2.contains_key(k) {
                assert(keys.contains(k));
                let i = choose|i: int| 0 <= i < keys.len() && keys[i] == k;
                assert(i != keys.len() - 1);
                assert(rest[i] == k);
            }
        }
        assert forall|i: int, j: int| 0 <= i < j < rest.len() implies lex_lt(#[trigger] rest[i], #[trigger] rest[j]) by {
            assert(lex_lt(keys[i], keys[j]));
        }
        lemma_distinct_keys_len(rest, m2);
        assert(keys.contains(last));
        assert(m.contains_key(last));
        assert(m.dom() =~= m2.dom().insert(last));
    }
}

} // verus!
