use vstd::prelude::*;
use crate::text::{chars_less, chars_of, order_chars, KeyOrder, lemma_chars_less_irreflexive,
    lemma_chars_less_transitive};

verus! {

// ---------------------------------------------------------------------------
// Entry sequences: the model of a map kept in key order
// ---------------------------------------------------------------------------

/// The keys of `s` increase strictly (so no key occurs twice).
pub open spec fn keys_ordered<V>(s: Seq<(Seq<char>, V)>) -> bool {
    forall|i: int, j: int| 0 <= i < j < s.len() ==> chars_less(#[trigger] s[i].0, #[trigger] s[j].0)
}

/// Some entry of `s` has the key `k`.
pub open spec fn has_key<V>(s: Seq<(Seq<char>, V)>, k: Seq<char>) -> bool {
    exists|i: int| 0 <= i < s.len() && #[trigger] s[i].0 == k
}

/// The index of an entry of `s` with key `k`.
pub open spec fn key_index<V>(s: Seq<(Seq<char>, V)>, k: Seq<char>) -> int {
    choose|i: int| 0 <= i < s.len() && #[trigger] s[i].0 == k
}

/// The map from keys to values that the entries `s` describe.
pub open spec fn as_map<V>(s: Seq<(Seq<char>, V)>) -> Map<Seq<char>, V> {
    Map::new(|k: Seq<char>| has_key(s, k), |k: Seq<char>| s[key_index(s, k)].1)
}

/// The value of key `k` in a map of counts, `0` where it is absent.
pub open spec fn count_in(m: Map<Seq<char>, u64>, k: Seq<char>) -> int {
    if m.dom().contains(k) {
        m[k] as int
    } else {
        0
    }
}

/// Reading a count after adding to it gives the old count plus the amount;
/// the other keys keep their counts.
pub proof fn lemma_count_after_add(m: Map<Seq<char>, u64>, k: Seq<char>, amount: u64, other: Seq<char>)
    requires
        count_in(m, k) + amount <= u64::MAX,
        other != k,
    ensures
        count_in(m.insert(k, (count_in(m, k) + amount) as u64), k) == count_in(m, k) + amount,
        count_in(m.insert(k, (count_in(m, k) + amount) as u64), other) == count_in(m, other),
{
}

/// The sum of `f` over the values of the entries `s`.
pub open spec fn sum_by<V>(s: Seq<(Seq<char>, V)>, f: spec_fn(V) -> int) -> int
    decreases s.len(),
{
    if s.len() == 0 {
        0
    } else {
        sum_by(s.drop_last(), f) + f(s.last().1)
    }
}

/// The count itself, as summed by `sum_counts`.
pub open spec fn count_value(c: u64) -> int {
    c as int
}

/// The sum of the counts of the entries `s`.
pub open spec fn sum_counts(s: Seq<(Seq<char>, u64)>) -> int {
    sum_by(s, |c: u64| count_value(c))
}

/// Summing over a concatenation adds the two sums.
pub proof fn lemma_sum_by_concat<V>(a: Seq<(Seq<char>, V)>, b: Seq<(Seq<char>, V)>, f: spec_fn(V) -> int)
    ensures
        sum_by(a + b, f) == sum_by(a, f) + sum_by(b, f),
    decreases b.len(),
{
    if b.len() == 0 {
        assert(a + b == a);
    } else {
        lemma_sum_by_concat(a, b.drop_last(), f);
        assert((a + b).drop_last() == a + b.drop_last());
        assert((a + b).last() == b.last());
    }
}

/// The sum over a single entry is `f` of its value.
pub proof fn lemma_sum_by_single<V>(e: (Seq<char>, V), f: spec_fn(V) -> int)
    ensures
        sum_by(seq![e], f) == f(e.1),
{
    assert(seq![e].drop_last() == Seq::<(Seq<char>, V)>::empty());
    assert(sum_by(Seq::<(Seq<char>, V)>::empty(), f) == 0);
}

/// Inserting an entry adds `f` of its value to the sum.
pub proof fn lemma_sum_by_insert<V>(s: Seq<(Seq<char>, V)>, p: int, e: (Seq<char>, V), f: spec_fn(V) -> int)
    requires
        0 <= p <= s.len(),
    ensures
        sum_by(s.insert(p, e), f) == sum_by(s, f) + f(e.1),
{
    lemma_sum_by_concat(s.take(p), s.skip(p), f);
    assert(s == s.take(p) + s.skip(p));
    assert(s.insert(p, e) == s.take(p) + seq![e] + s.skip(p));
    lemma_sum_by_concat(s.take(p) + seq![e], s.skip(p), f);
    lemma_sum_by_concat(s.take(p), seq![e], f);
    lemma_sum_by_single(e, f);
}

/// Replacing an entry replaces its term of the sum.
pub proof fn lemma_sum_by_update<V>(s: Seq<(Seq<char>, V)>, i: int, e: (Seq<char>, V), f: spec_fn(V) -> int)
    requires
        0 <= i < s.len(),
    ensures
        sum_by(s.update(i, e), f) == sum_by(s, f) - f(s[i].1) + f(e.1),
{
    let r = s.remove(i);
    assert(s == r.insert(i, s[i]));
    assert(s.update(i, e) == r.insert(i, e));
    lemma_sum_by_insert(r, i, s[i], f);
    lemma_sum_by_insert(r, i, e, f);
}

/// In ordered entries, the entry at `i` is the one `key_index` finds for its key.
pub proof fn lemma_key_index<V>(s: Seq<(Seq<char>, V)>, i: int)
    requires
        keys_ordered(s),
        0 <= i < s.len(),
    ensures
        has_key(s, s[i].0),
        key_index(s, s[i].0) == i,
        as_map(s).dom().contains(s[i].0),
        as_map(s)[s[i].0] == s[i].1,
{
    assert(has_key(s, s[i].0));
    let j = key_index(s, s[i].0);
    if j < i {
        assert(chars_less(s[j].0, s[i].0));
        lemma_chars_less_irreflexive(s[i].0);
    } else if i < j {
        assert(chars_less(s[i].0, s[j].0));
        lemma_chars_less_irreflexive(s[i].0);
    }
}

/// Inserting a key at the place that keeps the keys ordered adds it to the map.
pub proof fn lemma_insert_ordered<V>(s: Seq<(Seq<char>, V)>, p: int, k: Seq<char>, v: V)
    requires
        keys_ordered(s),
        0 <= p <= s.len(),
        forall|j: int| 0 <= j < p ==> chars_less(#[trigger] s[j].0, k),
        forall|j: int| p <= j < s.len() ==> chars_less(k, #[trigger] s[j].0),
    ensures
        !has_key(s, k),
        keys_ordered(s.insert(p, (k, v))),
        as_map(s.insert(p, (k, v))) == as_map(s).insert(k, v),
{
    let t = s.insert(p, (k, v));
    if has_key(s, k) {
        let j = choose|j: int| 0 <= j < s.len() && #[trigger] s[j].0 == k;
        lemma_chars_less_irreflexive(k);
    }
    assert forall|i: int, j: int| 0 <= i < j < t.len() implies chars_less(#[trigger] t[i].0, #[trigger] t[j].0) by {
        if j < p {
        } else if j == p {
        } else if i < p {
            lemma_chars_less_transitive(t[i].0, k, t[j].0);
        } else if i == p {
        } else {
        }
    }
    assert forall|key: Seq<char>| #[trigger] as_map(t).dom().contains(key) == as_map(s).insert(k, v).dom().contains(key) by {
        if has_key(s, key) {
            let j = choose|j: int| 0 <= j < s.len() && #[trigger] s[j].0 == key;
            if j < p {
                assert(t[j].0 == key);
            } else {
                assert(t[j + 1].0 == key);
            }
        }
        if has_key(t, key) && key != k {
            let j = choose|j: int| 0 <= j < t.len() && #[trigger] t[j].0 == key;
            if j < p {
                assert(s[j].0 == key);
            } else {
                assert(s[j - 1].0 == key);
            }
        }
        assert(t[p].0 == k);
    }
    assert forall|key: Seq<char>| #[trigger] as_map(t).dom().contains(key) implies as_map(t)[key] == as_map(s).insert(k, v)[key] by {
        let j = key_index(t, key);
        lemma_key_index(t, j);
        if j < p {
            lemma_key_index(s, j);
        } else if j > p {
            lemma_key_index(s, j - 1);
        } else {
            lemma_key_index(t, p);
        }
    }
    assert(as_map(t) =~= as_map(s).insert(k, v));
}

/// Replacing the value of an entry changes that key's value in the map.
pub proof fn lemma_update_ordered<V>(s: Seq<(Seq<char>, V)>, i: int, v: V)
    requires
        keys_ordered(s),
        0 <= i < s.len(),
    ensures
        keys_ordered(s.update(i, (s[i].0, v))),
        as_map(s.update(i, (s[i].0, v))) == as_map(s).insert(s[i].0, v),
{
    let k = s[i].0;
    let t = s.update(i, (k, v));
    assert forall|a: int, b: int| 0 <= a < b < t.len() implies chars_less(#[trigger] t[a].0, #[trigger] t[b].0) by {
        assert(t[a].0 == s[a].0 && t[b].0 == s[b].0);
    }
    assert forall|key: Seq<char>| #[trigger] as_map(t).dom().contains(key) == as_map(s).insert(k, v).dom().contains(key) by {
        if has_key(s, key) {
            let j = choose|j: int| 0 <= j < s.len() && #[trigger] s[j].0 == key;
            assert(t[j].0 == key);
        }
        if has_key(t, key) {
            let j = choose|j: int| 0 <= j < t.len() && #[trigger] t[j].0 == key;
            assert(s[j].0 == key);
        }
    }
    assert forall|key: Seq<char>| #[trigger] as_map(t).dom().contains(key) implies as_map(t)[key] == as_map(s).insert(k, v)[key] by {
        let j = key_index(t, key);
        lemma_key_index(t, j);
        lemma_key_index(s, j);
        lemma_key_index(t, i);
        if j != i {
            assert(t[j] == s[j]);
        }
    }
    assert(as_map(t) =~= as_map(s).insert(k, v));
}

/// Taking out the entry at `i` leaves a place at `i` where its key, with any
/// value, goes back in order; putting it back there replaces its value.
pub proof fn lemma_reinsert<V>(s: Seq<(Seq<char>, V)>, i: int, v: V)
    requires
        keys_ordered(s),
        0 <= i < s.len(),
    ensures
        forall|j: int| 0 <= j < i ==> chars_less(#[trigger] s.remove(i)[j].0, s[i].0),
        forall|j: int| i <= j < s.len() - 1 ==> chars_less(s[i].0, #[trigger] s.remove(i)[j].0),
        s.remove(i).insert(i, (s[i].0, v)) == s.update(i, (s[i].0, v)),
        keys_ordered(s.update(i, (s[i].0, v))),
        as_map(s.update(i, (s[i].0, v))) == as_map(s).insert(s[i].0, v),
{
    let r = s.remove(i);
    assert forall|j: int| 0 <= j < i implies chars_less(#[trigger] r[j].0, s[i].0) by {
        assert(r[j] == s[j]);
    }
    assert forall|j: int| i <= j < s.len() - 1 implies chars_less(s[i].0, #[trigger] r[j].0) by {
        assert(r[j] == s[j + 1]);
    }
    assert(r.insert(i, (s[i].0, v)) =~= s.update(i, (s[i].0, v)));
    lemma_update_ordered(s, i, v);
}

/// Removing an entry of ordered entries keeps them ordered.
pub proof fn lemma_remove_ordered<V>(s: Seq<(Seq<char>, V)>, i: int)
    requires
        keys_ordered(s),
        0 <= i < s.len(),
    ensures
        keys_ordered(s.remove(i)),
{
    let t = s.remove(i);
    assert forall|a: int, b: int| 0 <= a < b < t.len() implies chars_less(#[trigger] t[a].0, #[trigger] t[b].0) by {
        let a2 = if a < i { a } else { a + 1 };
        let b2 = if b < i { b } else { b + 1 };
        assert(t[a] == s[a2] && t[b] == s[b2]);
    }
}

// ---------------------------------------------------------------------------
// KeyMap
// ---------------------------------------------------------------------------

/// A map from strings to values, kept in the order of its keys (the order of
/// `String`'s `Ord`), as a `BTreeMap<String, V>` holds it.
pub struct KeyMap<V> {
    entries: Vec<(String, V)>,
}

/// Where a key stands in a `KeyMap`.
#[derive(PartialEq, Eq, Structural, Clone, Copy, Debug)]
pub enum Slot {
    /// The entry at this index has the key.
    Found(usize),
    /// The key is absent; inserting it at this index keeps the keys in order.
    Vacant(usize),
}

impl<V> View for KeyMap<V> {
    type V = Seq<(Seq<char>, V)>;

    /// The entries in key order, each key by its characters.
    closed spec fn view(&self) -> Seq<(Seq<char>, V)> {
        self.entries@.map_values(|e: (String, V)| (e.0@, e.1))
    }
}

impl<V> KeyMap<V> {
    #[verifier::type_invariant]
    spec fn ordered(self) -> bool {
        keys_ordered(self@)
    }

    /// The map that the entries describe.
    pub open spec fn map(self) -> Map<Seq<char>, V> {
        as_map(self@)
    }

    /// An empty map.
    pub fn new() -> (m: Self)
        ensures
            m@ == Seq::<(Seq<char>, V)>::empty(),
    {
        let m = KeyMap { entries: Vec::new() };
        assert(m@ =~= Seq::<(Seq<char>, V)>::empty());
        m
    }

    /// The number of entries.
    pub fn len(&self) -> (n: usize)
        ensures
            n == self@.len(),
    {
        self.entries.len()
    }

    /// The entries in key order.
    pub fn entries(&self) -> (r: &Vec<(String, V)>)
        ensures
            r@.map_values(|e: (String, V)| (e.0@, e.1)) == self@,
            keys_ordered(self@),
    {
        proof {
            use_type_invariant(self);
        }
        &self.entries
    }

    /// The key and value of the entry at index `i`.
    pub fn entry(&self, i: usize) -> (r: (&String, &V))
        requires
            i < self@.len(),
        ensures
            r.0@ == self@[i as int].0,
            *r.1 == self@[i as int].1,
    {
        let e = &self.entries[i];
        (&e.0, &e.1)
    }

    /// Where `key` stands: the index of its entry, or where it would go.
    pub fn slot(&self, key: &str) -> (r: Slot)
        ensures
            keys_ordered(self@),
            match r {
                Slot::Found(i) => i < self@.len() && self@[i as int].0 == key@,
                Slot::Vacant(p) => p <= self@.len() && (forall|j: int|
                    0 <= j < p ==> chars_less(#[trigger] self@[j].0, key@)) && (forall|j: int|
                    p <= j < self@.len() ==> chars_less(key@, #[trigger] self@[j].0)),
            },
    {
        proof {
            use_type_invariant(self);
        }
        let kv = chars_of(key);
        let mut i: usize = 0;
        while i < self.entries.len()
            invariant
                i <= self@.len(),
                self.entries@.len() == self@.len(),
                keys_ordered(self@),
                kv@ == key@,
                forall|j: int| 0 <= j < i ==> chars_less(#[trigger] self@[j].0, key@),
            decreases self@.len() - i,
        {
            let ev = chars_of(self.entries[i].0.as_str());
            assert(ev@ == self@[i as int].0);
            match order_chars(&ev, &kv) {
                KeyOrder::Less => {},
                KeyOrder::Equal => {
                    return Slot::Found(i);
                },
                KeyOrder::Greater => {
                    assert forall|j: int| i <= j < self@.len() implies chars_less(key@, #[trigger] self@[j].0) by {
                        if j > i {
                            lemma_chars_less_transitive(key@, self@[i as int].0, self@[j].0);
                        }
                    }
                    return Slot::Vacant(i);
                },
            }
            i += 1;
        }
        Slot::Vacant(i)
    }

    /// Puts a new entry at index `p`, where its key keeps the keys in order.
    pub fn insert_at(&mut self, p: usize, key: String, value: V)
        requires
            p <= old(self)@.len(),
            forall|j: int| 0 <= j < p ==> chars_less(#[trigger] old(self)@[j].0, key@),
            forall|j: int| p <= j < old(self)@.len() ==> chars_less(key@, #[trigger] old(self)@[j].0),
        ensures
            final(self)@ == old(self)@.insert(p as int, (key@, value)),
            !has_key(old(self)@, key@),
            final(self).map() == old(self).map().insert(key@, value),
    {
        proof {
            use_type_invariant(&*self);
            lemma_insert_ordered(self@, p as int, key@, value);
        }
        let ghost k = key@;
        let mut e: Vec<(String, V)> = Vec::new();
        std::mem::swap(&mut e, &mut self.entries);
        e.insert(p, (key, value));
        assert(e@.map_values(|e: (String, V)| (e.0@, e.1)) =~= old(self)@.insert(p as int, (k, value)));
        self.entries = e;
    }

    /// Takes out the entry at index `i`.
    pub fn remove_at(&mut self, i: usize) -> (r: (String, V))
        requires
            i < old(self)@.len(),
        ensures
            final(self)@ == old(self)@.remove(i as int),
            (r.0@, r.1) == old(self)@[i as int],
    {
        proof {
            use_type_invariant(&*self);
            lemma_remove_ordered(self@, i as int);
        }
        let mut e: Vec<(String, V)> = Vec::new();
        std::mem::swap(&mut e, &mut self.entries);
        let r = e.remove(i);
        assert(e@.map_values(|e: (String, V)| (e.0@, e.1)) =~= old(self)@.remove(i as int));
        self.entries = e;
        r
    }
}

impl<V> KeyMap<V> {
    /// Sets the value of `key`, adding the key where it is absent.
    pub fn set(&mut self, key: String, value: V)
        ensures
            final(self).map() == old(self).map().insert(key@, value),
    {
        match self.slot(key.as_str()) {
            Slot::Found(i) => {
                let (k, _) = self.remove_at(i);
                proof {
                    lemma_reinsert(old(self)@, i as int, value);
                }
                self.insert_at(i, k, value);
            },
            Slot::Vacant(p) => {
                self.insert_at(p, key, value);
            },
        }
    }
}

impl KeyMap<u64> {
    /// The count of `key`, `0` where it is absent.
    pub fn count_of(&self, key: &str) -> (c: u64)
        ensures
            c == count_in(self.map(), key@),
    {
        proof {
            use_type_invariant(self);
        }
        match self.slot(key) {
            Slot::Found(i) => {
                proof {
                    lemma_key_index(self@, i as int);
                }
                self.entries[i].1
            },
            Slot::Vacant(p) => {
                proof {
                    if has_key(self@, key@) {
                        let j = choose|j: int| 0 <= j < self@.len() && #[trigger] self@[j].0 == key@;
                        lemma_chars_less_irreflexive(key@);
                    }
                }
                0
            },
        }
    }

    /// Adds `amount` to the count of `key` (an absent key counts from `0`).
    pub fn add(&mut self, key: String, amount: u64)
        requires
            count_in(old(self).map(), key@) + amount <= u64::MAX,
        ensures
            final(self).map() == old(self).map().insert(key@, (count_in(old(self).map(), key@) + amount) as u64),
            sum_counts(final(self)@) == sum_counts(old(self)@) + amount,
    {
        proof {
            use_type_invariant(&*self);
        }
        match self.slot(key.as_str()) {
            Slot::Found(i) => {
                proof {
                    lemma_key_index(self@, i as int);
                }
                let (k, c) = self.remove_at(i);
                proof {
                    lemma_reinsert(old(self)@, i as int, (c + amount) as u64);
                    lemma_sum_by_update(old(self)@, i as int, (k@, (c + amount) as u64), |c: u64| count_value(c));
                }
                self.insert_at(i, k, c + amount);
            },
            Slot::Vacant(p) => {
                proof {
                    if has_key(self@, key@) {
                        let j = choose|j: int| 0 <= j < self@.len() && #[trigger] self@[j].0 == key@;
                        lemma_chars_less_irreflexive(key@);
                    }
                    lemma_sum_by_insert(self@, p as int, (key@, amount), |c: u64| count_value(c));
                }
                self.insert_at(p, key, amount);
            },
        }
    }
}

} // verus!
