//! A map from names to values, kept sorted by name as a `BTreeMap<String, V>` is.
use vstd::prelude::*;

use crate::text::chars_of;

verus! {

/// Byte-wise (code point) lexicographic order of names, the order of `String`.
pub open spec fn name_lt(a: Seq<char>, b: Seq<char>) -> bool
    decreases a.len(),
{
    if b.len() == 0 {
        false
    } else if a.len() == 0 {
        true
    } else if a[0] != b[0] {
        a[0] < b[0]
    } else {
        name_lt(a.drop_first(), b.drop_first())
    }
}

pub proof fn lemma_name_lt_irreflexive(a: Seq<char>)
    ensures
        !name_lt(a, a),
    decreases a.len(),
{
    if a.len() > 0 {
        lemma_name_lt_irreflexive(a.drop_first());
    }
}

pub proof fn lemma_name_lt_total(a: Seq<char>, b: Seq<char>)
    ensures
        a != b ==> name_lt(a, b) || name_lt(b, a),
        !(name_lt(a, b) && name_lt(b, a)),
    decreases a.len(),
{
    if a.len() > 0 && b.len() > 0 {
        if a[0] == b[0] {
            lemma_name_lt_total(a.drop_first(), b.drop_first());
            if a.drop_first() == b.drop_first() {
                assert(a =~= seq![a[0]] + a.drop_first());
                assert(b =~= seq![b[0]] + b.drop_first());
            }
        }
    } else if a.len() == 0 && b.len() == 0 {
        assert(a =~= b);
    }
}

pub proof fn lemma_name_lt_transitive(a: Seq<char>, b: Seq<char>, c: Seq<char>)
    requires
        name_lt(a, b),
        name_lt(b, c),
    ensures
        name_lt(a, c),
    decreases a.len(),
{
    if a.len() > 0 && b.len() > 0 && c.len() > 0 {
        if a[0] == b[0] && b[0] == c[0] {
            lemma_name_lt_transitive(a.drop_first(), b.drop_first(), c.drop_first());
        }
    }
}

/// Result of comparing two names.
#[derive(Clone, Copy, Debug, PartialEq, Eq, Structural)]
pub enum NameOrder {
    Less,
    Equal,
    Greater,
}

/// Compares two names in `String` order.
pub fn compare_names(a: &Vec<char>, b: &Vec<char>) -> (r: NameOrder)
    ensures
        r is Less <==> name_lt(a@, b@),
        r is Equal <==> a@ == b@,
        r is Greater <==> name_lt(b@, a@),
{
    proof {
        lemma_name_lt_total(a@, b@);
        lemma_name_lt_irreflexive(a@);
        assert(a@.skip(0) =~= a@);
        assert(b@.skip(0) =~= b@);
        assert(a@.take(0) =~= b@.take(0));
    }
    let mut i: usize = 0;
    while i < a.len() && i < b.len()
        invariant
            i <= a.len(),
            i <= b.len(),
            a@.take(i as int) == b@.take(i as int),
            name_lt(a@, b@) == name_lt(a@.skip(i as int), b@.skip(i as int)),
            name_lt(b@, a@) == name_lt(b@.skip(i as int), a@.skip(i as int)),
        decreases a.len() - i,
    {
        if a[i] != b[i] {
            let ai = a[i];
            let bi = b[i];
            assert(a@.skip(i as int)[0] == ai);
            assert(b@.skip(i as int)[0] == bi);
            if ai < bi {
                return NameOrder::Less;
            } else {
                return NameOrder::Greater;
            }
        }
        assert(a@.skip(i as int).drop_first() =~= a@.skip(i + 1));
        assert(b@.skip(i as int).drop_first() =~= b@.skip(i + 1));
        assert(a@.take(i + 1) =~= a@.take(i as int).push(a@[i as int]));
        assert(b@.take(i + 1) =~= b@.take(i as int).push(b@[i as int]));
        i = i + 1;
    }
    if a.len() == b.len() {
        assert(a@ =~= a@.take(i as int));
        assert(b@ =~= b@.take(i as int));
        NameOrder::Equal
    } else if i == a.len() {
        assert(a@.skip(i as int).len() == 0);
        assert(a@ != b@) by {
            assert(a@.len() != b@.len());
        }
        NameOrder::Less
    } else {
        assert(b@.skip(i as int).len() == 0);
        assert(a@ != b@) by {
            assert(a@.len() != b@.len());
        }
        NameOrder::Greater
    }
}

/// A map from names to values whose entries are kept in name order.
pub struct NameMap<V> {
    entries: Vec<(String, V)>,
}

pub open spec fn keys_of<V>(entries: Seq<(String, V)>) -> Seq<Seq<char>> {
    entries.map_values(|e: (String, V)| e.0@)
}

pub open spec fn strictly_sorted(keys: Seq<Seq<char>>) -> bool {
    forall|i: int, j: int| 0 <= i < j < keys.len() ==> name_lt(#[trigger] keys[i], #[trigger] keys[j])
}

/// The map that a sequence of entries with distinct names denotes.
pub open spec fn map_of<V>(entries: Seq<(String, V)>) -> Map<Seq<char>, V>
    decreases entries.len(),
{
    if entries.len() == 0 {
        Map::empty()
    } else {
        map_of(entries.drop_last()).insert(entries.last().0@, entries.last().1)
    }
}

pub proof fn lemma_map_of<V>(entries: Seq<(String, V)>)
    requires
        strictly_sorted(keys_of(entries)),
    ensures
        forall|i: int|
            0 <= i < entries.len() ==> #[trigger] map_of(entries).contains_key(entries[i].0@)
                && map_of(entries)[entries[i].0@] == entries[i].1,
        forall|k: Seq<char>|
            #[trigger] map_of(entries).contains_key(k) ==> exists|i: int|
                0 <= i < entries.len() && entries[i].0@ == k,
    decreases entries.len(),
{
    if entries.len() > 0 {
        let init = entries.drop_last();
        assert(strictly_sorted(keys_of(init))) by {
            assert forall|i: int, j: int| 0 <= i < j < keys_of(init).len() implies name_lt(
                #[trigger] keys_of(init)[i],
                #[trigger] keys_of(init)[j],
            ) by {
                assert(keys_of(init)[i] == keys_of(entries)[i]);
                assert(keys_of(init)[j] == keys_of(entries)[j]);
            }
        }
        lemma_map_of(init);
        let n = entries.len() - 1;
        assert forall|i: int| 0 <= i < entries.len() implies #[trigger] map_of(
            entries,
        ).contains_key(entries[i].0@) && map_of(entries)[entries[i].0@] == entries[i].1 by {
            if i < n {
                assert(init[i] == entries[i]);
                assert(map_of(init).contains_key(init[i].0@));
                assert(keys_of(entries)[i] == entries[i].0@);
                assert(keys_of(entries)[n] == entries[n].0@);
                lemma_name_lt_irreflexive(entries[i].0@);
                assert(entries[i].0@ != entries[n].0@);
                assert(init[i] == entries[i]);
            }
        }
        assert forall|k: Seq<char>| #[trigger] map_of(entries).contains_key(k) implies exists|
            i: int,
        | 0 <= i < entries.len() && entries[i].0@ == k by {
            if k != entries.last().0@ {
                assert(map_of(init).contains_key(k));
                let i = choose|i: int| 0 <= i < init.len() && init[i].0@ == k;
                assert(entries[i] == init[i]);
            }
        }
    }
}

impl<V> NameMap<V> {
    #[verifier::type_invariant]
    closed spec fn sorted(self) -> bool {
        strictly_sorted(keys_of(self.entries@))
    }

    /// The entries, in name order.
    pub closed spec fn spec_entries(&self) -> Seq<(String, V)> {
        self.entries@
    }

    /// The names and their values.
    pub open spec fn view(&self) -> Map<Seq<char>, V> {
        map_of(self.spec_entries())
    }

    /// An empty map.
    pub fn new() -> (m: Self)
        ensures
            m.spec_entries().len() == 0,
            m@ == Map::<Seq<char>, V>::empty(),
    {
        NameMap { entries: Vec::new() }
    }

    /// The entries, in strictly increasing name order; they are exactly the map.
    pub fn entries(&self) -> (r: &Vec<(String, V)>)
        ensures
            r@ == self.spec_entries(),
            strictly_sorted(keys_of(self.spec_entries())),
            forall|i: int|
                0 <= i < self.spec_entries().len() ==> #[trigger] self@.contains_key(
                    self.spec_entries()[i].0@,
                ) && self@[self.spec_entries()[i].0@] == self.spec_entries()[i].1,
            forall|k: Seq<char>|
                #[trigger] self@.contains_key(k) ==> exists|i: int|
                    0 <= i < self.spec_entries().len() && self.spec_entries()[i].0@ == k,
    {
        proof {
            use_type_invariant(self);
            lemma_map_of(self.entries@);
        }
        &self.entries
    }

    /// The entries, in strictly increasing name order, taken out of the map.
    pub fn into_entries(self) -> (r: Vec<(String, V)>)
        ensures
            r@ == self.spec_entries(),
            strictly_sorted(keys_of(r@)),
    {
        proof {
            use_type_invariant(&self);
        }
        self.entries
    }

    /// The number of entries.
    pub fn len(&self) -> (n: usize)
        ensures
            n == self.spec_entries().len(),
    {
        self.entries.len()
    }

    /// The position at which `key` stands, or would be inserted, and whether it is there.
    fn locate(&self, key: &Vec<char>) -> (r: (usize, bool))
        ensures
            r.0 <= self.spec_entries().len(),
            forall|i: int| 0 <= i < r.0 ==> name_lt(#[trigger] self.spec_entries()[i].0@, key@),
            r.1 ==> r.0 < self.spec_entries().len() && self.spec_entries()[r.0 as int].0@
                == key@,
            !r.1 ==> forall|i: int|
                r.0 <= i < self.spec_entries().len() ==> name_lt(
                    key@,
                    #[trigger] self.spec_entries()[i].0@,
                ),
    {
        proof {
            use_type_invariant(self);
        }
        let mut i: usize = 0;
        while i < self.entries.len()
            invariant
                i <= self.entries@.len(),
                strictly_sorted(keys_of(self.entries@)),
                forall|j: int| 0 <= j < i ==> name_lt(#[trigger] self.entries@[j].0@, key@),
            decreases self.entries@.len() - i,
        {
            let k = chars_of(self.entries[i].0.as_str());
            match compare_names(&k, key) {
                NameOrder::Less => {
                    i = i + 1;
                },
                NameOrder::Equal => {
                    return (i, true);
                },
                NameOrder::Greater => {
                    proof {
                        assert forall|j: int| i <= j < self.entries@.len() implies name_lt(
                            key@,
                            #[trigger] self.entries@[j].0@,
                        ) by {
                            if j > i {
                                assert(keys_of(self.entries@)[i as int] == self.entries@[i as int].0@);
                                assert(keys_of(self.entries@)[j] == self.entries@[j].0@);
                                lemma_name_lt_transitive(
                                    key@,
                                    self.entries@[i as int].0@,
                                    self.entries@[j].0@,
                                );
                            }
                        }
                    }
                    return (i, false);
                },
            }
        }
        (i, false)
    }

    /// The value stored under `key`.
    pub fn get(&self, key: &str) -> (r: Option<&V>)
        ensures
            match r {
                Some(v) => self@.contains_key(key@) && self@[key@] == *v,
                None => !self@.contains_key(key@),
            },
    {
        proof {
            use_type_invariant(self);
            lemma_map_of(self.entries@);
        }
        let k = chars_of(key);
        let (i, found) = self.locate(&k);
        if found {
            proof {
                assert(self@.contains_key(self.entries@[i as int].0@));
            }
            Some(&self.entries[i].1)
        } else {
            proof {
                if self@.contains_key(key@) {
                    let j = choose|j: int|
                        0 <= j < self.spec_entries().len() && self.spec_entries()[j].0@ == key@;
                    lemma_name_lt_irreflexive(key@);
                }
            }
            None
        }
    }

    /// Whether `key` has a value.
    pub fn contains_key(&self, key: &str) -> (r: bool)
        ensures
            r == self@.contains_key(key@),
    {
        match self.get(key) {
            Some(_) => true,
            None => false,
        }
    }

    /// Stores `value` under `key`, replacing an earlier value.
    pub fn insert(&mut self, key: String, value: V)
        ensures
            final(self)@ == old(self)@.insert(key@, value),
    {
        proof {
            use_type_invariant(&*self);
            lemma_map_of(self.entries@);
        }
        let k = chars_of(key.as_str());
        let (i, found) = self.locate(&k);
        let ghost old_entries = self.entries@;
        let ghost kv = key@;
        if found {
            let mut entries: Vec<(String, V)> = Vec::new();
            std::mem::swap(&mut entries, &mut self.entries);
            entries.set(i, (key, value));
            proof {
                assert(keys_of(entries@) =~= keys_of(old_entries));
            }
            self.entries = entries;
            proof {
                assert(keys_of(self.entries@) =~= keys_of(old_entries));
            }
        } else {
            let mut entries: Vec<(String, V)> = Vec::new();
            std::mem::swap(&mut entries, &mut self.entries);
            entries.insert(i, (key, value));
            proof {
                let ks = keys_of(entries@);
                assert forall|a: int, b: int| 0 <= a < b < ks.len() implies name_lt(
                    #[trigger] ks[a],
                    #[trigger] ks[b],
                ) by {
                    let oks = keys_of(old_entries);
                    if b < i {
                        assert(ks[a] == oks[a] && ks[b] == oks[b]);
                    } else if b == i {
                        assert(ks[a] == old_entries[a].0@);
                    } else if a == i {
                        assert(ks[b] == old_entries[b - 1].0@);
                    } else if a < i {
                        assert(ks[a] == oks[a] && ks[b] == oks[b - 1]);
                    } else {
                        assert(ks[a] == oks[a - 1] && ks[b] == oks[b - 1]);
                    }
                }
            }
            self.entries = entries;
        }
        proof {
            lemma_map_of(self.entries@);
            assert(self.entries@[i as int].0@ == kv);
            assert(self@.contains_key(self.entries@[i as int].0@));
            assert(old(self)@ == map_of(old_entries));
            let new_map = old(self)@.insert(kv, self.entries@[i as int].1);
            assert forall|k2: Seq<char>| #[trigger] self@.contains_key(k2) <==> new_map.contains_key(
                k2,
            ) by {
                if self@.contains_key(k2) {
                    let j = choose|j: int| 0 <= j < self.entries@.len() && self.entries@[j].0@ == k2;
                    if k2 != kv {
                        if found {
                            assert(old_entries[j] == self.entries@[j]);
                        } else if j < i {
                            assert(old_entries[j] == self.entries@[j]);
                        } else {
                            assert(old_entries[j - 1] == self.entries@[j]);
                        }
                    }
                }
                if new_map.contains_key(k2) && k2 != kv {
                    let j = choose|j: int| 0 <= j < old_entries.len() && old_entries[j].0@ == k2;
                    if found || j < i {
                        assert(self.entries@[j] == old_entries[j]);
                    } else {
                        assert(self.entries@[j + 1] == old_entries[j]);
                    }
                }
            }
            assert forall|k2: Seq<char>| #[trigger] self@.contains_key(k2) implies self@[k2]
                == new_map[k2] by {
                let j = choose|j: int| 0 <= j < self.entries@.len() && self.entries@[j].0@ == k2;
                if k2 != kv {
                    if found || j < i {
                        assert(old_entries[j] == self.entries@[j]);
                    } else {
                        assert(old_entries[j - 1] == self.entries@[j]);
                    }
                } else {
                    if j != i {
                        assert(keys_of(self.entries@)[j] == keys_of(self.entries@)[i as int]);
                        lemma_name_lt_irreflexive(k2);
                    }
                }
            }
            assert(self@ =~= new_map);
        }
    }

    /// Takes the value stored under `key` out of the map.
    pub fn remove(&mut self, key: &str) -> (r: Option<V>)
        ensures
            final(self)@ == old(self)@.remove(key@),
            match r {
                Some(v) => old(self)@.contains_key(key@) && old(self)@[key@] == v,
                None => !old(self)@.contains_key(key@),
            },
    {
        proof {
            use_type_invariant(&*self);
            lemma_map_of(self.entries@);
        }
        let k = chars_of(key);
        let (i, found) = self.locate(&k);
        if !found {
            proof {
                if old(self)@.contains_key(key@) {
                    let j = choose|j: int|
                        0 <= j < self.entries@.len() && self.entries@[j].0@ == key@;
                    lemma_name_lt_irreflexive(key@);
                }
                assert(old(self)@.remove(key@) =~= old(self)@);
            }
            return None;
        }
        let ghost old_entries = self.entries@;
        proof {
            assert(self@.contains_key(self.entries@[i as int].0@));
        }
        let mut entries: Vec<(String, V)> = Vec::new();
        std::mem::swap(&mut entries, &mut self.entries);
        let (_, v) = entries.remove(i);
        proof {
            let ks = keys_of(entries@);
            let oks = keys_of(old_entries);
            assert forall|a: int, b: int| 0 <= a < b < ks.len() implies name_lt(
                #[trigger] ks[a],
                #[trigger] ks[b],
            ) by {
                if b < i {
                    assert(ks[a] == oks[a] && ks[b] == oks[b]);
                } else if a < i {
                    assert(ks[a] == oks[a] && ks[b] == oks[b + 1]);
                } else {
                    assert(ks[a] == oks[a + 1] && ks[b] == oks[b + 1]);
                }
            }
        }
        self.entries = entries;
        proof {
            let oks = keys_of(old_entries);
            lemma_map_of(self.entries@);
            let new_map = old(self)@.remove(key@);
            assert forall|k2: Seq<char>| #[trigger] self@.contains_key(k2) <==> new_map.contains_key(
                k2,
            ) by {
                if self@.contains_key(k2) {
                    let j = choose|j: int| 0 <= j < self.entries@.len() && self.entries@[j].0@ == k2;
                    if j < i {
                        assert(old_entries[j] == self.entries@[j]);
                        assert(name_lt(oks[j], oks[i as int]));
                        lemma_name_lt_irreflexive(k2);
                    } else {
                        assert(old_entries[j + 1] == self.entries@[j]);
                        assert(name_lt(oks[i as int], oks[j + 1]));
                        lemma_name_lt_irreflexive(k2);
                    }
                }
                if new_map.contains_key(k2) {
                    let j = choose|j: int| 0 <= j < old_entries.len() && old_entries[j].0@ == k2;
                    if j < i {
                        assert(self.entries@[j] == old_entries[j]);
                    } else {
                        assert(j != i);
                        assert(self.entries@[j - 1] == old_entries[j]);
                    }
                }
            }
            assert forall|k2: Seq<char>| #[trigger] self@.contains_key(k2) implies self@[k2]
                == new_map[k2] by {
                let j = choose|j: int| 0 <= j < self.entries@.len() && self.entries@[j].0@ == k2;
                if j < i {
                    assert(old_entries[j] == self.entries@[j]);
                } else {
                    assert(old_entries[j + 1] == self.entries@[j]);
                }
            }
            assert(self@ =~= new_map);
        }
        Some(v)
    }
}

} // verus!
