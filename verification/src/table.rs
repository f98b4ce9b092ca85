//! A name-keyed table: the environments and the function table of the VM.
//!
//! A table is a sequence of (name, value) entries in which each name occurs at
//! most once in practice; lookups find the first entry with the name, and a
//! store overwrites that entry or appends a new one.
use vstd::prelude::*;

verus! {

/// Index of the first entry at or after `i` whose key is `k`.
pub open spec fn find_from<V>(es: Seq<(Seq<char>, V)>, k: Seq<char>, i: int) -> Option<int>
    decreases es.len() - i,
{
    if i < 0 || i >= es.len() {
        None
    } else if es[i].0 == k {
        Some(i)
    } else {
        find_from(es, k, i + 1)
    }
}

/// Index of the first entry whose key is `k`.
pub open spec fn find_key<V>(es: Seq<(Seq<char>, V)>, k: Seq<char>) -> Option<int> {
    find_from(es, k, 0)
}

/// The value stored under `k`, if any.
pub open spec fn lookup<V>(es: Seq<(Seq<char>, V)>, k: Seq<char>) -> Option<V> {
    match find_key(es, k) {
        Some(i) => Some(es[i].1),
        None => None,
    }
}

/// The entries after storing `v` under `k`: the entry of `k` is overwritten,
/// or a new entry is appended.
pub open spec fn store<V>(es: Seq<(Seq<char>, V)>, k: Seq<char>, v: V) -> Seq<(Seq<char>, V)> {
    match find_key(es, k) {
        Some(i) => es.update(i, (k, v)),
        None => es.push((k, v)),
    }
}

pub proof fn lemma_find_from_range<V>(es: Seq<(Seq<char>, V)>, k: Seq<char>, i: int)
    ensures
        find_from(es, k, i) matches Some(j) ==> (i <= j < es.len() && es[j].0 == k && 0 <= i
            && forall|m: int| i <= m < j ==> es[m].0 != k),
        find_from(es, k, i) is None ==> forall|m: int| 0 <= i <= m < es.len() ==> es[m].0 != k,
    decreases es.len() - i,
{
    if 0 <= i < es.len() && es[i].0 != k {
        lemma_find_from_range(es, k, i + 1);
    }
}

/// Characterises the first entry with a key.
pub proof fn lemma_find_key<V>(es: Seq<(Seq<char>, V)>, k: Seq<char>)
    ensures
        find_key(es, k) matches Some(j) ==> (0 <= j < es.len() && es[j].0 == k && forall|m: int|
            0 <= m < j ==> es[m].0 != k),
        find_key(es, k) is None ==> forall|m: int| 0 <= m < es.len() ==> es[m].0 != k,
{
    lemma_find_from_range(es, k, 0);
}

pub proof fn lemma_find_key_unique<V>(es: Seq<(Seq<char>, V)>, k: Seq<char>, j: int)
    requires
        0 <= j < es.len(),
        es[j].0 == k,
        forall|m: int| 0 <= m < j ==> es[m].0 != k,
    ensures
        find_key(es, k) == Some(j),
{
    lemma_find_key(es, k);
    if let Some(j2) = find_key(es, k) {
        assert(j2 == j);
    }
}

/// Law: a lookup of the name just stored gives the stored value.
pub proof fn law_lookup_store_same<V>(es: Seq<(Seq<char>, V)>, k: Seq<char>, v: V)
    ensures
        lookup(store(es, k, v), k) == Some(v),
{
    lemma_find_key(es, k);
    let es2 = store(es, k, v);
    match find_key(es, k) {
        Some(i) => {
            lemma_find_key_unique(es2, k, i);
        },
        None => {
            lemma_find_key_unique(es2, k, es.len() as int);
        },
    }
}

/// Law: storing under one name leaves the lookups of every other name unchanged.
pub proof fn law_lookup_store_other<V>(es: Seq<(Seq<char>, V)>, k: Seq<char>, v: V, k2: Seq<char>)
    requires
        k2 != k,
    ensures
        lookup(store(es, k, v), k2) == lookup(es, k2),
{
    lemma_find_key(es, k);
    lemma_find_key(es, k2);
    let es2 = store(es, k, v);
    assert forall|m: int| 0 <= m < es.len() implies ((#[trigger] es2[m]).0 == k2) == (es[m].0
        == k2) by {
        match find_key(es, k) {
            Some(i) => {
                if m == i {
                    assert(es2[m].0 == k);
                } else {
                    assert(es2[m] == es[m]);
                }
            },
            None => {
                assert(es2[m] == es[m]);
            },
        }
    }
    match find_key(es, k2) {
        Some(i) => {
            lemma_find_key_unique(es2, k2, i);
        },
        None => {
            lemma_find_key(es2, k2);
            if let Some(j) = find_key(es2, k2) {
                assert(j < es.len());
            }
        },
    }
}

/// No name occurs twice among the entries.
pub open spec fn keys_unique<V>(es: Seq<(Seq<char>, V)>) -> bool {
    forall|i: int, j: int| 0 <= i < j < es.len() ==> es[i].0 != es[j].0
}

/// Law: storing keeps every name at most once in the table, and the stored
/// entry is the only one with its name.
pub proof fn law_store_keeps_keys_unique<V>(es: Seq<(Seq<char>, V)>, k: Seq<char>, v: V)
    requires
        keys_unique(es),
    ensures
        keys_unique(store(es, k, v)),
        exists|i: int| 0 <= i < store(es, k, v).len() && store(es, k, v)[i] == (k, v),
{
    lemma_find_key(es, k);
    let es2 = store(es, k, v);
    match find_key(es, k) {
        Some(i) => {
            assert(es2[i] == (k, v));
            assert forall|a: int, b: int| 0 <= a < b < es2.len() implies es2[a].0 != es2[b].0 by {
                if a != i && b != i {
                    assert(es[a].0 != es[b].0);
                } else if a == i {
                    assert(es[i].0 != es[b].0);
                } else {
                    assert(es[a].0 != es[i].0);
                }
            }
        },
        None => {
            assert(es2[es.len() as int] == (k, v));
            assert forall|a: int, b: int| 0 <= a < b < es2.len() implies es2[a].0 != es2[b].0 by {
                if b < es.len() {
                    assert(es[a].0 != es[b].0);
                }
            }
        },
    }
}

/// A table of named entries.
pub struct Table<T> {
    entries: Vec<(String, T)>,
}

impl<T: View> View for Table<T> {
    type V = Seq<(Seq<char>, T::V)>;

    closed spec fn view(&self) -> Self::V {
        self.entries@.map_values(|e: (String, T)| (e.0@, e.1@))
    }
}

impl<T: View> Table<T> {
    /// An empty table.
    pub fn new() -> (t: Self)
        ensures
            t@ == Seq::<(Seq<char>, T::V)>::empty(),
    {
        let t = Table { entries: Vec::new() };
        assert(t@ =~= Seq::<(Seq<char>, T::V)>::empty());
        t
    }

    /// The number of entries.
    pub fn len(&self) -> (n: usize)
        ensures
            n == self@.len(),
    {
        self.entries.len()
    }

    /// Position of the entry named `key`.
    fn position(&self, key: &String) -> (r: Option<usize>)
        ensures
            r matches Some(i) ==> find_key(self@, key@) == Some(i as int) && i < self@.len(),
            r is None ==> find_key(self@, key@) is None,
    {
        proof {
            lemma_find_key(self@, key@);
        }
        let mut i: usize = 0;
        while i < self.entries.len()
            invariant
                i <= self.entries@.len(),
                self@.len() == self.entries@.len(),
                find_key(self@, key@) == find_from(self@, key@, i as int),
            decreases self.entries.len() - i,
        {
            if self.entries[i].0 == *key {
                return Some(i);
            }
            i += 1;
        }
        None
    }

    /// The value stored under `name`, if any.
    pub fn get(&self, name: &str) -> (r: Option<&T>)
        ensures
            match lookup(self@, name@) {
                Some(v) => r matches Some(x) && x@ == v,
                None => r is None,
            },
    {
        let key = name.to_owned();
        self.get_key(&key)
    }

    /// The value stored under `key`, if any.
    pub fn get_key(&self, key: &String) -> (r: Option<&T>)
        ensures
            match lookup(self@, key@) {
                Some(v) => r matches Some(x) && x@ == v,
                None => r is None,
            },
    {
        proof {
            lemma_find_key(self@, key@);
        }
        match self.position(key) {
            Some(i) => {
                assert(self@[i as int] == (self.entries@[i as int].0@, self.entries@[i as int].1@));
                Some(&self.entries[i].1)
            },
            None => None,
        }
    }

    /// Stores `value` under `name`, overwriting an entry of that name.
    pub fn insert(&mut self, name: String, value: T)
        ensures
            final(self)@ == store(old(self)@, name@, value@),
            keys_unique(old(self)@) ==> keys_unique(final(self)@),
    {
        proof {
            if keys_unique(self@) {
                law_store_keeps_keys_unique(self@, name@, value@);
            }
        }
        let ghost k = name@;
        let ghost v = value@;
        proof {
            lemma_find_key(self@, k);
        }
        match self.position(&name) {
            Some(i) => {
                self.entries.set(i, (name, value));
                assert(self@ =~= old(self)@.update(i as int, (k, v)));
            },
            None => {
                self.entries.push((name, value));
                assert(self@ =~= old(self)@.push((k, v)));
            },
        }
    }
}

} // verus!
