//! Small association tables: keys looked up by equality, entries kept in
//! the order in which their keys first arrived.

use vstd::prelude::*;

verus! {

/// Keys that can be compared for equality.
pub trait TableKey: Sized {
    fn same(&self, other: &Self) -> (r: bool)
        ensures
            r == (*self == *other),
    ;
}

impl TableKey for usize {
    fn same(&self, other: &Self) -> (r: bool) {
        *self == *other
    }
}

impl TableKey for Option<usize> {
    fn same(&self, other: &Self) -> (r: bool) {
        match (self, other) {
            (Some(a), Some(b)) => *a == *b,
            (None, None) => true,
            _ => false,
        }
    }
}

impl TableKey for (usize, Option<usize>) {
    fn same(&self, other: &Self) -> (r: bool) {
        self.0 == other.0 && self.1.same(&other.1)
    }
}

impl TableKey for (usize, usize) {
    fn same(&self, other: &Self) -> (r: bool) {
        self.0 == other.0 && self.1 == other.1
    }
}

/// The position of the first entry with the key `k`.
pub open spec fn find_index<K, V>(entries: Seq<(K, V)>, k: K) -> Option<int>
    decreases entries.len(),
{
    if entries.len() == 0 {
        None
    } else {
        match find_index(entries.drop_last(), k) {
            Some(i) => Some(i),
            None => if entries.last().0 == k {
                Some(entries.len() - 1)
            } else {
                None
            },
        }
    }
}

/// The value bound to `k`: that of the first entry with this key.
pub open spec fn find<K, V>(entries: Seq<(K, V)>, k: K) -> Option<V> {
    match find_index(entries, k) {
        Some(i) => Some(entries[i].1),
        None => None,
    }
}

/// `find_index` finds the first entry with the key, if any has it.
pub proof fn lemma_find_index<K, V>(entries: Seq<(K, V)>, k: K)
    ensures
        match find_index(entries, k) {
            Some(i) => 0 <= i < entries.len() && entries[i].0 == k && forall|j: int|
                0 <= j < i ==> (#[trigger] entries[j]).0 != k,
            None => forall|j: int| 0 <= j < entries.len() ==> (#[trigger] entries[j]).0 != k,
        },
    decreases entries.len(),
{
    if entries.len() > 0 {
        lemma_find_index(entries.drop_last(), k);
        assert(forall|j: int|
            0 <= j < entries.len() - 1 ==> entries[j] == entries.drop_last()[j]);
    }
}

/// The first entry with a key is what `find_index` finds.
pub proof fn lemma_find_index_is<K, V>(entries: Seq<(K, V)>, k: K, i: int)
    requires
        0 <= i < entries.len(),
        entries[i].0 == k,
        forall|j: int| 0 <= j < i ==> (#[trigger] entries[j]).0 != k,
    ensures
        find_index(entries, k) == Some(i),
{
    lemma_find_index(entries, k);
}

/// Binding a key: the value of its first entry is replaced, or a new entry
/// is added at the end.
pub open spec fn bind<K, V>(entries: Seq<(K, V)>, k: K, v: V) -> Seq<(K, V)> {
    match find_index(entries, k) {
        Some(i) => entries.update(i, (k, v)),
        None => entries.push((k, v)),
    }
}

/// After binding, the key has the new value and every other key the value
/// it had.
pub proof fn lemma_bind<K, V>(entries: Seq<(K, V)>, k: K, v: V, other: K)
    ensures
        find(bind(entries, k, v), other) == if other == k {
            Some(v)
        } else {
            find(entries, other)
        },
        find_index(entries, other) is Some ==> find_index(bind(entries, k, v), other)
            == find_index(entries, other),
{
    let after = bind(entries, k, v);
    lemma_find_index(entries, k);
    lemma_find_index(entries, other);
    match find_index(entries, other) {
        Some(j) => {
            assert(after[j].0 == other);
            assert(forall|x: int| 0 <= x < j ==> (#[trigger] after[x]).0 == entries[x].0);
            lemma_find_index_is(after, other, j);
        },
        None => {
            if other == k {
                assert(forall|x: int| 0 <= x < entries.len() ==> (#[trigger] after[x]).0 == entries[x].0);
                lemma_find_index_is(after, other, entries.len() as int);
            } else {
                assert(forall|x: int| 0 <= x < after.len() ==> (#[trigger] after[x]).0 != other) by {
                    assert(forall|x: int|
                        0 <= x < entries.len() ==> (#[trigger] after[x]).0 == entries[x].0);
                }
                lemma_find_index(after, other);
            }
        },
    }
}

/// An association table.
#[derive(Debug)]
pub struct Table<K, V> {
    pub entries: Vec<(K, V)>,
}

impl<K, V> View for Table<K, V> {
    type V = Seq<(K, V)>;

    open spec fn view(&self) -> Seq<(K, V)> {
        self.entries@
    }
}

impl<K: TableKey, V> Table<K, V> {
    pub fn new() -> (r: Self)
        ensures
            r@.len() == 0,
    {
        Table { entries: Vec::new() }
    }

    /// The position of the entry with the key `k`.
    pub fn position(&self, k: &K) -> (r: Option<usize>)
        ensures
            match r {
                Some(i) => find_index(self@, *k) == Some(i as int) && i < self@.len(),
                None => find_index(self@, *k) is None,
            },
    {
        let mut i: usize = 0;
        while i < self.entries.len()
            invariant
                i <= self.entries.len(),
                forall|j: int| 0 <= j < i ==> (#[trigger] self.entries@[j]).0 != *k,
            decreases self.entries.len() - i,
        {
            if self.entries[i].0.same(k) {
                proof {
                    lemma_find_index(self@, *k);
                }
                return Some(i);
            }
            i += 1;
        }
        proof {
            lemma_find_index(self@, *k);
        }
        None
    }

    pub fn get(&self, k: &K) -> (r: Option<&V>)
        ensures
            match r {
                Some(v) => find(self@, *k) == Some(*v),
                None => find(self@, *k) is None,
            },
    {
        match self.position(k) {
            Some(i) => Some(&self.entries[i].1),
            None => None,
        }
    }

    pub fn contains_key(&self, k: &K) -> (r: bool)
        ensures
            r == find(self@, *k) is Some,
    {
        self.position(k).is_some()
    }

    pub fn insert(&mut self, k: K, v: V)
        ensures
            final(self)@ == bind(old(self)@, k, v),
    {
        match self.position(&k) {
            Some(i) => {
                self.entries[i] = (k, v);
            },
            None => {
                self.entries.push((k, v));
            },
        }
    }
}

/// The list-valued entries of a table, with the lists as sequences.
pub open spec fn lists<K, T>(entries: Seq<(K, Vec<T>)>) -> Seq<(K, Seq<T>)> {
    entries.map_values(|e: (K, Vec<T>)| (e.0, e.1@))
}

/// The list bound to `k`; the empty list if the key is not bound.
pub open spec fn list_of<K, T>(entries: Seq<(K, Seq<T>)>, k: K) -> Seq<T> {
    match find(entries, k) {
        Some(list) => list,
        None => Seq::empty(),
    }
}

/// Appending `x` to the list bound to `k`.
pub open spec fn add_to<K, T>(entries: Seq<(K, Seq<T>)>, k: K, x: T) -> Seq<(K, Seq<T>)> {
    bind(entries, k, list_of(entries, k).push(x))
}

/// Lookups agree between the entries of a table and their list values.
pub proof fn lemma_lists_find<K, T>(entries: Seq<(K, Vec<T>)>, k: K)
    ensures
        find_index(lists(entries), k) == find_index(entries, k),
    decreases entries.len(),
{
    if entries.len() > 0 {
        assert(lists(entries).drop_last() =~= lists(entries.drop_last()));
        lemma_lists_find(entries.drop_last(), k);
    }
}

impl<K: TableKey, T> Table<K, Vec<T>> {
    /// The entries, with the lists as sequences.
    pub open spec fn lists(&self) -> Seq<(K, Seq<T>)> {
        lists(self@)
    }

    /// The list bound to `k`, if the key is bound.
    pub fn get_list(&self, k: &K) -> (r: Option<&Vec<T>>)
        ensures
            match r {
                Some(v) => find(self.lists(), *k) == Some(v@),
                None => find(self.lists(), *k) is None,
            },
    {
        proof {
            lemma_lists_find(self@, *k);
            lemma_find_index(self@, *k);
        }
        match self.position(k) {
            Some(i) => Some(&self.entries[i].1),
            None => None,
        }
    }

    /// Appends `x` to the list bound to `k`, binding an empty list first
    /// if the key is new.
    pub fn push_to(&mut self, k: K, x: T)
        ensures
            final(self).lists() == add_to(old(self).lists(), k, x),
    {
        proof {
            lemma_lists_find(self@, k);
            lemma_find_index(self@, k);
        }
        match self.position(&k) {
            Some(i) => {
                self.entries[i].1.push(x);
                proof {
                    assert(self.lists() =~= add_to(old(self).lists(), k, x));
                }
            },
            None => {
                let mut list: Vec<T> = Vec::new();
                list.push(x);
                self.entries.push((k, list));
                proof {
                    assert(list@ =~= Seq::<T>::empty().push(x));
                    assert(self.lists() =~= add_to(old(self).lists(), k, x));
                }
            },
        }
    }
}

} // verus!
