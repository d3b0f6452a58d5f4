//! Maps that remember the order of their entries: one from paths, one from element numbers.
//!
//! An entry is found by hashing. New entries go to the end, and a removed entry is replaced by the
//! last one, so removal does not shift the others.
use crate::text;
use std::collections::HashMap;
use vstd::hash_map::*;
use vstd::prelude::*;
use vstd::std_specs::hash::*;

verus! {

// ---------------------------------------------------------------------------------------------
// lists of entries

/// The position of `key` from `i` on, or the length of the list.
pub open spec fn position<K, T>(s: Seq<(K, T)>, key: K, i: int) -> int
    decreases s.len() - i,
{
    if i >= s.len() {
        s.len() as int
    } else if s[i].0 == key {
        i
    } else {
        position(s, key, i + 1)
    }
}

/// There is an entry for `key`.
pub open spec fn present<K, T>(s: Seq<(K, T)>, key: K) -> bool {
    position(s, key, 0) < s.len()
}

/// The value of `key`.
pub open spec fn lookup<K, T>(s: Seq<(K, T)>, key: K) -> Option<T> {
    if present(s, key) {
        Some(s[position(s, key, 0)].1)
    } else {
        None
    }
}

/// The list after `key` was given a value: an existing entry stays where it is.
pub open spec fn put<K, T>(s: Seq<(K, T)>, key: K, value: T) -> Seq<(K, T)> {
    if present(s, key) {
        s.update(position(s, key, 0), (key, value))
    } else {
        s.push((key, value))
    }
}

/// The list after the entry at `k` was removed: the last entry takes its place.
pub open spec fn swap_out<T>(s: Seq<T>, k: int) -> Seq<T> {
    s.update(k, s.last()).drop_last()
}

/// The list after the entry of `key` was removed.
pub open spec fn without<K, T>(s: Seq<(K, T)>, key: K) -> Seq<(K, T)> {
    if present(s, key) {
        swap_out(s, position(s, key, 0))
    } else {
        s
    }
}

/// No key occurs twice.
pub open spec fn unique<K, T>(s: Seq<(K, T)>) -> bool {
    forall|i: int, j: int| 0 <= i < j < s.len() ==> #[trigger] s[i].0 != #[trigger] s[j].0
}

pub proof fn lemma_position<K, T>(s: Seq<(K, T)>, key: K, i: int)
    requires
        0 <= i <= s.len(),
    ensures
        i <= position(s, key, i) <= s.len(),
        position(s, key, i) < s.len() ==> s[position(s, key, i)].0 == key,
        forall|j: int| i <= j < position(s, key, i) ==> #[trigger] s[j].0 != key,
    decreases s.len() - i,
{
    if i < s.len() && s[i].0 != key {
        lemma_position(s, key, i + 1);
    }
}

/// In a list without double keys the position of a key is where the key stands.
pub proof fn lemma_position_at<K, T>(s: Seq<(K, T)>, k: int)
    requires
        unique(s),
        0 <= k < s.len(),
    ensures
        position(s, s[k].0, 0) == k,
{
    lemma_position(s, s[k].0, 0);
}

pub proof fn lemma_put_unique<K, T>(s: Seq<(K, T)>, key: K, value: T)
    requires
        unique(s),
    ensures
        unique(put(s, key, value)),
{
    lemma_position(s, key, 0);
}

pub proof fn lemma_without_unique<K, T>(s: Seq<(K, T)>, key: K)
    requires
        unique(s),
    ensures
        unique(without(s, key)),
{
    lemma_position(s, key, 0);
}

/// A key has the value that it was given last, and giving a value to one key leaves the others alone.
pub proof fn law_put_lookup<K, T>(s: Seq<(K, T)>, key: K, value: T, other: K)
    requires
        unique(s),
    ensures
        lookup(put(s, key, value), other) == (if other == key {
            Some(value)
        } else {
            lookup(s, other)
        }),
{
    let t = put(s, key, value);
    lemma_put_unique(s, key, value);
    lemma_position(s, key, 0);
    lemma_position(s, other, 0);
    lemma_position(t, other, 0);
    if other == key {
        let k = position(s, key, 0);
        assert(t[k].0 == key);
        lemma_position_at(t, k);
    } else if present(s, other) {
        let k = position(s, other, 0);
        assert(t[k] == s[k]);
        lemma_position_at(t, k);
    } else if present(t, other) {
        let k = position(t, other, 0);
        assert(k < s.len() ==> s[k].0 != other);
    }
}

/// A removed key has no value any more, and removing one key leaves the others alone.
pub proof fn law_without_lookup<K, T>(s: Seq<(K, T)>, key: K, other: K)
    requires
        unique(s),
    ensures
        lookup(without(s, key), other) == (if other == key {
            None
        } else {
            lookup(s, other)
        }),
{
    let t = without(s, key);
    lemma_without_unique(s, key);
    lemma_position(s, key, 0);
    lemma_position(s, other, 0);
    lemma_position(t, other, 0);
    if present(s, key) {
        let gone = position(s, key, 0);
        if other == key {
            if present(t, key) {
                let k = position(t, key, 0);
                assert(t[k].0 == key);
            }
        } else if present(s, other) {
            let k = position(s, other, 0);
            let k2 = if k == s.len() - 1 {
                gone
            } else {
                k
            };
            assert(t[k2] == s[k]);
            lemma_position_at(t, k2);
        } else if present(t, other) {
            let k = position(t, other, 0);
            assert(t[k].0 == other);
            if k == gone {
                assert(s[s.len() - 1].0 == other);
            } else {
                assert(s[k].0 == other);
            }
        }
    }
}

// ---------------------------------------------------------------------------------------------
// a map from paths

/// A map from paths to values.
pub struct PathMap<V> {
    entries: Vec<(String, V)>,
    index: StringHashMap<usize>,
}

impl<V: View> View for PathMap<V> {
    type V = Seq<(Seq<char>, V::V)>;

    closed spec fn view(&self) -> Seq<(Seq<char>, V::V)> {
        self.entries@.map_values(|e: (String, V)| (e.0@, e.1@))
    }
}

impl<V: View> PathMap<V> {
    /// The index says that `key` stands at `i`.
    spec fn index_is(&self, key: Seq<char>, i: int) -> bool {
        self.index@.contains_key(key) && self.index@[key] == i
    }

    /// The index and the entries agree.
    pub closed spec fn wf(&self) -> bool {
        &&& forall|i: int|
            0 <= i < self.entries@.len() ==> self.index_is((#[trigger] self.entries@[i]).0@, i)
        &&& forall|k: Seq<char>| #[trigger]
            self.index@.contains_key(k) ==> self.index@[k] < self.entries@.len()
                && self.entries@[self.index@[k] as int].0@ == k
    }

    pub proof fn lemma_unique(&self)
        requires
            self.wf(),
        ensures
            unique(self@),
    {
        assert forall|i: int, j: int| 0 <= i < j < self@.len() implies #[trigger] self@[i].0
            != #[trigger] self@[j].0 by {
            assert(self.index_is(self.entries@[i].0@, i));
            assert(self.index_is(self.entries@[j].0@, j));
        }
    }

    proof fn lemma_index(&self, key: Seq<char>)
        requires
            self.wf(),
        ensures
            present(self@, key) == self.index@.contains_key(key),
            present(self@, key) ==> position(self@, key, 0) == self.index@[key],
    {
        self.lemma_unique();
        lemma_position(self@, key, 0);
        if self.index@.contains_key(key) {
            lemma_position_at(self@, self.index@[key] as int);
        }
        if present(self@, key) {
            let k = position(self@, key, 0);
            assert(self.entries@[k].0@ == key);
        }
    }

    /// An empty map.
    pub fn new() -> (r: Self)
        ensures
            r.wf(),
            r@ == Seq::<(Seq<char>, V::V)>::empty(),
    {
        let r = PathMap { entries: Vec::new(), index: StringHashMap::new() };
        assert(r@ =~= Seq::<(Seq<char>, V::V)>::empty());
        r
    }

    /// The number of entries.
    pub fn len(&self) -> (r: usize)
        ensures
            r == self@.len(),
    {
        self.entries.len()
    }

    /// The path of the entry at `i`.
    pub fn key_at(&self, i: usize) -> (r: &String)
        requires
            i < self@.len(),
        ensures
            r@ == self@[i as int].0,
    {
        &self.entries[i].0
    }

    /// The value of the entry at `i`.
    pub fn value_at(&self, i: usize) -> (r: &V)
        requires
            i < self@.len(),
        ensures
            r@ == self@[i as int].1,
    {
        &self.entries[i].1
    }

    /// Where the entry of `key` stands.
    pub fn find(&self, key: &str) -> (r: Option<usize>)
        requires
            self.wf(),
        ensures
            match r {
                None => !present(self@, key@),
                Some(i) => present(self@, key@) && i == position(self@, key@, 0) && i < self@.len(),
            },
    {
        proof {
            self.lemma_index(key@);
        }
        match self.index.get(key) {
            None => None,
            Some(i) => Some(*i),
        }
    }

    /// The value of `key`.
    pub fn get(&self, key: &str) -> (r: Option<&V>)
        requires
            self.wf(),
        ensures
            match r {
                None => lookup(self@, key@) is None,
                Some(v) => lookup(self@, key@) == Some(v@),
            },
    {
        match self.find(key) {
            None => None,
            Some(i) => Some(&self.entries[i].1),
        }
    }

    /// Give `key` a value.
    pub fn insert(&mut self, key: String, value: V)
        requires
            old(self).wf(),
        ensures
            final(self).wf(),
            final(self)@ == put(old(self)@, key@, value@),
    {
        let ghost before = self@;
        proof {
            lemma_position(before, key@, 0);
        }
        match self.find(key.as_str()) {
            Some(i) => {
                self.entries[i] = (key, value);
                assert(self@ =~= put(before, key@, value@));
            },
            None => {
                let n: usize = self.entries.len();
                proof {
                    self.lemma_index(key@);
                }
                let ghost old_entries = self.entries@;
                self.index.insert(key.clone(), n);
                self.entries.push((key, value));
                proof {
                    assert forall|i: int| 0 <= i < self.entries@.len() implies self.index_is((#[trigger] self.entries@[i]).0@, i) by {
                        if i < n {
                            assert(self.entries@[i] == old_entries[i]);
                        }
                    }
                    assert forall|k: Seq<char>| #[trigger] self.index@.contains_key(
                        k,
                    ) implies self.index@[k] < self.entries@.len()
                        && self.entries@[self.index@[k] as int].0@ == k by {
                        if k != key@ {
                            assert(old(self).index@.contains_key(k));
                        }
                    }
                }
                assert(self@ =~= put(before, key@, value@));
            },
        }
    }

    /// Remove the entry of `key`.
    pub fn remove(&mut self, key: &str) -> (r: Option<V>)
        requires
            old(self).wf(),
        ensures
            final(self).wf(),
            final(self)@ == without(old(self)@, key@),
            match r {
                None => lookup(old(self)@, key@) is None,
                Some(v) => lookup(old(self)@, key@) == Some(v@),
            },
    {
        let ghost before = self@;
        let ghost old_entries = self.entries@;
        let ghost old_index = self.index@;
        proof {
            lemma_position(before, key@, 0);
            self.lemma_index(key@);
            self.lemma_unique();
        }
        match self.find(key) {
            None => None,
            Some(i) => {
                let (_, value) = self.entries.swap_remove(i);
                self.index.remove(key);
                if i < self.entries.len() {
                    self.index.insert(self.entries[i].0.clone(), i);
                }
                proof {
                    let last = old_entries.len() - 1;
                    assert forall|j: int| 0 <= j < self.entries@.len() implies self.index_is((#[trigger] self.entries@[j]).0@, j) by {
                        if j == i {
                            assert(self.entries@[j] == old_entries[last]);
                        } else {
                            assert(self.entries@[j] == old_entries[j]);
                            assert(before[j].0 != before[i as int].0);
                            assert(before[j].0 != before[last].0);
                        }
                    }
                    assert forall|k: Seq<char>| #[trigger] self.index@.contains_key(
                        k,
                    ) implies self.index@[k] < self.entries@.len()
                        && self.entries@[self.index@[k] as int].0@ == k by {
                        assert(old_index.contains_key(k)) by {
                            if i < self.entries@.len() && k == self.entries@[i as int].0@ {
                                assert(self.entries@[i as int] == old_entries[last]);
                            }
                        }
                        let j = old_index[k] as int;
                        assert(old_entries[j].0@ == k);
                        if j == last {
                            assert(i < last);
                            assert(self.entries@[i as int] == old_entries[last]);
                        } else {
                            assert(self.entries@[j] == old_entries[j] || j == i);
                            assert(before[j].0 == k);
                            assert(before[last].0 != k);
                        }
                    }
                    assert(self@ =~= without(before, key@));
                }
                Some(value)
            },
        }
    }

    /// Remove all entries.
    pub fn clear(&mut self)
        ensures
            final(self).wf(),
            final(self)@ == Seq::<(Seq<char>, V::V)>::empty(),
    {
        self.entries.clear();
        self.index.clear();
        assert(self@ =~= Seq::<(Seq<char>, V::V)>::empty());
    }
}

// ---------------------------------------------------------------------------------------------
// lists of element numbers under a path

/// The first position of `x` from `i` on, or the length of the list.
pub open spec fn first_at(s: Seq<usize>, x: usize, i: int) -> int
    decreases s.len() - i,
{
    if i >= s.len() {
        s.len() as int
    } else if s[i] == x {
        i
    } else {
        first_at(s, x, i + 1)
    }
}

/// The list without the first occurrence of `x`, whose place the last item takes.
pub open spec fn drop_first(s: Seq<usize>, x: usize) -> Seq<usize> {
    if first_at(s, x, 0) < s.len() {
        swap_out(s, first_at(s, x, 0))
    } else {
        s
    }
}

/// The map after `x` was added to the list of `key`.
pub open spec fn added(s: Seq<(Seq<char>, Seq<usize>)>, key: Seq<char>, x: usize) -> Seq<
    (Seq<char>, Seq<usize>),
> {
    put(
        s,
        key,
        match lookup(s, key) {
            None => seq![x],
            Some(l) => l.push(x),
        },
    )
}

/// The map after `x` was taken out of the list of `key`; a list that becomes empty is removed.
pub open spec fn taken(s: Seq<(Seq<char>, Seq<usize>)>, key: Seq<char>, x: usize) -> Seq<
    (Seq<char>, Seq<usize>),
> {
    match lookup(s, key) {
        None => s,
        Some(l) => {
            let rest = drop_first(l, x);
            if rest.len() == 0 {
                without(s, key)
            } else {
                put(s, key, rest)
            }
        },
    }
}

/// A list with the items of another one from the `k`th on, apart from those that it has already.
pub open spec fn with_all(list: Seq<usize>, more: Seq<usize>, k: int) -> Seq<usize>
    decreases more.len() - k,
{
    if k >= more.len() {
        list
    } else if list.contains(more[k]) {
        with_all(list, more, k + 1)
    } else {
        with_all(list.push(more[k]), more, k + 1)
    }
}

/// The map after the items of a list were added to the list of `key`.
pub open spec fn extended(s: Seq<(Seq<char>, Seq<usize>)>, key: Seq<char>, more: Seq<usize>) -> Seq<
    (Seq<char>, Seq<usize>),
> {
    put(
        s,
        key,
        match lookup(s, key) {
            None => more,
            Some(list) => with_all(list, more, 0),
        },
    )
}

impl PathMap<Vec<usize>> {
    /// Add the items of a list to the list of `key`.
    pub fn extend(&mut self, key: String, more: Vec<usize>)
        requires
            old(self).wf(),
        ensures
            final(self).wf(),
            final(self)@ == extended(old(self)@, key@, more@),
    {
        let ghost before = self@;
        match self.find(key.as_str()) {
            None => {
                self.insert(key, more);
            },
            Some(i) => {
                let ghost list = self.entries@[i as int].1@;
                proof {
                    lemma_position(before, key@, 0);
                    assert(lookup(before, key@) == Some(list));
                    assert(self@ =~= put(before, key@, list));
                }
                let mut k: usize = 0;
                while k < more.len()
                    invariant
                        self.wf(),
                        k <= more@.len(),
                        i < self.entries@.len(),
                        i == position(before, key@, 0),
                        i < before.len(),
                        self@ == put(before, key@, self.entries@[i as int].1@),
                        with_all(list, more@, 0) == with_all(
                            self.entries@[i as int].1@,
                            more@,
                            k as int,
                        ),
                    decreases more@.len() - k,
                {
                    let x: usize = more[k];
                    if !holds(&self.entries[i].1, x) {
                        let ghost old_entries = self.entries@;
                        let ghost mid = self@;
                        assert(mid == before.update(i as int, (key@, old_entries[i as int].1@)));
                        self.entries[i].1.push(x);
                        proof {
                            assert(self.entries@.len() == old_entries.len());
                            assert(mid.len() == before.len() && mid.len() == old_entries.len());
                            assert(self@.len() == before.len());
                            assert(forall|j: int|
                                0 <= j < self.entries@.len() ==> (#[trigger] self.entries@[j]).0
                                    == old_entries[j].0);
                            assert forall|j: int| 0 <= j < self@.len() && j != i implies #[trigger] self@[j]
                                == before[j] by {
                                assert(mid[j] == before[j]);
                                assert(self.entries@[j] == old_entries[j]);
                            }
                            assert(mid[i as int].0 == key@);
                            assert(self@[i as int].0 == mid[i as int].0);
                            assert(self@ =~= put(before, key@, self.entries@[i as int].1@));
                        }
                    }
                    k += 1;
                }
            },
        }
    }

    /// Add `x` to the list of `key`.
    pub fn add_to(&mut self, key: &str, x: usize)
        requires
            old(self).wf(),
        ensures
            final(self).wf(),
            final(self)@ == added(old(self)@, key@, x),
    {
        let ghost before = self@;
        match self.find(key) {
            None => {
                let mut list: Vec<usize> = Vec::new();
                list.push(x);
                assert(list@ =~= seq![x]);
                self.insert(key.to_owned(), list);
            },
            Some(i) => {
                let ghost old_entries = self.entries@;
                self.entries[i].1.push(x);
                proof {
                    lemma_position(before, key@, 0);
                    assert(forall|j: int|
                        0 <= j < self.entries@.len() ==> (#[trigger] self.entries@[j]).0
                            == old_entries[j].0);
                    assert(self@ =~= added(before, key@, x));
                }
            },
        }
    }

    /// Take `x` out of the list of `key`.
    pub fn take_from(&mut self, key: &str, x: usize)
        requires
            old(self).wf(),
        ensures
            final(self).wf(),
            final(self)@ == taken(old(self)@, key@, x),
    {
        let ghost before = self@;
        if let Some(i) = self.find(key) {
            let ghost old_entries = self.entries@;
            let ghost list = old_entries[i as int].1@;
            proof {
                lemma_position(before, key@, 0);
                assert(lookup(before, key@) == Some(list));
            }
            let at: usize = first_of(&self.entries[i].1, x);
            if at < self.entries[i].1.len() {
                let _ = self.entries[i].1.swap_remove(at);
            }
            proof {
                assert(self.entries@[i as int].1@ =~= drop_first(list, x));
                assert(forall|j: int|
                    0 <= j < self.entries@.len() ==> (#[trigger] self.entries@[j]).0
                        == old_entries[j].0);
                assert(self@ =~= put(before, key@, drop_first(list, x)));
            }
            if self.entries[i].1.len() == 0 {
                let ghost mid = self@;
                let _ = self.remove(key);
                proof {
                    old(self).lemma_unique();
                    lemma_put_unique(before, key@, drop_first(list, x));
                    lemma_position_at(mid, i as int);
                    assert(without(mid, key@) =~= without(before, key@));
                }
            }
        }
    }
}

/// Whether `x` is in a list.
fn holds(list: &Vec<usize>, x: usize) -> (r: bool)
    ensures
        r == list@.contains(x),
{
    let mut i: usize = 0;
    while i < list.len()
        invariant
            i <= list@.len(),
            forall|j: int| 0 <= j < i ==> #[trigger] list@[j] != x,
        decreases list@.len() - i,
    {
        if list[i] == x {
            return true;
        }
        i += 1;
    }
    false
}

/// The first position of `x`, or the length of the list.
fn first_of(list: &Vec<usize>, x: usize) -> (r: usize)
    ensures
        r == first_at(list@, x, 0),
        r <= list@.len(),
{
    let mut i: usize = 0;
    while i < list.len()
        invariant
            i <= list@.len(),
            first_at(list@, x, 0) == first_at(list@, x, i as int),
        decreases list@.len() - i,
    {
        if list[i] == x {
            return i;
        }
        i += 1;
    }
    i
}

// ---------------------------------------------------------------------------------------------
// a map from element numbers

/// A map from element numbers to optional paths.
pub struct TargetMap {
    entries: Vec<(usize, Option<String>)>,
    index: HashMap<usize, usize>,
}

impl View for TargetMap {
    type V = Seq<(usize, Option<Seq<char>>)>;

    closed spec fn view(&self) -> Seq<(usize, Option<Seq<char>>)> {
        self.entries@.map_values(|e: (usize, Option<String>)| (e.0, text::opt_text(e.1)))
    }
}

impl TargetMap {
    /// The index says that `key` stands at `i`.
    spec fn index_is(&self, key: usize, i: int) -> bool {
        self.index@.contains_key(key) && self.index@[key] == i
    }

    /// The index and the entries agree.
    pub closed spec fn wf(&self) -> bool {
        &&& forall|i: int|
            0 <= i < self.entries@.len() ==> self.index_is((#[trigger] self.entries@[i]).0, i)
        &&& forall|k: usize| #[trigger]
            self.index@.contains_key(k) ==> self.index@[k] < self.entries@.len()
                && self.entries@[self.index@[k] as int].0 == k
    }

    pub proof fn lemma_unique(&self)
        requires
            self.wf(),
        ensures
            unique(self@),
    {
        assert forall|i: int, j: int| 0 <= i < j < self@.len() implies #[trigger] self@[i].0
            != #[trigger] self@[j].0 by {
            assert(self.index_is(self.entries@[i].0, i));
            assert(self.index_is(self.entries@[j].0, j));
        }
    }

    proof fn lemma_index(&self, key: usize)
        requires
            self.wf(),
        ensures
            present(self@, key) == self.index@.contains_key(key),
            present(self@, key) ==> position(self@, key, 0) == self.index@[key],
    {
        self.lemma_unique();
        lemma_position(self@, key, 0);
        if self.index@.contains_key(key) {
            lemma_position_at(self@, self.index@[key] as int);
        }
        if present(self@, key) {
            let k = position(self@, key, 0);
            assert(self.entries@[k].0 == key);
        }
    }

    /// An empty map.
    pub fn new() -> (r: Self)
        ensures
            r.wf(),
            r@ == Seq::<(usize, Option<Seq<char>>)>::empty(),
    {
        let r = TargetMap { entries: Vec::new(), index: HashMap::new() };
        assert(r@ =~= Seq::<(usize, Option<Seq<char>>)>::empty());
        r
    }

    /// The number of entries.
    pub fn len(&self) -> (r: usize)
        ensures
            r == self@.len(),
    {
        self.entries.len()
    }

    /// The element number of the entry at `i`.
    pub fn key_at(&self, i: usize) -> (r: usize)
        requires
            i < self@.len(),
        ensures
            r == self@[i as int].0,
    {
        self.entries[i].0
    }

    /// The path of the entry at `i`.
    pub fn value_at(&self, i: usize) -> (r: &Option<String>)
        requires
            i < self@.len(),
        ensures
            text::opt_text(*r) == self@[i as int].1,
    {
        &self.entries[i].1
    }

    /// Where the entry of `key` stands.
    pub fn find(&self, key: usize) -> (r: Option<usize>)
        requires
            self.wf(),
        ensures
            match r {
                None => !present(self@, key),
                Some(i) => present(self@, key) && i == position(self@, key, 0) && i < self@.len(),
            },
    {
        broadcast use group_hash_axioms;

        proof {
            self.lemma_index(key);
        }
        match self.index.get(&key) {
            None => None,
            Some(i) => Some(*i),
        }
    }

    /// The path of `key`.
    pub fn get(&self, key: usize) -> (r: Option<&Option<String>>)
        requires
            self.wf(),
        ensures
            match r {
                None => lookup(self@, key) is None,
                Some(v) => lookup(self@, key) == Some(text::opt_text(*v)),
            },
    {
        match self.find(key) {
            None => None,
            Some(i) => Some(&self.entries[i].1),
        }
    }

    /// Give `key` a path.
    pub fn insert(&mut self, key: usize, value: Option<String>)
        requires
            old(self).wf(),
        ensures
            final(self).wf(),
            final(self)@ == put(old(self)@, key, text::opt_text(value)),
    {
        broadcast use group_hash_axioms;

        let ghost before = self@;
        proof {
            lemma_position(before, key, 0);
        }
        match self.find(key) {
            Some(i) => {
                self.entries[i] = (key, value);
                assert(self@ =~= put(before, key, text::opt_text(value)));
            },
            None => {
                let n: usize = self.entries.len();
                proof {
                    self.lemma_index(key);
                }
                let ghost old_entries = self.entries@;
                self.index.insert(key, n);
                self.entries.push((key, value));
                proof {
                    assert forall|i: int| 0 <= i < self.entries@.len() implies self.index_is((#[trigger] self.entries@[i]).0, i) by {
                        if i < n {
                            assert(self.entries@[i] == old_entries[i]);
                        }
                    }
                    assert forall|k: usize| #[trigger] self.index@.contains_key(
                        k,
                    ) implies self.index@[k] < self.entries@.len()
                        && self.entries@[self.index@[k] as int].0 == k by {
                        if k != key {
                            assert(old(self).index@.contains_key(k));
                        }
                    }
                }
                assert(self@ =~= put(before, key, text::opt_text(value)));
            },
        }
    }

    /// Remove the entry of `key`.
    pub fn remove(&mut self, key: usize) -> (r: Option<Option<String>>)
        requires
            old(self).wf(),
        ensures
            final(self).wf(),
            final(self)@ == without(old(self)@, key),
            match r {
                None => lookup(old(self)@, key) is None,
                Some(v) => lookup(old(self)@, key) == Some(text::opt_text(v)),
            },
    {
        broadcast use group_hash_axioms;

        let ghost before = self@;
        let ghost old_entries = self.entries@;
        let ghost old_index = self.index@;
        proof {
            lemma_position(before, key, 0);
            self.lemma_index(key);
            self.lemma_unique();
        }
        match self.find(key) {
            None => None,
            Some(i) => {
                let (_, value) = self.entries.swap_remove(i);
                self.index.remove(&key);
                if i < self.entries.len() {
                    self.index.insert(self.entries[i].0, i);
                }
                proof {
                    let last = old_entries.len() - 1;
                    assert forall|j: int| 0 <= j < self.entries@.len() implies self.index_is((#[trigger] self.entries@[j]).0, j) by {
                        if j == i {
                            assert(self.entries@[j] == old_entries[last]);
                        } else {
                            assert(self.entries@[j] == old_entries[j]);
                            assert(before[j].0 != before[i as int].0);
                            assert(before[j].0 != before[last].0);
                        }
                    }
                    assert forall|k: usize| #[trigger] self.index@.contains_key(
                        k,
                    ) implies self.index@[k] < self.entries@.len()
                        && self.entries@[self.index@[k] as int].0 == k by {
                        assert(old_index.contains_key(k)) by {
                            if i < self.entries@.len() && k == self.entries@[i as int].0 {
                                assert(self.entries@[i as int] == old_entries[last]);
                            }
                        }
                        let j = old_index[k] as int;
                        assert(old_entries[j].0 == k);
                        if j == last {
                            assert(i < last);
                            assert(self.entries@[i as int] == old_entries[last]);
                        } else {
                            assert(self.entries@[j] == old_entries[j] || j == i);
                            assert(before[j].0 == k);
                            assert(before[last].0 != k);
                        }
                    }
                    assert(self@ =~= without(before, key));
                }
                Some(value)
            },
        }
    }

    /// Remove all entries.
    pub fn clear(&mut self)
        ensures
            final(self).wf(),
            final(self)@ == Seq::<(usize, Option<Seq<char>>)>::empty(),
    {
        broadcast use group_hash_axioms;

        self.entries.clear();
        self.index.clear();
        assert(self@ =~= Seq::<(usize, Option<Seq<char>>)>::empty());
    }
}

} // verus!
