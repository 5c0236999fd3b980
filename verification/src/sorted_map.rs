//! A map that keeps its entries in the order of their keys.
use vstd::prelude::*;

use crate::order::strict_total;
use crate::order::OrderedKey;
use crate::order::Rank;

verus! {

/// Entries in strictly increasing key order, found by binary search.
pub struct SortedMap<K: OrderedKey, V> {
    items: Vec<(K, V)>,
}

spec fn increasing<K: OrderedKey, V>(items: Seq<(K, V)>) -> bool {
    forall|i: int, j: int|
        0 <= i < j < items.len() ==> K::before(#[trigger] items[i].0@, #[trigger] items[j].0@)
}

spec fn holds_at<K: OrderedKey, V>(items: Seq<(K, V)>, i: int, key: K::V) -> bool {
    0 <= i < items.len() && items[i].0@ == key
}

spec fn as_map<K: OrderedKey, V>(items: Seq<(K, V)>) -> Map<K::V, V> {
    Map::new(
        |key: K::V| exists|i: int| holds_at(items, i, key),
        |key: K::V| items[choose|i: int| holds_at(items, i, key)].1,
    )
}

proof fn lemma_holds_once<K: OrderedKey, V>(items: Seq<(K, V)>, i: int, j: int, key: K::V)
    requires
        increasing(items),
        holds_at(items, i, key),
        holds_at(items, j, key),
    ensures
        i == j,
{
    K::lemma_strict_total();
    let before = |a: K::V, b: K::V| K::before(a, b);
    assert(!before(key, key));
    if i < j {
        assert(K::before(items[i].0@, items[j].0@));
    } else if j < i {
        assert(K::before(items[j].0@, items[i].0@));
    }
}

proof fn lemma_as_map_at<K: OrderedKey, V>(items: Seq<(K, V)>, i: int)
    requires
        increasing(items),
        0 <= i < items.len(),
    ensures
        as_map(items).contains_key(items[i].0@),
        as_map(items)[items[i].0@] == items[i].1,
{
    let key = items[i].0@;
    assert(holds_at(items, i, key));
    let j = choose|j: int| holds_at(items, j, key);
    lemma_holds_once(items, i, j, key);
}

impl<K: OrderedKey, V> View for SortedMap<K, V> {
    type V = Map<K::V, V>;

    closed spec fn view(&self) -> Map<K::V, V> {
        as_map(self.items@)
    }
}

impl<K: OrderedKey, V> SortedMap<K, V> {
    #[verifier::type_invariant]
    spec fn in_order(self) -> bool {
        increasing(self.items@)
    }

    /// The keys, in the order of the entries.
    pub closed spec fn keys(&self) -> Seq<K::V> {
        self.items@.map_values(|item: (K, V)| item.0@)
    }

    pub fn new() -> (map: Self)
        ensures
            map@ == Map::<K::V, V>::empty(),
            map.keys() == Seq::<K::V>::empty(),
    {
        let map = SortedMap { items: Vec::new() };
        assert forall|key: K::V| !#[trigger] map@.contains_key(key) by {
            assert(forall|i: int| !holds_at(map.items@, i, key));
        }
        assert(map@ =~= Map::<K::V, V>::empty());
        map
    }

    /// The number of entries. Their keys are those of the map, each once and in increasing order.
    pub fn len(&self) -> (n: usize)
        ensures
            n == self.keys().len(),
            forall|key: K::V| self@.contains_key(key) <==> #[trigger] self.keys().contains(key),
            forall|i: int, j: int|
                0 <= i < j < self.keys().len() ==> K::before(
                    #[trigger] self.keys()[i],
                    #[trigger] self.keys()[j],
                ),
    {
        proof {
            use_type_invariant(self);
            assert forall|key: K::V|
                self@.contains_key(key) <==> #[trigger] self.keys().contains(key) by {
                if self@.contains_key(key) {
                    let i = choose|i: int| holds_at(self.items@, i, key);
                    assert(self.keys()[i] == key);
                }
                if self.keys().contains(key) {
                    let i = self.keys().index_of(key);
                    assert(holds_at(self.items@, i, key));
                }
            }
        }
        self.items.len()
    }

    /// The entry at position `i` of the key order.
    pub fn at(&self, i: usize) -> (entry: (&K, &V))
        requires
            i < self.keys().len(),
        ensures
            entry.0@ == self.keys()[i as int],
            self@.contains_key(entry.0@),
            self@[entry.0@] == *entry.1,
    {
        proof {
            use_type_invariant(self);
            lemma_as_map_at(self.items@, i as int);
        }
        (&self.items[i].0, &self.items[i].1)
    }
}

/// Where `key` is, or where it would be inserted.
fn locate<K: OrderedKey, V>(items: &Vec<(K, V)>, key: &K) -> (found: Result<usize, usize>)
    requires
        increasing(items@),
    ensures
        match found {
            Ok(i) => holds_at(items@, i as int, key@),
            Err(i) => {
                &&& i <= items@.len()
                &&& forall|j: int| 0 <= j < i ==> K::before(#[trigger] items@[j].0@, key@)
                &&& forall|j: int| i <= j < items@.len() ==> K::before(
                    key@,
                    #[trigger] items@[j].0@,
                )
                &&& forall|j: int| !holds_at(items@, j, key@)
            },
        },
{
    let mut low: usize = 0;
    let mut high: usize = items.len();
    proof {
        K::lemma_strict_total();
    }
    let ghost before = |a: K::V, b: K::V| K::before(a, b);
    while low < high
        invariant
            low <= high <= items@.len(),
            increasing(items@),
            before == (|a: K::V, b: K::V| K::before(a, b)),
            strict_total(before),
            forall|j: int| 0 <= j < low ==> K::before(#[trigger] items@[j].0@, key@),
            forall|j: int| high <= j < items@.len() ==> K::before(key@, #[trigger] items@[j].0@),
        decreases high - low,
    {
        let middle: usize = low + (high - low) / 2;
        match items[middle].0.rank(key) {
            Rank::Before => {
                assert forall|j: int| 0 <= j < middle + 1 implies K::before(
                    #[trigger] items@[j].0@,
                    key@,
                ) by {
                    if j < middle {
                        assert(before(items@[j].0@, items@[middle as int].0@));
                        assert(before(items@[middle as int].0@, key@));
                        assert(before(items@[j].0@, key@));
                    }
                }
                low = middle + 1;
            },
            Rank::Same => {
                return Ok(middle);
            },
            Rank::After => {
                assert forall|j: int| middle <= j < items@.len() implies K::before(
                    key@,
                    #[trigger] items@[j].0@,
                ) by {
                    if middle < j {
                        assert(before(items@[middle as int].0@, items@[j].0@));
                        assert(before(key@, items@[middle as int].0@));
                        assert(before(key@, items@[j].0@));
                    }
                }
                high = middle;
            },
        }
    }
    assert forall|j: int| !holds_at(items@, j, key@) by {
        assert(!before(key@, key@));
        if 0 <= j < items@.len() {
            if j < low {
                assert(K::before(items@[j].0@, key@));
            } else {
                assert(K::before(key@, items@[j].0@));
            }
        }
    }
    Err(low)
}

impl<K: OrderedKey, V> SortedMap<K, V> {
    pub fn get(&self, key: &K) -> (value: Option<&V>)
        ensures
            match value {
                Some(v) => self@.contains_key(key@) && self@[key@] == *v,
                None => !self@.contains_key(key@),
            },
    {
        proof {
            use_type_invariant(self);
        }
        match locate(&self.items, key) {
            Ok(i) => {
                proof {
                    lemma_as_map_at(self.items@, i as int);
                }
                Some(&self.items[i].1)
            },
            Err(_) => None,
        }
    }

    pub fn contains_key(&self, key: &K) -> (found: bool)
        ensures
            found == self@.contains_key(key@),
    {
        self.get(key).is_some()
    }

    /// Binds `key` to `value`, in place of what it was bound to.
    pub fn insert(&mut self, key: K, value: V)
        ensures
            final(self)@ == old(self)@.insert(key@, value),
    {
        proof {
            use_type_invariant(&*self);
        }
        let ghost was = self.items@;
        let ghost k = key@;
        let mut items: Vec<(K, V)> = Vec::new();
        std::mem::swap(&mut items, &mut self.items);
        match locate(&items, &key) {
            Ok(i) => {
                proof {
                    lemma_as_map_at(was, i as int);
                }
                items[i] = (key, value);
                let ghost now = items@;
                proof {
                    assert forall|a: int, b: int| 0 <= a < b < now.len() implies K::before(
                        #[trigger] now[a].0@,
                        #[trigger] now[b].0@,
                    ) by {
                        assert(K::before(was[a].0@, was[b].0@));
                    }
                    assert forall|x: K::V|
                        as_map(now).contains_key(x) <==> #[trigger] as_map(was).insert(
                            k,
                            value,
                        ).contains_key(x) by {
                        if as_map(now).contains_key(x) {
                            let j = choose|j: int| holds_at(now, j, x);
                            assert(holds_at(was, j, x));
                        }
                        if as_map(was).contains_key(x) {
                            let j = choose|j: int| holds_at(was, j, x);
                            assert(holds_at(now, j, x));
                        }
                    }
                    assert forall|x: K::V| #[trigger] as_map(now).contains_key(x) implies as_map(
                        now,
                    )[x] == as_map(was).insert(k, value)[x] by {
                        let j = choose|j: int| holds_at(now, j, x);
                        lemma_as_map_at(now, j);
                        lemma_as_map_at(was, j);
                        if x == k {
                            lemma_holds_once(now, i as int, j, x);
                        }
                    }
                    assert(as_map(now) =~= as_map(was).insert(k, value));
                }
            },
            Err(i) => {
                items.insert(i, (key, value));
                let ghost now = items@;
                proof {
                    assert(now == was.insert(i as int, (key, value)));
                    assert forall|a: int, b: int| 0 <= a < b < now.len() implies K::before(
                        #[trigger] now[a].0@,
                        #[trigger] now[b].0@,
                    ) by {
                        if a < i && b < i {
                            assert(K::before(was[a].0@, was[b].0@));
                        } else if a < i && b == i {
                            assert(K::before(was[a].0@, k));
                        } else if a < i && b > i {
                            assert(K::before(was[a].0@, was[b - 1].0@));
                        } else if a == i {
                            assert(K::before(k, was[b - 1].0@));
                        } else {
                            assert(K::before(was[a - 1].0@, was[b - 1].0@));
                        }
                    }
                    assert forall|x: K::V|
                        as_map(now).contains_key(x) <==> #[trigger] as_map(was).insert(
                            k,
                            value,
                        ).contains_key(x) by {
                        if as_map(now).contains_key(x) {
                            let j = choose|j: int| holds_at(now, j, x);
                            if j < i {
                                assert(holds_at(was, j, x));
                            } else if j > i {
                                assert(holds_at(was, j - 1, x));
                            }
                        }
                        if as_map(was).contains_key(x) {
                            let j = choose|j: int| holds_at(was, j, x);
                            if j < i {
                                assert(holds_at(now, j, x));
                            } else {
                                assert(holds_at(now, j + 1, x));
                            }
                        }
                        assert(holds_at(now, i as int, k));
                    }
                    assert forall|x: K::V| #[trigger] as_map(now).contains_key(x) implies as_map(
                        now,
                    )[x] == as_map(was).insert(k, value)[x] by {
                        let j = choose|j: int| holds_at(now, j, x);
                        lemma_as_map_at(now, j);
                        if j < i {
                            lemma_as_map_at(was, j);
                            assert(holds_at(was, j, x));
                        } else if j > i {
                            lemma_as_map_at(was, j - 1);
                            assert(holds_at(was, j - 1, x));
                        }
                    }
                    assert(as_map(now) =~= as_map(was).insert(k, value));
                }
            },
        }
        self.items = items;
    }

    /// Drops the binding of `key`, and hands out what it was bound to.
    pub fn remove(&mut self, key: &K) -> (value: Option<V>)
        ensures
            final(self)@ == old(self)@.remove(key@),
            match value {
                Some(v) => old(self)@.contains_key(key@) && old(self)@[key@] == v,
                None => !old(self)@.contains_key(key@),
            },
    {
        proof {
            use_type_invariant(&*self);
        }
        let ghost was = self.items@;
        let mut items: Vec<(K, V)> = Vec::new();
        std::mem::swap(&mut items, &mut self.items);
        match locate(&items, key) {
            Ok(i) => {
                let (_, value) = items.remove(i);
                let ghost now = items@;
                proof {
                    lemma_as_map_at(was, i as int);
                    assert(now == was.remove(i as int));
                    assert forall|a: int, b: int| 0 <= a < b < now.len() implies K::before(
                        #[trigger] now[a].0@,
                        #[trigger] now[b].0@,
                    ) by {
                        let c = if a < i { a } else { a + 1 };
                        let d = if b < i { b } else { b + 1 };
                        assert(K::before(was[c].0@, was[d].0@));
                    }
                    assert forall|x: K::V|
                        as_map(now).contains_key(x) <==> #[trigger] as_map(was).remove(
                            key@,
                        ).contains_key(x) by {
                        if as_map(now).contains_key(x) {
                            let j = choose|j: int| holds_at(now, j, x);
                            let c = if j < i { j } else { j + 1 };
                            assert(holds_at(was, c, x));
                            if x == key@ {
                                lemma_holds_once(was, c, i as int, x);
                            }
                        }
                        if as_map(was).contains_key(x) && x != key@ {
                            let j = choose|j: int| holds_at(was, j, x);
                            let c = if j < i { j } else { j - 1 };
                            assert(holds_at(now, c, x));
                        }
                    }
                    assert forall|x: K::V| #[trigger] as_map(now).contains_key(x) implies as_map(
                        now,
                    )[x] == as_map(was).remove(key@)[x] by {
                        let j = choose|j: int| holds_at(now, j, x);
                        let c = if j < i { j } else { j + 1 };
                        lemma_as_map_at(now, j);
                        lemma_as_map_at(was, c);
                        assert(as_map(was).remove(key@).contains_key(x));
                    }
                    assert(as_map(now) =~= as_map(was).remove(key@));
                }
                self.items = items;
                Some(value)
            },
            Err(_) => {
                assert(!as_map(was).contains_key(key@));
                assert(as_map(was) =~= as_map(was).remove(key@));
                self.items = items;
                None
            },
        }
    }

    /// Keeps the entries whose position is marked.
    pub fn keep_marked(&mut self, marks: &Vec<bool>)
        requires
            marks@.len() == old(self).keys().len(),
        ensures
            forall|key: K::V| #[trigger]
                final(self)@.contains_key(key) <==> exists|i: int|
                    0 <= i < marks@.len() && #[trigger] marks@[i] && old(self).keys()[i] == key,
            forall|key: K::V| #[trigger]
                final(self)@.contains_key(key) ==> old(self)@.contains_key(key) && final(self)@[key]
                    == old(self)@[key],
    {
        proof {
            use_type_invariant(&*self);
        }
        let ghost was = self.items@;
        let ghost was_keys = self.keys();
        let mut items: Vec<(K, V)> = Vec::new();
        std::mem::swap(&mut items, &mut self.items);
        let mut kept: Vec<(K, V)> = Vec::new();
        let mut rest: Vec<(K, V)> = Vec::new();
        // `rest` holds the entries last to first, so that each is popped in key order.
        while items.len() > 0
            invariant
                items@.len() + rest@.len() == was.len(),
                items@ == was.take(items@.len() as int),
                forall|j: int| 0 <= j < rest@.len() ==> #[trigger] rest@[j] == was[was.len() - 1 - j],
            decreases items@.len(),
        {
            let item = items.pop();
            match item {
                Some(pair) => {
                    rest.push(pair);
                },
                None => {},
            }
        }
        let ghost mut from: Seq<int> = Seq::empty();
        let mut i: usize = 0;
        while i < marks.len()
            invariant
                marks@.len() == was.len(),
                increasing(was),
                i <= marks@.len(),
                rest@.len() == was.len() - i,
                forall|j: int| 0 <= j < rest@.len() ==> #[trigger] rest@[j] == was[was.len() - 1 - j],
                from.len() == kept@.len(),
                forall|j: int| 0 <= j < from.len() ==> 0 <= #[trigger] from[j] < i && marks@[from[j]] && kept@[j]
                    == was[from[j]],
                forall|a: int, b: int| 0 <= a < b < from.len() ==> #[trigger] from[a] < #[trigger] from[b],
                forall|m: int| 0 <= m < i && #[trigger] marks@[m] ==> from.contains(m),
            decreases marks@.len() - i,
        {
            let ghost from_was = from;
            match rest.pop() {
                Some(pair) => {
                    if marks[i] {
                        kept.push(pair);
                        proof {
                            from = from.push(i as int);
                            assert(from[from.len() - 1] == i);
                            assert forall|m: int| 0 <= m < i + 1 && #[trigger]
                                marks@[m] implies from.contains(m) by {
                                if m < i {
                                    let j = from_was.index_of(m);
                                    assert(from[j] == m);
                                }
                            }
                        }
                    }
                },
                None => {},
            }
            i = i + 1;
        }
        proof {
            let now = kept@;
            assert forall|a: int, b: int| 0 <= a < b < now.len() implies K::before(
                #[trigger] now[a].0@,
                #[trigger] now[b].0@,
            ) by {
                assert(from[a] < from[b]);
                assert(K::before(was[from[a]].0@, was[from[b]].0@));
            }
            assert forall|key: K::V| #[trigger]
                as_map(now).contains_key(key) <==> exists|m: int|
                    0 <= m < marks@.len() && #[trigger] marks@[m] && was_keys[m] == key by {
                if as_map(now).contains_key(key) {
                    let j = choose|j: int| holds_at(now, j, key);
                    assert(marks@[from[j]] && was_keys[from[j]] == key);
                }
                if exists|m: int|
                    0 <= m < marks@.len() && #[trigger] marks@[m] && was_keys[m] == key {
                    let m = choose|m: int|
                        0 <= m < marks@.len() && #[trigger] marks@[m] && was_keys[m] == key;
                    assert(from.contains(m));
                    let j = from.index_of(m);
                    assert(now[j] == was[m]);
                    assert(holds_at(now, j, key));
                }
            }
            assert forall|key: K::V| #[trigger] as_map(now).contains_key(key) implies as_map(
                was,
            ).contains_key(key) && as_map(now)[key] == as_map(was)[key] by {
                let j = choose|j: int| holds_at(now, j, key);
                lemma_as_map_at(now, j);
                lemma_as_map_at(was, from[j]);
            }
        }
        self.items = kept;
    }
}

impl<K: OrderedKey + Copy, V: Copy> SortedMap<K, V> {
    /// A copy of the map.
    pub fn copied(&self) -> (copy: Self)
        ensures
            copy@ == self@,
    {
        let n: usize = self.len();
        let ghost keys = self.keys();
        let mut copy: SortedMap<K, V> = SortedMap::new();
        let mut i: usize = 0;
        while i < n
            invariant
                i <= n == keys.len(),
                keys == self.keys(),
                forall|key: K::V| #[trigger]
                    copy@.contains_key(key) ==> self@.contains_key(key) && copy@[key]
                        == self@[key],
                forall|j: int| 0 <= j < i ==> copy@.contains_key(#[trigger] keys[j]),
            decreases n - i,
        {
            let (key, value) = self.at(i);
            copy.insert(*key, *value);
            i = i + 1;
        }
        proof {
            assert forall|key: K::V| #[trigger] self@.dom().contains(key) implies copy@.dom().contains(
            key) by {
                assert(keys.contains(key));
                assert(copy@.contains_key(keys[keys.index_of(key)]));
            }
            assert(copy@ =~= self@);
        }
        copy
    }
}

} // verus!
