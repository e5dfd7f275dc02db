//! A map kept as a list sorted by key.

use crate::bytes::{be_less, be_value, lemma_be_injective};
use crate::primitives::{Address, Hash256};
use vstd::prelude::*;

verus! {

/// What a table can be keyed by: values with a total order.
pub trait Key: Copy {
    /// The key's place in the order.
    spec fn rank(self) -> nat;

    /// Different keys have different places.
    proof fn rank_is_injective(a: Self, b: Self)
        requires
            a.rank() == b.rank(),
        ensures
            a == b,
    ;

    fn precedes(&self, other: &Self) -> (r: bool)
        ensures
            r == (self.rank() < other.rank()),
    ;
}

impl Key for u64 {
    open spec fn rank(self) -> nat {
        self as nat
    }

    proof fn rank_is_injective(a: u64, b: u64) {
    }

    fn precedes(&self, other: &u64) -> (r: bool) {
        *self < *other
    }
}

impl Key for Hash256 {
    open spec fn rank(self) -> nat {
        be_value(self@)
    }

    proof fn rank_is_injective(a: Hash256, b: Hash256) {
        lemma_be_injective(a@, b@);
        assert(a.0 =~= b.0);
    }

    fn precedes(&self, other: &Hash256) -> (r: bool) {
        be_less(&self.0, &other.0)
    }
}

impl Key for Address {
    open spec fn rank(self) -> nat {
        be_value(self@)
    }

    proof fn rank_is_injective(a: Address, b: Address) {
        lemma_be_injective(a@, b@);
        assert(a.0 =~= b.0);
    }

    fn precedes(&self, other: &Address) -> (r: bool) {
        be_less(&self.0, &other.0)
    }
}

pub struct Table<K: Key, V> {
    entries: Vec<(K, V)>,
}

/// The keys stand in order, each once.
spec fn ascending<K: Key, V>(entries: Seq<(K, V)>) -> bool {
    forall|i: int, j: int|
        0 <= i < j < entries.len() ==> (#[trigger] entries[i]).0.rank() < (#[trigger] entries[j]).0.rank()
}

spec fn holds_at<K: Key, V>(entries: Seq<(K, V)>, k: K, i: int) -> bool {
    0 <= i < entries.len() && entries[i].0 == k
}

spec fn contents<K: Key, V>(entries: Seq<(K, V)>) -> Map<K, V> {
    Map::new(
        |k: K| exists|i: int| holds_at(entries, k, i),
        |k: K| entries[choose|i: int| holds_at(entries, k, i)].1,
    )
}

impl<K: Key, V> View for Table<K, V> {
    type V = Map<K, V>;

    closed spec fn view(&self) -> Map<K, V> {
        contents(self.entries@)
    }
}

proof fn lemma_contents_at<K: Key, V>(entries: Seq<(K, V)>, i: int)
    requires
        ascending(entries),
        0 <= i < entries.len(),
    ensures
        contents(entries).contains_key(entries[i].0),
        contents(entries)[entries[i].0] == entries[i].1,
{
    let k = entries[i].0;
    assert(holds_at(entries, k, i));
    let c = choose|j: int| holds_at(entries, k, j);
    assert(holds_at(entries, k, c));
    if c < i {
        assert(entries[c].0.rank() < entries[i].0.rank());
    } else if i < c {
        assert(entries[i].0.rank() < entries[c].0.rank());
    }
}

proof fn lemma_contents_absent<K: Key, V>(entries: Seq<(K, V)>, k: K, at: int)
    requires
        ascending(entries),
        0 <= at <= entries.len(),
        forall|i: int| 0 <= i < at ==> (#[trigger] entries[i]).0.rank() < k.rank(),
        at < entries.len() ==> k.rank() < entries[at].0.rank(),
    ensures
        !contents(entries).contains_key(k),
{
    if contents(entries).contains_key(k) {
        let i = choose|i: int| holds_at(entries, k, i);
        assert(holds_at(entries, k, i));
        if i < at {
            assert(entries[i].0.rank() < k.rank());
        } else if at < i {
            assert(entries[at].0.rank() < entries[i].0.rank());
        }
    }
}

/// Replacing the value of an entry changes the contents at its key alone.
proof fn lemma_contents_update<K: Key, V>(entries: Seq<(K, V)>, at: int, k: K, v: V)
    requires
        ascending(entries),
        0 <= at < entries.len(),
        entries[at].0 == k,
    ensures
        ascending(entries.update(at, (k, v))),
        contents(entries.update(at, (k, v))) == contents(entries).insert(k, v),
{
    let after = entries.update(at, (k, v));
    assert(ascending(after));
    assert forall|x: K| contents(after).contains_key(x) == contents(entries).insert(k, v).contains_key(x) by {
        if contents(after).contains_key(x) {
            let i = choose|i: int| holds_at(after, x, i);
            assert(holds_at(after, x, i) && holds_at(entries, x, i));
        }
        if contents(entries).contains_key(x) {
            let i = choose|i: int| holds_at(entries, x, i);
            assert(holds_at(entries, x, i) && holds_at(after, x, i));
        }
        if x == k {
            assert(holds_at(after, x, at));
        }
    }
    assert forall|x: K| contents(after).contains_key(x) implies contents(after)[x] == contents(entries).insert(k, v)[x] by {
        let i = choose|i: int| holds_at(after, x, i);
        assert(holds_at(after, x, i));
        lemma_contents_at(after, i);
        lemma_contents_at(entries, i);
        lemma_contents_at(after, at);
    }
    assert(contents(after) =~= contents(entries).insert(k, v));
}

/// Putting a new entry in its place adds it to the contents.
proof fn lemma_contents_insert<K: Key, V>(entries: Seq<(K, V)>, at: int, k: K, v: V)
    requires
        ascending(entries),
        0 <= at <= entries.len(),
        forall|i: int| 0 <= i < at ==> (#[trigger] entries[i]).0.rank() < k.rank(),
        at < entries.len() ==> k.rank() < entries[at].0.rank(),
    ensures
        ascending(entries.insert(at, (k, v))),
        contents(entries.insert(at, (k, v))) == contents(entries).insert(k, v),
{
    let after = entries.insert(at, (k, v));
    assert forall|i: int, j: int| 0 <= i < j < after.len() implies (#[trigger] after[i]).0.rank() < (
    #[trigger] after[j]).0.rank() by {
        let a = if i < at { i } else { i - 1 };
        let b = if j < at { j } else { j - 1 };
        if i == at {
            if at < b {
                assert(entries[at].0.rank() < entries[b].0.rank());
            }
        } else if j == at {
            assert(entries[a].0.rank() < k.rank());
        } else {
            assert(entries[a].0.rank() < entries[b].0.rank());
        }
    }
    assert forall|x: K| contents(after).contains_key(x) == contents(entries).insert(k, v).contains_key(x) by {
        if contents(after).contains_key(x) {
            let i = choose|i: int| holds_at(after, x, i);
            assert(holds_at(after, x, i));
            if i != at {
                assert(holds_at(entries, x, if i < at { i } else { i - 1 }));
            }
        }
        if contents(entries).contains_key(x) {
            let i = choose|i: int| holds_at(entries, x, i);
            assert(holds_at(entries, x, i));
            assert(holds_at(after, x, if i < at { i } else { i + 1 }));
        }
        if x == k {
            assert(holds_at(after, x, at));
        }
    }
    assert forall|x: K| contents(after).contains_key(x) implies contents(after)[x] == contents(entries).insert(k, v)[x] by {
        let i = choose|i: int| holds_at(after, x, i);
        assert(holds_at(after, x, i));
        lemma_contents_at(after, i);
        lemma_contents_at(after, at);
        if i != at {
            lemma_contents_at(entries, if i < at { i } else { i - 1 });
            if i < at {
                assert(after[i].0.rank() < after[at].0.rank());
            } else {
                assert(after[at].0.rank() < after[i].0.rank());
            }
        }
    }
    assert(contents(after) =~= contents(entries).insert(k, v));
}

/// Taking an entry out removes its key from the contents.
proof fn lemma_contents_remove<K: Key, V>(entries: Seq<(K, V)>, at: int)
    requires
        ascending(entries),
        0 <= at < entries.len(),
    ensures
        ascending(entries.remove(at)),
        contents(entries.remove(at)) == contents(entries).remove(entries[at].0),
{
    let after = entries.remove(at);
    let k = entries[at].0;
    assert forall|i: int, j: int| 0 <= i < j < after.len() implies (#[trigger] after[i]).0.rank() < (
    #[trigger] after[j]).0.rank() by {
        let a = if i < at { i } else { i + 1 };
        let b = if j < at { j } else { j + 1 };
        assert(entries[a].0.rank() < entries[b].0.rank());
    }
    assert forall|x: K| contents(after).contains_key(x) == contents(entries).remove(k).contains_key(x) by {
        if contents(after).contains_key(x) {
            let i = choose|i: int| holds_at(after, x, i);
            assert(holds_at(after, x, i));
            let a = if i < at { i } else { i + 1 };
            assert(holds_at(entries, x, a));
            if a < at {
                assert(entries[a].0.rank() < entries[at].0.rank());
            } else {
                assert(entries[at].0.rank() < entries[a].0.rank());
            }
        }
        if contents(entries).remove(k).contains_key(x) {
            let i = choose|i: int| holds_at(entries, x, i);
            assert(holds_at(entries, x, i));
            assert(holds_at(after, x, if i < at { i } else { i - 1 }));
        }
    }
    assert forall|x: K| contents(after).contains_key(x) implies contents(after)[x] == contents(entries).remove(k)[x] by {
        let i = choose|i: int| holds_at(after, x, i);
        assert(holds_at(after, x, i));
        lemma_contents_at(after, i);
        lemma_contents_at(entries, if i < at { i } else { i + 1 });
    }
    assert(contents(after) =~= contents(entries).remove(k));
}

impl<K: Key, V> Table<K, V> {
    #[verifier::type_invariant]
    spec fn in_order(self) -> bool {
        ascending(self.entries@)
    }

    /// The keys in order.
    pub closed spec fn keys(&self) -> Seq<K> {
        Seq::new(self.entries@.len(), |i: int| self.entries@[i].0)
    }

    pub fn new() -> (r: Self)
        ensures
            r@ == Map::<K, V>::empty(),
            r.keys() == Seq::<K>::empty(),
    {
        let r = Table { entries: Vec::new() };
        assert forall|k: K| !contents(r.entries@).contains_key(k) by {}
        assert(r@ =~= Map::<K, V>::empty());
        assert(r.keys() =~= Seq::<K>::empty());
        r
    }

    pub fn len(&self) -> (r: usize)
        ensures
            r == self.keys().len(),
            forall|k: K| self@.contains_key(k) <==> #[trigger] self.keys().contains(k),
            forall|i: int, j: int|
                0 <= i < j < r ==> (#[trigger] self.keys()[i]).rank() < (#[trigger] self.keys()[j]).rank(),
    {
        proof {
            use_type_invariant(self);
            assert forall|k: K| self@.contains_key(k) <==> #[trigger] self.keys().contains(k) by {
                if self@.contains_key(k) {
                    let i = choose|i: int| holds_at(self.entries@, k, i);
                    assert(holds_at(self.entries@, k, i));
                    assert(self.keys()[i] == k);
                }
                if self.keys().contains(k) {
                    let i = choose|i: int| 0 <= i < self.keys().len() && self.keys()[i] == k;
                    assert(holds_at(self.entries@, k, i));
                }
            }
        }
        self.entries.len()
    }

    /// The entry in place `i`.
    pub fn at(&self, i: usize) -> (r: (&K, &V))
        requires
            i < self.keys().len(),
        ensures
            *r.0 == self.keys()[i as int],
            self@.contains_key(*r.0),
            *r.1 == self@[*r.0],
    {
        proof {
            use_type_invariant(self);
            lemma_contents_at(self.entries@, i as int);
        }
        let entry = &self.entries[i];
        (&entry.0, &entry.1)
    }

    /// The place of the first key that does not precede `k`.
    fn place(&self, k: &K) -> (r: usize)
        ensures
            r <= self.entries@.len(),
            forall|i: int| 0 <= i < r ==> (#[trigger] self.entries@[i]).0.rank() < k.rank(),
            r < self.entries@.len() ==> k.rank() <= self.entries@[r as int].0.rank(),
    {
        proof {
            use_type_invariant(self);
        }
        let mut low: usize = 0;
        let mut high: usize = self.entries.len();
        while low < high
            invariant
                low <= high <= self.entries@.len(),
                ascending(self.entries@),
                forall|i: int| 0 <= i < low ==> (#[trigger] self.entries@[i]).0.rank() < k.rank(),
                high < self.entries@.len() ==> k.rank() <= self.entries@[high as int].0.rank(),
            decreases high - low,
        {
            let mid: usize = low + (high - low) / 2;
            if self.entries[mid].0.precedes(k) {
                assert forall|i: int| 0 <= i < mid + 1 implies (#[trigger] self.entries@[i]).0.rank() < k.rank() by {
                    if i < mid {
                        assert(self.entries@[i].0.rank() < self.entries@[mid as int].0.rank());
                    }
                }
                low = mid + 1;
            } else {
                high = mid;
            }
        }
        low
    }

    pub fn get(&self, k: &K) -> (r: Option<&V>)
        ensures
            match r {
                Some(v) => self@.contains_key(*k) && *v == self@[*k],
                None => !self@.contains_key(*k),
            },
    {
        proof {
            use_type_invariant(self);
        }
        let at: usize = self.place(k);
        if at < self.entries.len() && !k.precedes(&self.entries[at].0) {
            proof {
                K::rank_is_injective(*k, self.entries@[at as int].0);
                lemma_contents_at(self.entries@, at as int);
            }
            return Some(&self.entries[at].1);
        }
        proof {
            lemma_contents_absent(self.entries@, *k, at as int);
        }
        None
    }

    pub fn contains(&self, k: &K) -> (r: bool)
        ensures
            r == self@.contains_key(*k),
    {
        self.get(k).is_some()
    }

    /// Adds `v` under `k`, in place of what was there.
    pub fn insert(&mut self, k: K, v: V)
        ensures
            final(self)@ == old(self)@.insert(k, v),
    {
        proof {
            use_type_invariant(&*self);
        }
        let at: usize = self.place(&k);
        let mut entries: Vec<(K, V)> = Vec::new();
        std::mem::swap(&mut entries, &mut self.entries);
        let ghost before = entries@;
        if at < entries.len() && !k.precedes(&entries[at].0) {
            proof {
                K::rank_is_injective(k, before[at as int].0);
                lemma_contents_update(before, at as int, k, v);
            }
            entries.set(at, (k, v));
        } else {
            proof {
                lemma_contents_insert(before, at as int, k, v);
            }
            entries.insert(at, (k, v));
        }
        self.entries = entries;
    }

    /// Takes out what stands under `k`, if anything does.
    pub fn remove(&mut self, k: &K)
        ensures
            final(self)@ == old(self)@.remove(*k),
    {
        proof {
            use_type_invariant(&*self);
        }
        let at: usize = self.place(k);
        if at < self.entries.len() && !k.precedes(&self.entries[at].0) {
            let mut entries: Vec<(K, V)> = Vec::new();
            std::mem::swap(&mut entries, &mut self.entries);
            proof {
                K::rank_is_injective(*k, entries@[at as int].0);
                lemma_contents_remove(entries@, at as int);
            }
            let _gone = entries.remove(at);
            self.entries = entries;
        } else {
            proof {
                lemma_contents_absent(self.entries@, *k, at as int);
            }
            assert(self@.remove(*k) =~= self@);
        }
    }
}

} // verus!
