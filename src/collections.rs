//! A dense/sparse associative container keyed by small integers.

use vstd::prelude::*;

verus! {

/// Marker stored in the sparse array for a key that holds no value.
pub const EMPTY_KEY: usize = usize::MAX;

/// Why a `reserve` could not grow the set.
#[derive(Debug, Clone, Copy, PartialEq, Eq, Structural)]
pub enum TryReserveError {
    CapacityOverflow,
    AllocError,
}

/// Maps small non-negative integer keys to values.
///
/// `sparse[key]` holds the slot of `key` in `dense` and `data`, or
/// `EMPTY_KEY`; `dense[slot]` holds the key back, and `data[slot]` the value.
/// Values stay packed in `data`: a removal moves the last slot into the hole.
#[derive(Debug, Clone)]
pub struct SparseSet<T> {
    sparse: Vec<usize>,
    dense: Vec<usize>,
    data: Vec<T>,
}

impl<T> View for SparseSet<T> {
    type V = Map<usize, T>;

    /// The live keys and the value that each one holds.
    closed spec fn view(&self) -> Map<usize, T> {
        Map::new(|k: usize| self.live(k), |k: usize| self.data@[self.sparse@[k as int] as int])
    }
}

impl<T> SparseSet<T> {
    /// `key` passes the round-trip check: its slot points back at it.
    pub closed spec fn live(&self, key: usize) -> bool {
        &&& key < self.sparse@.len()
        &&& self.sparse@[key as int] < self.dense@.len()
        &&& self.dense@[self.sparse@[key as int] as int] == key
    }

    /// The keys in the order of the dense payload.
    pub closed spec fn keys(&self) -> Seq<usize> {
        self.dense@
    }

    /// The values in their dense order; `values()[i]` belongs to `keys()[i]`.
    pub closed spec fn values(&self) -> Seq<T> {
        self.data@
    }

    /// The length of the sparse array: every key below it can be looked up
    /// without growing.
    pub closed spec fn spec_capacity(&self) -> nat {
        self.sparse@.len()
    }

    pub closed spec fn wf(&self) -> bool {
        &&& self.dense@.len() == self.data@.len()
        &&& forall|i: int|
            0 <= i < self.dense@.len() ==> {
                &&& (#[trigger] self.dense@[i]) < self.sparse@.len()
                &&& self.sparse@[self.dense@[i] as int] == i
            }
        &&& forall|k: int|
            0 <= k < self.sparse@.len() ==> {
                ||| #[trigger] self.sparse@[k] == EMPTY_KEY
                ||| self.live(k as usize)
            }
    }

    pub fn new() -> (s: Self)
        ensures
            s.wf(),
            s@ == Map::<usize, T>::empty(),
            s.keys() == Seq::<usize>::empty(),
            s.values() == Seq::<T>::empty(),
            s.spec_capacity() == 0,
    {
        let s = SparseSet { sparse: Vec::new(), dense: Vec::new(), data: Vec::new() };
        assert(s@ =~= Map::<usize, T>::empty());
        s
    }

    /// The dense slot of `key`, if it is live.
    fn get_idx(&self, key: usize) -> (r: Option<usize>)
        requires
            self.wf(),
        ensures
            r == (if self.live(key) {
                Some(self.sparse@[key as int])
            } else {
                None::<usize>
            }),
    {
        if key >= self.sparse.len() {
            None
        } else {
            let idx = self.sparse[key];
            if idx < self.dense.len() && self.dense[idx] == key {
                Some(idx)
            } else {
                None
            }
        }
    }

    /// Returns true if the set holds a value for `key`.
    pub fn contains(&self, key: usize) -> (r: bool)
        requires
            self.wf(),
        ensures
            r == self@.contains_key(key),
    {
        self.get_idx(key).is_some()
    }

    pub fn capacity(&self) -> (r: usize)
        ensures
            r == self.spec_capacity(),
    {
        self.sparse.len()
    }

    pub fn len(&self) -> (r: usize)
        requires
            self.wf(),
        ensures
            r == self@.len(),
            r == self.keys().len(),
            r == self.values().len(),
    {
        proof {
            self.lemma_layout();
        }
        self.dense.len()
    }

    pub fn is_empty(&self) -> (r: bool)
        requires
            self.wf(),
        ensures
            r == (self@.len() == 0),
            r == (self.keys().len() == 0),
    {
        proof {
            self.lemma_layout();
        }
        self.dense.len() == 0
    }


    /// The value stored for `key`.
    pub fn get(&self, key: usize) -> (r: Option<&T>)
        requires
            self.wf(),
        ensures
            match r {
                Some(v) => self@.contains_key(key) && *v == self@[key],
                None => !self@.contains_key(key),
            },
    {
        match self.get_idx(key) {
            Some(idx) => Some(&self.data[idx]),
            None => None,
        }
    }


    /// A mutable reference to the value stored for `key`.
    pub fn get_mut(&mut self, key: usize) -> (r: Option<&mut T>)
        requires
            old(self).wf(),
        ensures
            match r {
                Some(v) => {
                    &&& old(self)@.contains_key(key)
                    &&& *v == old(self)@[key]
                    &&& final(self).wf()
                    &&& final(self)@ == old(self)@.insert(key, *final(v))
                    &&& final(self).keys() == old(self).keys()
                    &&& final(self).values().len() == old(self).values().len()
                    &&& forall|i: int|
                        0 <= i < old(self).values().len() ==> #[trigger] final(self).values()[i] == (
                        if old(self).keys()[i] == key {
                            *final(v)
                        } else {
                            old(self).values()[i]
                        })
                    &&& final(self).spec_capacity() == old(self).spec_capacity()
                },
                None => !old(self)@.contains_key(key) && *final(self) == *old(self),
            },
    {
        match self.get_idx(key) {
            Some(idx) => {
                let ghost mid = *self;
                let v = &mut self.data[idx];
                proof {
                    assert forall|k: usize| after_borrow(*self).live(k) == mid.live(k) by {}
                    assert(after_borrow(*self)@ =~= mid@.insert(key, *final(v)));
                    assert forall|i: int| 0 <= i < mid.dense@.len() implies #[trigger] after_borrow(
                        *self,
                    ).data@[i] == if mid.dense@[i] == key {
                        *final(v)
                    } else {
                        mid.data@[i]
                    } by {
                        if mid.dense@[i] == key {
                            assert(mid.sparse@[key as int] == i);
                        }
                    }
                }
                Some(v)
            },
            None => None,
        }
    }

    /// The key stored at dense slot `idx`.
    pub fn get_key(&self, idx: usize) -> (r: Option<usize>)
        requires
            self.wf(),
        ensures
            r == (if idx < self.keys().len() {
                Some(self.keys()[idx as int])
            } else {
                None::<usize>
            }),
    {
        if idx < self.dense.len() {
            Some(self.dense[idx])
        } else {
            None
        }
    }

    /// The key and value at dense slot `idx`. Slots are not stable: a
    /// removal moves the last slot into the freed one.
    pub fn get_kv_pair(&self, idx: usize) -> (r: Option<(usize, &T)>)
        requires
            self.wf(),
        ensures
            match r {
                Some(kv) => idx < self.keys().len() && kv.0 == self.keys()[idx as int] && *kv.1
                    == self.values()[idx as int],
                None => idx >= self.keys().len(),
            },
    {
        if idx < self.dense.len() {
            Some((self.dense[idx], &self.data[idx]))
        } else {
            None
        }
    }

    /// Walks the key/value pairs in dense order.
    pub fn kv_pairs(&self) -> (r: KeyValueIter<'_, T>)
        requires
            self.wf(),
        ensures
            r.set() == self,
            r.position() == 0,
    {
        KeyValueIter { set: self, idx: 0 }
    }

    /// The values in dense order.
    pub fn as_slice(&self) -> (r: &[T])
        ensures
            r@ == self.values(),
    {
        self.data.as_slice()
    }

    /// Consumes the set and returns its values in dense order.
    pub fn into_values(self) -> (r: Vec<T>)
        ensures
            r@ == self.values(),
    {
        self.data
    }

    /// Appends empty slots to the sparse array until it is `new_len` long.
    fn grow_sparse(&mut self, new_len: usize)
        requires
            old(self).wf(),
            old(self).spec_capacity() <= new_len,
        ensures
            final(self).wf(),
            final(self)@ == old(self)@,
            final(self).keys() == old(self).keys(),
            final(self).values() == old(self).values(),
            final(self).spec_capacity() == new_len,
    {
        let ghost old_view = self@;
        while self.sparse.len() < new_len
            invariant
                self.wf(),
                self@ == old_view,
                self.keys() == old(self).keys(),
                self.values() == old(self).values(),
                self.sparse@.len() <= new_len,
            decreases new_len - self.sparse@.len(),
        {
            let ghost before = *self;
            self.sparse.push(EMPTY_KEY);
            proof {
                assert forall|k: usize| self.live(k) == before.live(k) by {}
                assert(self@ =~= before@);
            }
        }
    }

    /// Stores `item` under `key` and returns the value it replaced, if any.
    /// The sparse array grows, at least doubling, when `key` lies beyond it.
    pub fn insert_with(&mut self, key: usize, item: T) -> (r: Option<T>)
        requires
            old(self).wf(),
            key < EMPTY_KEY,
        ensures
            final(self).wf(),
            final(self)@ == old(self)@.insert(key, item),
            r == (if old(self)@.contains_key(key) {
                Some(old(self)@[key])
            } else {
                None::<T>
            }),
            old(self)@.contains_key(key) ==> {
                &&& final(self).keys() == old(self).keys()
                &&& final(self).values().len() == old(self).values().len()
                &&& forall|i: int|
                    0 <= i < old(self).values().len() ==> #[trigger] final(self).values()[i] == (
                    if old(self).keys()[i] == key {
                        item
                    } else {
                        old(self).values()[i]
                    })
            },
            !old(self)@.contains_key(key) ==> {
                &&& final(self).keys() == old(self).keys().push(key)
                &&& final(self).values() == old(self).values().push(item)
            },
            final(self).spec_capacity() > key,
            key < old(self).spec_capacity() ==> final(self).spec_capacity() == old(self).spec_capacity(),
            key >= old(self).spec_capacity() ==> final(self).spec_capacity() == (
            if old(self).spec_capacity() > usize::MAX / 2 {
                usize::MAX as nat
            } else if key + 1 > 2 * old(self).spec_capacity() {
                (key + 1) as nat
            } else {
                2 * old(self).spec_capacity()
            }),
    {
        let cap = self.sparse.len();
        if key >= cap {
            let new_cap = if cap > usize::MAX / 2 {
                usize::MAX
            } else if key + 1 > 2 * cap {
                key + 1
            } else {
                2 * cap
            };
            self.grow_sparse(new_cap);
        }
        let ghost mid = *self;
        match self.get_idx(key) {
            Some(idx) => {
                let mut item = item;
                std::mem::swap(&mut self.data[idx], &mut item);
                proof {
                    assert forall|k: usize| self.live(k) == mid.live(k) by {}
                    assert(self@ =~= mid@.insert(key, self.data@[idx as int]));
                    assert forall|i: int| 0 <= i < mid.dense@.len() implies #[trigger] self.data@[i]
                        == if mid.dense@[i] == key {
                        self.data@[idx as int]
                    } else {
                        mid.data@[i]
                    } by {
                        if mid.dense@[i] == key {
                            assert(mid.sparse@[key as int] == i);
                        }
                    }
                }
                Some(item)
            },
            None => {
                let slot = self.dense.len();
                self.sparse.set(key, slot);
                self.dense.push(key);
                self.data.push(item);
                proof {
                    assert forall|k: usize| #[trigger] self.live(k) == (mid.live(k) || k == key) by {
                        if k != key && k < self.sparse@.len() && mid.sparse@[k as int] == slot {
                            assert(self.dense@[slot as int] == key);
                        }
                    }
                    assert forall|k: int| 0 <= k < self.sparse@.len() implies {
                        ||| #[trigger] self.sparse@[k] == EMPTY_KEY
                        ||| self.live(k as usize)
                    } by {
                        if k != key {
                            assert(mid.sparse@[k] == EMPTY_KEY || mid.live(k as usize));
                        }
                    }
                    assert(self@ =~= mid@.insert(key, item));
                }
                None
            },
        }
    }


    /// Removes the value stored for `key` and returns it. The last dense slot
    /// moves into the freed one, and `key`'s sparse entry becomes empty.
    pub fn remove(&mut self, key: usize) -> (r: Option<T>)
        requires
            old(self).wf(),
        ensures
            final(self).wf(),
            final(self)@ == old(self)@.remove(key),
            r == (if old(self)@.contains_key(key) {
                Some(old(self)@[key])
            } else {
                None::<T>
            }),
            final(self).spec_capacity() == old(self).spec_capacity(),
    {
        match self.get_idx(key) {
            Some(idx) => {
                let ghost mid = *self;
                let last = self.dense.len() - 1;
                let swap = self.dense[last];
                self.dense.swap_remove(idx);
                let item = self.data.swap_remove(idx);
                if idx < last {
                    self.sparse.set(swap, idx);
                }
                self.sparse.set(key, EMPTY_KEY);
                proof {
                    self.lemma_vec_bounds();
                    assert forall|k: usize| #[trigger] self.live(k) == (mid.live(k) && k != key) by {
                        if k != key && mid.live(k) && k == swap {
                            assert(mid.sparse@[swap as int] == last);
                        }
                        if k != key && mid.live(k) && k != swap {
                            assert(mid.sparse@[k as int] != idx);
                            assert(mid.sparse@[k as int] != last);
                        }
                    }
                    assert forall|i: int| 0 <= i < self.dense@.len() implies {
                        &&& (#[trigger] self.dense@[i]) < self.sparse@.len()
                        &&& self.sparse@[self.dense@[i] as int] == i
                    } by {
                        if i != idx {
                            assert(mid.sparse@[mid.dense@[i] as int] == i);
                        }
                    }
                    assert forall|k: int| 0 <= k < self.sparse@.len() implies {
                        ||| #[trigger] self.sparse@[k] == EMPTY_KEY
                        ||| self.live(k as usize)
                    } by {
                        assert(self.live(k as usize) == (mid.live(k as usize) && k != key));
                        if k != key && k != swap {
                            assert(mid.sparse@[k] == EMPTY_KEY || mid.live(k as usize));
                        }
                        if k == swap && k != key {
                            assert(mid.live(swap));
                        }
                    }
                    assert(self@ =~= mid@.remove(key));
                }
                Some(item)
            },
            None => {
                assert(self@ =~= self@.remove(key));
                None
            },
        }
    }

    /// The smallest key that holds no value: the first empty sparse entry,
    /// or the capacity when every key below it is live.
    pub fn next_key(&self) -> (r: usize)
        requires
            self.wf(),
        ensures
            !self@.contains_key(r),
            forall|k: usize| k < r ==> self@.contains_key(k),
            r <= self.spec_capacity(),
            r <= self@.len(),
    {
        let mut i: usize = 0;
        while i < self.sparse.len()
            invariant
                self.wf(),
                i <= self.sparse@.len(),
                forall|k: usize| k < i ==> self.live(k),
            decreases self.sparse@.len() - i,
        {
            if self.sparse[i] == EMPTY_KEY {
                proof {
                    self.lemma_vec_bounds();
                    self.lemma_all_live_below(i);
                }
                return i;
            }
            assert(self.live(i));
            i = i + 1;
        }
        proof {
            self.lemma_all_live_below(i);
        }
        i
    }

    /// Stores `item` under `next_key()` and returns that key.
    pub fn insert(&mut self, item: T) -> (r: usize)
        requires
            old(self).wf(),
            old(self)@.len() + 1 < EMPTY_KEY,
        ensures
            final(self).wf(),
            !old(self)@.contains_key(r),
            forall|k: usize| k < r ==> old(self)@.contains_key(k),
            final(self)@ == old(self)@.insert(r, item),
            final(self).keys() == old(self).keys().push(r),
            final(self).values() == old(self).values().push(item),
    {
        let key = self.next_key();
        let _ = self.insert_with(key, item);
        key
    }

    /// The backing arrays are no longer than a `usize` can count, so an
    /// empty sparse entry never names a slot.
    proof fn lemma_vec_bounds(&self)
        ensures
            self.dense@.len() <= usize::MAX,
            self.sparse@.len() <= usize::MAX,
    {
        assert(self.dense.len() == self.dense@.len());
        assert(self.sparse.len() == self.sparse@.len());
    }

    /// The dense payload is never longer than the sparse array: every live
    /// key lies below the capacity, and each one is stored once.
    pub proof fn lemma_len_within_capacity(&self)
        requires
            self.wf(),
        ensures
            self.keys().len() <= self.spec_capacity(),
            forall|k: usize| #[trigger] self@.contains_key(k) ==> k < self.spec_capacity(),
    {
        self.lemma_layout();
        self.lemma_vec_bounds();
        let below = Set::new(|k: usize| k < self.sparse@.len());
        lemma_below_len(self.sparse@.len() as usize);
        assert(self@.dom().subset_of(below));
        vstd::set_lib::lemma_len_subset(self@.dom(), below);
    }

    /// When every key below `n` is live, at least `n` values are stored.
    proof fn lemma_all_live_below(&self, n: usize)
        requires
            self.wf(),
            forall|k: usize| k < n ==> self@.contains_key(k),
        ensures
            n <= self@.len(),
    {
        self.lemma_layout();
        let below = Set::new(|k: usize| k < n);
        lemma_below_len(n);
        assert(below.subset_of(self@.dom()));
        vstd::set_lib::lemma_len_subset(below, self@.dom());
    }

    /// Grows the sparse array by `additional` entries and reserves room for
    /// as many values. Fails with `CapacityOverflow` when the new capacity
    /// would reach `isize::MAX`, and with `AllocError` when the allocator
    /// refuses; the set is unchanged on failure.
    pub fn reserve(&mut self, additional: usize) -> (r: Result<usize, TryReserveError>)
        requires
            old(self).wf(),
        ensures
            final(self).wf(),
            final(self)@ == old(self)@,
            final(self).keys() == old(self).keys(),
            final(self).values() == old(self).values(),
            (r == Err::<usize, TryReserveError>(TryReserveError::CapacityOverflow)) <==> (
            old(self).spec_capacity() + additional >= isize::MAX),
            match r {
                Ok(n) => n == old(self).spec_capacity() + additional && final(self).spec_capacity() == n,
                Err(_) => final(self).spec_capacity() == old(self).spec_capacity(),
            },
    {
        let cap = self.sparse.len();
        if cap >= isize::MAX as usize || additional >= (isize::MAX as usize) - cap {
            return Err(TryReserveError::CapacityOverflow);
        }
        let new_capacity = cap + additional;
        if self.dense.try_reserve(additional).is_err() {
            return Err(TryReserveError::AllocError);
        }
        if self.data.try_reserve(additional).is_err() {
            return Err(TryReserveError::AllocError);
        }
        if self.sparse.try_reserve(additional).is_err() {
            return Err(TryReserveError::AllocError);
        }
        self.grow_sparse(new_capacity);
        Ok(new_capacity)
    }

    /// Removes every value; the capacity stays.
    pub fn clear(&mut self)
        requires
            old(self).wf(),
        ensures
            final(self).wf(),
            final(self)@ == Map::<usize, T>::empty(),
            final(self).keys() == Seq::<usize>::empty(),
            final(self).values() == Seq::<T>::empty(),
            final(self).spec_capacity() == old(self).spec_capacity(),
    {
        self.dense.clear();
        self.data.clear();
        let n = self.sparse.len();
        let mut i: usize = 0;
        while i < n
            invariant
                n == self.sparse@.len(),
                i <= n,
                self.dense@.len() == 0,
                self.data@.len() == 0,
                forall|k: int| 0 <= k < i ==> self.sparse@[k] == EMPTY_KEY,
            decreases n - i,
        {
            self.sparse.set(i, EMPTY_KEY);
            i = i + 1;
        }
        assert(self@ =~= Map::<usize, T>::empty());
    }

    /// Drops the trailing sparse entries that hold no value, so that the
    /// capacity ends just past the largest live key.
    pub fn shrink_to_fit(&mut self)
        requires
            old(self).wf(),
        ensures
            final(self).wf(),
            final(self)@ == old(self)@,
            final(self).keys() == old(self).keys(),
            final(self).values() == old(self).values(),
            final(self).spec_capacity() <= old(self).spec_capacity(),
            final(self).spec_capacity() == 0 || final(self)@.contains_key(
                (final(self).spec_capacity() - 1) as usize,
            ),
            forall|k: usize| #[trigger] final(self)@.contains_key(k) ==> k < final(self).spec_capacity(),
    {
        let ghost old_view = self@;
        while self.sparse.len() > 0 && self.sparse[self.sparse.len() - 1] == EMPTY_KEY
            invariant
                self.wf(),
                self@ == old_view,
                self.keys() == old(self).keys(),
                self.values() == old(self).values(),
                self.sparse@.len() <= old(self).sparse@.len(),
            decreases self.sparse@.len(),
        {
            let ghost before = *self;
            let _ = self.sparse.pop();
            proof {
                before.lemma_vec_bounds();
                assert forall|k: usize| self.live(k) == before.live(k) by {}
                assert(self@ =~= before@);
            }
        }
        proof {
            if self.sparse@.len() > 0 {
                let last = (self.sparse@.len() - 1) as int;
                assert(self.sparse@[last] == EMPTY_KEY || self.live(last as usize));
            }
        }
    }

    /// How keys, values and the map view fit together.
    pub proof fn lemma_layout(&self)
        requires
            self.wf(),
        ensures
            self.keys().len() == self.values().len(),
            self.keys().no_duplicates(),
            self@.dom() == self.keys().to_set(),
            self@.dom().finite(),
            self@.len() == self.keys().len(),
            forall|i: int|
                0 <= i < self.keys().len() ==> self@.contains_key(#[trigger] self.keys()[i])
                    && self@[self.keys()[i]] == self.values()[i],
            forall|k: usize|
                #[trigger] self@.contains_key(k) ==> exists|i: int|
                    0 <= i < self.keys().len() && self.keys()[i] == k,
    {
        let d = self.dense@;
        assert forall|i: int| 0 <= i < d.len() implies self@.contains_key(#[trigger] d[i])
            && self@[d[i]] == self.data@[i] by {
            assert(self.live(d[i]));
        }
        assert forall|k: usize| #[trigger] self@.contains_key(k) implies exists|i: int|
            0 <= i < d.len() && d[i] == k by {
            assert(d[self.sparse@[k as int] as int] == k);
        }
        assert forall|i: int, j: int| 0 <= i < d.len() && 0 <= j < d.len() && i != j implies d[i]
            != d[j] by {
            assert(self.sparse@[d[i] as int] == i);
            assert(self.sparse@[d[j] as int] == j);
        }
        assert(self@.dom() =~= d.to_set());
        d.unique_seq_to_set();
    }
}


/// Reading a key back: after `insert_with(k, v)` the key holds `v`, and
/// after a following `remove(k)`, which hands `v` back, it holds nothing.
/// Keys other than `k` keep what they held.
pub proof fn lemma_insert_remove_round_trip<T>(m: Map<usize, T>, k: usize, v: T)
    ensures
        m.insert(k, v).contains_key(k),
        m.insert(k, v)[k] == v,
        !m.insert(k, v).remove(k).contains_key(k),
        forall|j: usize| j != k ==> m.insert(k, v).remove(k).contains_key(j) == m.contains_key(j),
        forall|j: usize| j != k && m.contains_key(j) ==> m.insert(k, v).remove(k)[j] == m[j],
{
}

/// One step of a history of updates to a `SparseSet`.
pub enum SetOp<T> {
    Insert(usize, T),
    Remove(usize),
}

/// The contents after applying `ops` in order, starting from `m`; each step
/// is what `insert_with` or `remove` does to the view.
pub open spec fn apply_ops<T>(m: Map<usize, T>, ops: Seq<SetOp<T>>) -> Map<usize, T>
    decreases ops.len(),
{
    if ops.len() == 0 {
        m
    } else {
        let prev = apply_ops(m, ops.drop_last());
        match ops.last() {
            SetOp::Insert(k, v) => prev.insert(k, v),
            SetOp::Remove(k) => prev.remove(k),
        }
    }
}

/// The last step of `ops` that touches `k`, if any.
pub open spec fn last_touch<T>(ops: Seq<SetOp<T>>, k: usize) -> Option<SetOp<T>>
    decreases ops.len(),
{
    if ops.len() == 0 {
        None
    } else {
        match ops.last() {
            SetOp::Insert(j, v) => if j == k {
                Some(ops.last())
            } else {
                last_touch(ops.drop_last(), k)
            },
            SetOp::Remove(j) => if j == k {
                Some(ops.last())
            } else {
                last_touch(ops.drop_last(), k)
            },
        }
    }
}

/// Each call extends the history by one step: `insert_with(k, v)` turns a
/// view that is `apply_ops(m, ops)` into `apply_ops(m, ops.push(Insert(k,
/// v)))`, and `remove(k)` into `apply_ops(m, ops.push(Remove(k)))`. With
/// `new()` giving `apply_ops(Map::empty(), seq![])`, the view after any
/// sequence of calls is the `apply_ops` of that sequence.
pub proof fn lemma_apply_ops_push<T>(m: Map<usize, T>, ops: Seq<SetOp<T>>, op: SetOp<T>)
    ensures
        apply_ops(m, ops.push(op)) == match op {
            SetOp::Insert(k, v) => apply_ops(m, ops).insert(k, v),
            SetOp::Remove(k) => apply_ops(m, ops).remove(k),
        },
{
    assert(ops.push(op).drop_last() =~= ops);
}

/// After any history of inserts and removes on an empty set, a key holds
/// the value of its most recent insert, and nothing if it was never
/// inserted or was removed last; the length is the number of keys holding
/// a value.
pub proof fn lemma_latest_insert_wins<T>(ops: Seq<SetOp<T>>, k: usize)
    ensures
        apply_ops(Map::<usize, T>::empty(), ops).dom().finite(),
        match last_touch(ops, k) {
            Some(SetOp::Insert(_, v)) => apply_ops(Map::<usize, T>::empty(), ops).contains_key(k)
                && apply_ops(Map::<usize, T>::empty(), ops)[k] == v,
            _ => !apply_ops(Map::<usize, T>::empty(), ops).contains_key(k),
        },
    decreases ops.len(),
{
    if ops.len() > 0 {
        lemma_latest_insert_wins(ops.drop_last(), k);
    }
}

/// The keys below `n` form a set of `n` elements.
proof fn lemma_below_len(n: usize)
    ensures
        Set::new(|k: usize| k < n).finite(),
        Set::new(|k: usize| k < n).len() == n,
    decreases n,
{
    if n == 0 {
        assert(Set::new(|k: usize| k < n) =~= Set::<usize>::empty());
    } else {
        let m = (n - 1) as usize;
        lemma_below_len(m);
        assert(Set::new(|k: usize| k < n) =~= Set::new(|k: usize| k < m).insert(m));
    }
}

/// Walks a set's key/value pairs in dense order.
pub struct KeyValueIter<'a, T> {
    set: &'a SparseSet<T>,
    idx: usize,
}

impl<'a, T> KeyValueIter<'a, T> {
    pub closed spec fn set(&self) -> &'a SparseSet<T> {
        self.set
    }

    /// The dense slot that the next call reads.
    pub closed spec fn position(&self) -> nat {
        self.idx as nat
    }

    /// The pair at the current slot, then moves on to the next one.
    pub fn next(&mut self) -> (r: Option<(usize, &'a T)>)
        requires
            old(self).set().wf(),
        ensures
            final(self).set() == old(self).set(),
            match r {
                Some(kv) => {
                    &&& old(self).position() < old(self).set().keys().len()
                    &&& kv.0 == old(self).set().keys()[old(self).position() as int]
                    &&& *kv.1 == old(self).set().values()[old(self).position() as int]
                    &&& final(self).position() == old(self).position() + 1
                },
                None => {
                    &&& old(self).position() >= old(self).set().keys().len()
                    &&& final(self).position() == old(self).position()
                },
            },
    {
        let r = self.set.get_kv_pair(self.idx);
        if self.idx < self.set.dense.len() {
            self.idx = self.idx + 1;
        }
        r
    }
}

} // verus!
