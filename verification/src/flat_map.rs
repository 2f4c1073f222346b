//! A map kept as a vector of key/value pairs sorted by key, searched by
//! bisection.
use vstd::prelude::*;

verus! {

/// Relies on Vec::capacity: how many elements the backing store can hold
/// without growing, never less than the current length.
#[verifier::external_body]
fn vec_capacity<V>(v: &Vec<V>) -> (r: usize)
    ensures
        r >= v@.len(),
{
    v.capacity()
}

/// A sorted association vector from numeric keys to values.
pub struct FlatMap<V>(pub Vec<(u64, V)>);

impl<V> FlatMap<V> {
    /// Keys are strictly increasing, hence unique.
    pub open spec fn wf(self) -> bool {
        forall|i: int, j: int|
            0 <= i < j < self.0@.len() ==> (#[trigger] self.0@[i]).0 < (#[trigger] self.0@[j]).0
    }

    /// Whether some entry holds `key`.
    pub open spec fn has_key(self, key: u64) -> bool {
        exists|j: int| 0 <= j < self.0@.len() && (#[trigger] self.0@[j]).0 == key
    }

    pub fn new() -> (r: Self)
        ensures
            r.wf(),
            r.0@.len() == 0,
    {
        Self(Vec::new())
    }

    pub fn len(&self) -> (r: usize)
        ensures
            r == self.0@.len(),
    {
        self.0.len()
    }

    pub fn is_empty(&self) -> (r: bool)
        ensures
            r == (self.0@.len() == 0),
    {
        self.0.len() == 0
    }

    pub fn capacity(&self) -> (r: usize)
        ensures
            r >= self.0@.len(),
    {
        vec_capacity(&self.0)
    }

    pub fn as_slice(&self) -> (r: &[(u64, V)])
        ensures
            r@ == self.0@,
    {
        self.0.as_slice()
    }

    /// Finds an entry by bisection: the matching position when `key` is
    /// present, otherwise a position right next to where it would go.
    fn binary_search(&self, key: u64) -> (r: usize)
        requires
            self.wf(),
            self.0@.len() > 0,
        ensures
            r < self.0@.len(),
            self.has_key(key) ==> self.0@[r as int].0 == key,
            !self.has_key(key) ==> (self.0@[r as int].0 < key && (r + 1 == self.0@.len() || self.0@[
                r + 1
            ].0 > key)) || (r == 0 && self.0@[0].0 > key),
    {
        let n = self.0.len();
        let mut left: usize = 0;
        let mut right: usize = n;
        while left != right
            invariant
                self.wf(),
                n == self.0@.len() > 0,
                left <= right <= n,
                left < n,
                left > 0 ==> self.0@[left as int].0 < key,
                right < n ==> self.0@[right as int].0 > key,
            decreases right - left,
        {
            let mid = left + (right - left) / 2;
            let k = self.0[mid].0;
            if key < k {
                right = mid;
            } else if key > k {
                if mid == left {
                    // No index between `left` and `right` is left to probe.
                    proof {
                        if self.has_key(key) {
                            let j = choose|j: int|
                                0 <= j < self.0@.len() && (#[trigger] self.0@[j]).0 == key;
                            if j < left {
                                assert(self.0@[j].0 < self.0@[left as int].0);
                            } else if j > left {
                                assert(j >= right);
                                if j > right {
                                    assert(self.0@[right as int].0 < self.0@[j].0);
                                }
                            }
                        }
                    }
                    return left;
                }
                left = mid;
            } else {
                return mid;
            }
        }
        proof {
            assert(left == 0);
            if self.has_key(key) {
                let j = choose|j: int|
                    0 <= j < self.0@.len() && (#[trigger] self.0@[j]).0 == key;
                if j > 0 {
                    assert(self.0@[0].0 < self.0@[j].0);
                }
            }
        }
        left
    }

    /// Puts `key` to `value`, returning the value it replaces, if any.  All
    /// other entries stay.
    pub fn insert(&mut self, key: u64, value: V) -> (r: Option<V>)
        requires
            old(self).wf(),
            old(self).0@.len() < usize::MAX,
        ensures
            final(self).wf(),
            final(self).has_key(key),
            forall|j: int|
                0 <= j < final(self).0@.len() && (#[trigger] final(self).0@[j]).0 == key
                    ==> final(self).0@[j].1 == value,
            forall|j: int|
                0 <= j < old(self).0@.len() && (#[trigger] old(self).0@[j]).0 != key
                    ==> final(self).0@.contains(old(self).0@[j]),
            old(self).has_key(key) ==> r is Some && final(self).0@.len() == old(self).0@.len(),
            !old(self).has_key(key) ==> r is None && final(self).0@.len() == old(self).0@.len()
                + 1,
            match r {
                Some(v) => exists|j: int|
                    0 <= j < old(self).0@.len() && (#[trigger] old(self).0@[j]).0 == key && old(
                        self,
                    ).0@[j].1 == v,
                None => !old(self).has_key(key),
            },
    {
        if self.0.len() == 0 {
            self.0.push((key, value));
            proof {
                assert(self.0@[0].0 == key);
            }
            return None;
        }
        let mut id = self.binary_search(key);
        let k = self.0[id].0;
        if key > k {
            id = id + 1;
        } else if key == k {
            let ghost prev = self.0@;
            let r = self.replace(id, key, value);
            proof {
                assert(self.0@[id as int].0 == key);
                assert forall|j: int|
                    0 <= j < prev.len() && (#[trigger] prev[j]).0 != key implies self.0@.contains(
                    prev[j],
                ) by {
                    assert(self.0@[j] == prev[j]);
                }
            }
            return r;
        }
        let ghost prev = self.0@;
        proof {
            assert(key < prev[id as int].0 || id == prev.len());
            assert(id > 0 ==> prev[id - 1].0 < key);
        }
        self.0.insert(id, (key, value));
        proof {
            assert(self.0@[id as int] == (key, value));
            assert forall|i: int, j: int| 0 <= i < j < self.0@.len() implies (
            #[trigger] self.0@[i]).0 < (#[trigger] self.0@[j]).0 by {
                if i < id && j > id {
                    assert(self.0@[i] == prev[i] && self.0@[j] == prev[j - 1]);
                } else if i < id && j == id {
                    assert(self.0@[i] == prev[i]);
                    if id > 0 {
                        assert(prev[id - 1].0 < key || i == id - 1);
                    }
                } else if i == id && j > id {
                    assert(self.0@[j] == prev[j - 1]);
                } else if i < id && j < id {
                    assert(self.0@[i] == prev[i] && self.0@[j] == prev[j]);
                } else {
                    assert(self.0@[i] == prev[i - 1] && self.0@[j] == prev[j - 1]);
                }
            }
            assert forall|j: int|
                0 <= j < prev.len() && (#[trigger] prev[j]).0 != key implies self.0@.contains(
                prev[j],
            ) by {
                if j < id {
                    assert(self.0@[j] == prev[j]);
                } else {
                    assert(self.0@[j + 1] == prev[j]);
                }
            }
        }
        None
    }

    /// The value stored under `key`, if any.
    pub fn get(&self, key: u64) -> (r: Option<&V>)
        requires
            self.wf(),
        ensures
            match r {
                Some(v) => exists|j: int|
                    0 <= j < self.0@.len() && (#[trigger] self.0@[j]).0 == key && self.0@[j].1
                        == *v,
                None => !self.has_key(key),
            },
    {
        if self.0.len() == 0 {
            return None;
        }
        let id = self.binary_search(key);
        if self.0[id].0 == key {
            return Some(&self.0[id].1);
        }
        None
    }

    /// Removes `key`, returning its value, if any.  All other entries stay.
    pub fn remove(&mut self, key: u64) -> (r: Option<V>)
        requires
            old(self).wf(),
        ensures
            final(self).wf(),
            !final(self).has_key(key),
            forall|j: int|
                0 <= j < old(self).0@.len() && (#[trigger] old(self).0@[j]).0 != key
                    ==> final(self).0@.contains(old(self).0@[j]),
            old(self).has_key(key) ==> r is Some && final(self).0@.len() == old(self).0@.len() - 1,
            !old(self).has_key(key) ==> r is None && final(self).0@ == old(self).0@,
    {
        match self.remove_entry(key) {
            Some(e) => Some(e.1),
            None => None,
        }
    }

    /// Removes `key`, returning the whole entry, if any.
    pub fn remove_entry(&mut self, key: u64) -> (r: Option<(u64, V)>)
        requires
            old(self).wf(),
        ensures
            final(self).wf(),
            !final(self).has_key(key),
            forall|j: int|
                0 <= j < old(self).0@.len() && (#[trigger] old(self).0@[j]).0 != key
                    ==> final(self).0@.contains(old(self).0@[j]),
            old(self).has_key(key) ==> (match r {
                Some(e) => e.0 == key,
                None => false,
            }) && final(self).0@.len() == old(self).0@.len() - 1,
            !old(self).has_key(key) ==> r is None && final(self).0@ == old(self).0@,
    {
        if self.0.len() == 0 {
            return None;
        }
        let id = self.binary_search(key);
        if self.0[id].0 == key {
            let ghost prev = self.0@;
            let element = self.0.remove(id);
            proof {
                assert forall|i: int, j: int| 0 <= i < j < self.0@.len() implies (
                #[trigger] self.0@[i]).0 < (#[trigger] self.0@[j]).0 by {
                    lemma_removed_entry(prev, id as int, i, j);
                }
                assert forall|j: int|
                    0 <= j < prev.len() && (#[trigger] prev[j]).0 != key implies self.0@.contains(
                    prev[j],
                ) by {
                    if j < id {
                        assert(self.0@[j] == prev[j]);
                    } else {
                        assert(self.0@[j - 1] == prev[j]);
                    }
                }
                assert forall|j: int| 0 <= j < self.0@.len() implies (#[trigger] self.0@[j]).0
                    != key by {
                    if j < id {
                        assert(self.0@[j] == prev[j]);
                    } else {
                        assert(self.0@[j] == prev[j + 1]);
                    }
                }
            }
            return Some(element);
        }
        None
    }

    /// Swaps the entry at `id` for `(key, value)` and hands the old value
    /// back.
    fn replace(&mut self, id: usize, key: u64, value: V) -> (r: Option<V>)
        requires
            old(self).wf(),
            id < old(self).0@.len(),
            old(self).0@[id as int].0 == key,
        ensures
            final(self).wf(),
            final(self).0@ == old(self).0@.update(id as int, (key, value)),
            r == Some(old(self).0@[id as int].1),
    {
        let pair = self.0.remove(id);
        self.0.insert(id, (key, value));
        proof {
            assert(self.0@ =~= old(self).0@.update(id as int, (key, value)));
        }
        Some(pair.1)
    }
}

proof fn lemma_removed_entry<V>(prev: Seq<(u64, V)>, id: int, i: int, j: int)
    requires
        0 <= id < prev.len(),
        forall|a: int, b: int|
            0 <= a < b < prev.len() ==> (#[trigger] prev[a]).0 < (#[trigger] prev[b]).0,
        0 <= i < j < prev.len() - 1,
    ensures
        ({
            let cur = prev.remove(id);
            cur[i].0 < cur[j].0
        }),
{
    let cur = prev.remove(id);
    if i < id {
        assert(cur[i] == prev[i]);
    } else {
        assert(cur[i] == prev[i + 1]);
    }
    if j < id {
        assert(cur[j] == prev[j]);
    } else {
        assert(cur[j] == prev[j + 1]);
    }
}

} // verus!
