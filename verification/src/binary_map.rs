//! A sorted map from anagram keys to homograph groups: a vector of keys in
//! strictly increasing product order and a parallel vector of groups.
//! Point lookup is a binary search; the enumerator walks index ranges
//! downward.

use vstd::prelude::*;

use crate::anagram_key::{letters_of, prime_product, AnagramKey};
use crate::homograph::Homograph;

verus! {

/// The sorted key/group store.
#[derive(Debug)]
pub struct BinaryMap {
    pub keys: Vec<AnagramKey>,
    pub values: Vec<Vec<Homograph>>,
}

impl BinaryMap {
    /// Well-formedness: keys strictly increasing by product, one non-empty
    /// group per key, and every group member's text encodes exactly its key.
    pub open spec fn wf(self) -> bool {
        &&& self.values@.len() == self.keys@.len()
        &&& forall|i: int, j: int|
            0 <= i < j < self.keys@.len() ==> (#[trigger] self.keys@[i]).inner
                < (#[trigger] self.keys@[j]).inner
        &&& forall|i: int| 0 <= i < self.keys@.len() ==> (#[trigger] self.keys@[i]).len >= 1
        &&& forall|i: int| 0 <= i < self.keys@.len() ==> (#[trigger] self.keys@[i]).inner >= 2
        &&& forall|i: int| 0 <= i < self.keys@.len() ==> (#[trigger] self.values@[i]@).len() >= 1
        &&& forall|i: int, g: int|
            0 <= i < self.keys@.len() && 0 <= g < self.values@[i]@.len() ==> prime_product(
                letters_of((#[trigger] self.values@[i]@[g]).text@),
            ) == self.keys@[i].inner && letters_of(self.values@[i]@[g].text@).len()
                == self.keys@[i].len
    }

    /// The number of keys whose product is at most `inner`, found by binary
    /// search.
    pub fn count_le(&self, inner: u128) -> (r: usize)
        requires
            self.wf(),
        ensures
            r <= self.keys@.len(),
            forall|j: int| 0 <= j < r ==> (#[trigger] self.keys@[j]).inner <= inner,
            forall|j: int| r <= j < self.keys@.len() ==> (#[trigger] self.keys@[j]).inner > inner,
    {
        let mut lo: usize = 0;
        let mut hi: usize = self.keys.len();
        #[verifier::loop_isolation(false)]
        while lo < hi
            invariant
                lo <= hi <= self.keys@.len(),
                forall|j: int| 0 <= j < lo ==> (#[trigger] self.keys@[j]).inner <= inner,
                forall|j: int|
                    hi <= j < self.keys@.len() ==> (#[trigger] self.keys@[j]).inner > inner,
            decreases hi - lo,
        {
            let mid = lo + (hi - lo) / 2;
            if self.keys[mid].inner <= inner {
                proof {
                    assert forall|j: int| 0 <= j < mid + 1 implies (#[trigger] self.keys@[
                        j
                    ]).inner <= inner by {
                        if j < mid {
                            assert(self.keys@[j].inner < self.keys@[mid as int].inner);
                        }
                    }
                }
                lo = mid + 1;
            } else {
                proof {
                    assert forall|j: int|
                        mid <= j < self.keys@.len() implies (#[trigger] self.keys@[j]).inner
                        > inner by {
                        if j > mid {
                            assert(self.keys@[mid as int].inner < self.keys@[j].inner);
                        }
                    }
                }
                hi = mid;
            }
        }
        lo
    }

    /// The index of the key with this product, if any.
    pub fn index_of(&self, inner: u128) -> (r: Option<usize>)
        requires
            self.wf(),
        ensures
            match r {
                Some(i) => i < self.keys@.len() && self.keys@[i as int].inner == inner,
                None => forall|j: int|
                    0 <= j < self.keys@.len() ==> (#[trigger] self.keys@[j]).inner != inner,
            },
    {
        let c = self.count_le(inner);
        if c > 0 && self.keys[c - 1].inner == inner {
            Some(c - 1)
        } else {
            proof {
                assert forall|j: int| 0 <= j < self.keys@.len() implies (#[trigger] self.keys@[
                    j
                ]).inner != inner by {
                    if j < c {
                        if j < c - 1 {
                            assert(self.keys@[j].inner < self.keys@[c - 1].inner);
                        }
                    }
                }
            }
            None
        }
    }

    /// Whether some key has this product.
    pub fn contains_key(&self, key: &AnagramKey) -> (r: bool)
        requires
            self.wf(),
        ensures
            r == exists|j: int|
                0 <= j < self.keys@.len() && (#[trigger] self.keys@[j]).inner == key.inner,
    {
        match self.index_of(key.inner) {
            Some(i) => {
                proof {
                    assert(self.keys@[i as int].inner == key.inner);
                }
                true
            },
            None => false,
        }
    }

    /// The group of the key with this product, if any.
    pub fn get(&self, key: &AnagramKey) -> (r: Option<&Vec<Homograph>>)
        requires
            self.wf(),
        ensures
            match r {
                Some(v) => exists|i: int|
                    0 <= i < self.keys@.len() && (#[trigger] self.keys@[i]).inner == key.inner
                        && v@ == self.values@[i]@,
                None => forall|j: int|
                    0 <= j < self.keys@.len() ==> (#[trigger] self.keys@[j]).inner != key.inner,
            },
    {
        match self.index_of(key.inner) {
            Some(i) => {
                proof {
                    assert(self.keys@[i as int].inner == key.inner && self.values@[i as int]@
                        == self.values@[i as int]@);
                }
                Some(&self.values[i])
            },
            None => None,
        }
    }
}

} // verus!
