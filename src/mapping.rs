//! Key-to-aggregate mappings: the model (`Map<Seq<u8>, Summary>`) with its laws, and the
//! executable `Mapping`.
use vstd::prelude::*;
use crate::stats::{
    Aggregate, Summary, combine, extend, single, summary_valid, value_in_range,
    lemma_combine_valid,
};
use crate::record::copy_range;

verus! {

/// Folds one measurement for `k` into a mapping.
pub open spec fn add_value(m: Map<Seq<u8>, Summary>, k: Seq<u8>, v: int) -> Map<Seq<u8>, Summary> {
    m.insert(k, if m.contains_key(k) { extend(m[k], v) } else { single(v) })
}

/// The union of two mappings, combining the summaries of keys present in both.
pub open spec fn merge_maps(a: Map<Seq<u8>, Summary>, b: Map<Seq<u8>, Summary>) -> Map<
    Seq<u8>,
    Summary,
> {
    Map::new(
        |k: Seq<u8>| a.contains_key(k) || b.contains_key(k),
        |k: Seq<u8>|
            if a.contains_key(k) && b.contains_key(k) {
                combine(a[k], b[k])
            } else if a.contains_key(k) {
                a[k]
            } else {
                b[k]
            },
    )
}

/// Every summary of the mapping is valid.
pub open spec fn mapping_valid(m: Map<Seq<u8>, Summary>) -> bool {
    forall|k: Seq<u8>| #[trigger] m.contains_key(k) ==> summary_valid(m[k])
}

/// No summary counts more than `n` measurements.
pub open spec fn counts_at_most(m: Map<Seq<u8>, Summary>, n: int) -> bool {
    forall|k: Seq<u8>| #[trigger] m.contains_key(k) ==> m[k].count <= n
}

/// Two mappings can be merged without a count leaving `u64`.
pub open spec fn mergeable(a: Map<Seq<u8>, Summary>, b: Map<Seq<u8>, Summary>) -> bool {
    forall|k: Seq<u8>|
        #[trigger] a.contains_key(k) && b.contains_key(k) ==> a[k].count + b[k].count <= u64::MAX
}

/// Merging is commutative.
pub proof fn lemma_merge_commutative(a: Map<Seq<u8>, Summary>, b: Map<Seq<u8>, Summary>)
    ensures
        merge_maps(a, b) == merge_maps(b, a),
{
    assert(merge_maps(a, b) =~= merge_maps(b, a));
}

/// Merging is associative, so local mappings may be merged in any grouping.
pub proof fn lemma_merge_associative(
    a: Map<Seq<u8>, Summary>,
    b: Map<Seq<u8>, Summary>,
    c: Map<Seq<u8>, Summary>,
)
    ensures
        merge_maps(merge_maps(a, b), c) == merge_maps(a, merge_maps(b, c)),
{
    assert(merge_maps(merge_maps(a, b), c) =~= merge_maps(a, merge_maps(b, c)));
}

/// Merging with a mapping that holds nothing changes nothing, on either side.
pub proof fn lemma_merge_empty_identity(m: Map<Seq<u8>, Summary>)
    ensures
        merge_maps(m, Map::empty()) == m,
        merge_maps(Map::empty(), m) == m,
{
    assert(merge_maps(m, Map::empty()) =~= m);
    assert(merge_maps(Map::empty(), m) =~= m);
}

/// Adding a measurement after a merge is the same as adding it to the right operand first.
pub proof fn lemma_add_after_merge(
    a: Map<Seq<u8>, Summary>,
    b: Map<Seq<u8>, Summary>,
    k: Seq<u8>,
    v: int,
)
    ensures
        add_value(merge_maps(a, b), k, v) == merge_maps(a, add_value(b, k, v)),
{
    if a.contains_key(k) && b.contains_key(k) {
        crate::stats::lemma_combine_associative(a[k], b[k], single(v));
    }
    assert(add_value(merge_maps(a, b), k, v) =~= merge_maps(a, add_value(b, k, v)));
}

/// A valid mapping stays valid when a measurement in range is added.
pub proof fn lemma_add_valid(m: Map<Seq<u8>, Summary>, k: Seq<u8>, v: int)
    requires
        mapping_valid(m),
        value_in_range(v),
    ensures
        mapping_valid(add_value(m, k, v)),
{
    if m.contains_key(k) {
        lemma_combine_valid(m[k], single(v));
    }
}

/// The key-to-aggregate mapping of a chunk or of a whole run. Keys are byte strings,
/// compared exactly.
pub struct Mapping {
    entries: Vec<(Vec<u8>, Aggregate)>,
    model: Ghost<Map<Seq<u8>, Summary>>,
}

impl View for Mapping {
    type V = Map<Seq<u8>, Summary>;

    closed spec fn view(&self) -> Map<Seq<u8>, Summary> {
        self.model@
    }
}

/// Byte-wise equality of two slices.
fn bytes_equal(a: &[u8], b: &[u8]) -> (r: bool)
    ensures
        r == (a@ == b@),
{
    if a.len() != b.len() {
        return false;
    }
    let mut i: usize = 0;
    while i < a.len()
        invariant
            a@.len() == b@.len(),
            i <= a@.len(),
            forall|t: int| 0 <= t < i ==> a@[t] == b@[t],
        decreases a@.len() - i,
    {
        if a[i] != b[i] {
            return false;
        }
        i = i + 1;
    }
    assert(a@ =~= b@);
    true
}

impl Mapping {
    pub closed spec fn wf(&self) -> bool {
        &&& forall|i: int| 0 <= i < self.entries@.len() ==> (#[trigger] self.entries@[i]).1.wf()
        &&& forall|i: int, j: int|
            0 <= i < self.entries@.len() && 0 <= j < self.entries@.len() && i != j
                ==> (#[trigger] self.entries@[i]).0@ != (#[trigger] self.entries@[j]).0@
        &&& forall|i: int|
            0 <= i < self.entries@.len() ==> self.model@.contains_key(
                (#[trigger] self.entries@[i]).0@,
            ) && self.model@[self.entries@[i].0@] == self.entries@[i].1@
        &&& forall|k: Seq<u8>| #[trigger]
            self.model@.contains_key(k) ==> exists|i: int|
                0 <= i < self.entries@.len() && (#[trigger] self.entries@[i]).0@ == k
    }

    /// A mapping with no keys.
    pub fn new() -> (r: Mapping)
        ensures
            r.wf(),
            r@ == Map::<Seq<u8>, Summary>::empty(),
    {
        Mapping { entries: Vec::new(), model: Ghost(Map::empty()) }
    }

    /// Number of keys.
    pub fn len(&self) -> (r: usize)
        requires
            self.wf(),
        ensures
            r as int == self@.len(),
    {
        proof {
            self.lemma_len();
        }
        self.entries.len()
    }

    proof fn lemma_len(&self)
        requires
            self.wf(),
        ensures
            self@.len() == self.entries@.len(),
            self@.dom().finite(),
    {
        let keys = Seq::new(self.entries@.len(), |i: int| self.entries@[i].0@);
        assert(keys.no_duplicates());
        assert(keys.to_set() =~= self@.dom()) by {
            assert forall|k: Seq<u8>| #[trigger] self@.dom().contains(k) implies keys.to_set().contains(k) by {
                let i = choose|i: int| 0 <= i < self.entries@.len() && (#[trigger] self.entries@[i]).0@ == k;
                assert(keys[i] == k);
            }
            assert forall|k: Seq<u8>| #[trigger] keys.to_set().contains(k) implies self@.dom().contains(k) by {
                let i = choose|i: int| 0 <= i < keys.len() && keys[i] == k;
                assert(self.entries@[i].0@ == k);
            }
        }
        keys.unique_seq_to_set();
    }

    /// Every key with its aggregate, each key once, in no particular order.
    pub fn entries(&self) -> (r: Vec<(Vec<u8>, Aggregate)>)
        requires
            self.wf(),
        ensures
            r@.len() == self@.len(),
            forall|i: int|
                0 <= i < r@.len() ==> self@.contains_key((#[trigger] r@[i]).0@) && self@[r@[i].0@]
                    == r@[i].1@ && r@[i].1.wf(),
            forall|k: Seq<u8>| #[trigger]
                self@.contains_key(k) ==> exists|i: int| 0 <= i < r@.len() && (#[trigger] r@[i]).0@ == k,
            forall|i: int, j: int|
                0 <= i < r@.len() && 0 <= j < r@.len() && i != j ==> (#[trigger] r@[i]).0@ != (#[trigger] r@[j]).0@,
    {
        proof {
            self.lemma_len();
        }
        let mut out: Vec<(Vec<u8>, Aggregate)> = Vec::new();
        let mut i: usize = 0;
        while i < self.entries.len()
            invariant
                self.wf(),
                i <= self.entries@.len(),
                out@.len() == i,
                forall|t: int|
                    0 <= t < i ==> (#[trigger] out@[t]).0@ == self.entries@[t].0@ && out@[t].1@
                        == self.entries@[t].1@,
            decreases self.entries@.len() - i,
        {
            let key = copy_range(self.entries[i].0.as_slice(), 0, self.entries[i].0.len());
            assert(key@ =~= self.entries@[i as int].0@);
            out.push((key, self.entries[i].1.clone()));
            i = i + 1;
        }
        assert forall|k: Seq<u8>| #[trigger] self@.contains_key(k) implies exists|t: int|
            0 <= t < out@.len() && (#[trigger] out@[t]).0@ == k by {
            let t = choose|t: int| 0 <= t < self.entries@.len() && (#[trigger] self.entries@[t]).0@ == k;
            assert(out@[t].0@ == k);
        }
        assert forall|t: int| 0 <= t < out@.len() implies self@.contains_key((#[trigger] out@[t]).0@)
            && self@[out@[t].0@] == out@[t].1@ && out@[t].1.wf() by {
            assert(self.entries@[t].1.wf());
        }
        assert forall|a: int, b: int|
            0 <= a < out@.len() && 0 <= b < out@.len() && a != b implies (#[trigger] out@[a]).0@ != (#[trigger] out@[b]).0@ by {
            assert(self.entries@[a].0@ != self.entries@[b].0@);
        }
        out
    }

    pub proof fn lemma_finite(&self)
        requires
            self.wf(),
        ensures
            self@.dom().finite(),
    {
        self.lemma_len();
    }

    /// Index of the entry whose key is `key`.
    fn find(&self, key: &[u8]) -> (r: Option<usize>)
        requires
            self.wf(),
        ensures
            match r {
                Some(i) => i < self.entries@.len() && self.entries@[i as int].0@ == key@,
                None => !self@.contains_key(key@),
            },
    {
        let mut i: usize = 0;
        while i < self.entries.len()
            invariant
                self.wf(),
                i <= self.entries@.len(),
                forall|t: int| 0 <= t < i ==> (#[trigger] self.entries@[t]).0@ != key@,
            decreases self.entries@.len() - i,
        {
            if bytes_equal(self.entries[i].0.as_slice(), key) {
                return Some(i);
            }
            i = i + 1;
        }
        None
    }

    /// Whether `key` is present.
    pub fn contains(&self, key: &[u8]) -> (r: bool)
        requires
            self.wf(),
        ensures
            r == self@.contains_key(key@),
    {
        self.find(key).is_some()
    }

    /// The aggregate of `key`, if present.
    pub fn get(&self, key: &[u8]) -> (r: Option<Aggregate>)
        requires
            self.wf(),
        ensures
            match r {
                Some(a) => self@.contains_key(key@) && a@ == self@[key@] && a.wf(),
                None => !self@.contains_key(key@),
            },
    {
        match self.find(key) {
            Some(i) => Some(self.entries[i].1.clone()),
            None => None,
        }
    }

    /// Replaces the aggregate of entry `i`.
    fn replace_at(&mut self, i: usize, a: Aggregate)
        requires
            old(self).wf(),
            i < old(self).entries@.len(),
            a.wf(),
        ensures
            final(self).wf(),
            final(self)@ == old(self)@.insert(old(self).entries@[i as int].0@, a@),
            final(self).entries@.len() == old(self).entries@.len(),
    {
        let key = copy_range(self.entries[i].0.as_slice(), 0, self.entries[i].0.len());
        assert(key@ =~= self.entries@[i as int].0@);
        let ghost k = key@;
        self.entries.set(i, (key, a));
        self.model = Ghost(self.model@.insert(k, a@));
        proof {
            assert forall|k2: Seq<u8>| #[trigger]
                self.model@.contains_key(k2) implies exists|j: int|
                    0 <= j < self.entries@.len() && (#[trigger] self.entries@[j]).0@ == k2 by {
                if k2 != k {
                    let j = choose|j: int|
                        0 <= j < old(self).entries@.len() && (#[trigger] old(self).entries@[j]).0@ == k2;
                    assert(self.entries@[j].0@ == k2);
                } else {
                    assert(self.entries@[i as int].0@ == k2);
                }
            }
        }
    }

    /// Adds an entry for a key that is not present.
    fn push_new(&mut self, key: Vec<u8>, a: Aggregate)
        requires
            old(self).wf(),
            !old(self)@.contains_key(key@),
            a.wf(),
        ensures
            final(self).wf(),
            final(self)@ == old(self)@.insert(key@, a@),
            final(self).entries@.len() == old(self).entries@.len() + 1,
    {
        let ghost k = key@;
        self.entries.push((key, a));
        self.model = Ghost(self.model@.insert(k, a@));
        proof {
            let n = self.entries@.len() - 1;
            assert(self.entries@[n].0@ == k);
            assert forall|k2: Seq<u8>| #[trigger]
                self.model@.contains_key(k2) implies exists|j: int|
                    0 <= j < self.entries@.len() && (#[trigger] self.entries@[j]).0@ == k2 by {
                if k2 != k {
                    let j = choose|j: int|
                        0 <= j < old(self).entries@.len() && (#[trigger] old(self).entries@[j]).0@ == k2;
                    assert(self.entries@[j].0@ == k2);
                } else {
                    assert(self.entries@[n].0@ == k2);
                }
            }
        }
    }

    /// Folds measurement `v` for `key` in: a fresh aggregate for a new key, else
    /// `add_measurement` on the existing one.
    pub fn add(&mut self, key: Vec<u8>, v: i64)
        requires
            old(self).wf(),
            value_in_range(v as int),
            old(self)@.contains_key(key@) ==> old(self)@[key@].count < u64::MAX,
        ensures
            final(self).wf(),
            final(self)@ == add_value(old(self)@, key@, v as int),
    {
        match self.find(key.as_slice()) {
            Some(i) => {
                let mut a = self.entries[i].1.clone();
                a.add_measurement(v);
                self.replace_at(i, a);
            },
            None => {
                self.push_new(key, Aggregate::new(v));
            },
        }
        assert(self.model@ =~= add_value(old(self)@, key@, v as int));
    }

    /// Whether `other` can be merged into `self` without a count leaving `u64`.
    pub fn fits_with(&self, other: &Mapping) -> (r: bool)
        requires
            self.wf(),
            other.wf(),
        ensures
            r == mergeable(self@, other@),
    {
        let mut j: usize = 0;
        while j < other.entries.len()
            invariant
                self.wf(),
                other.wf(),
                j <= other.entries@.len(),
                forall|t: int|
                    0 <= t < j && #[trigger] self@.contains_key(other.entries@[t].0@) ==> self@[other.entries@[t].0@].count
                        + other.entries@[t].1@.count <= u64::MAX,
            decreases other.entries@.len() - j,
        {
            match self.find(other.entries[j].0.as_slice()) {
                Some(i) => {
                    if self.entries[i].1.count() > u64::MAX - other.entries[j].1.count() {
                        return false;
                    }
                },
                None => {},
            }
            j = j + 1;
        }
        assert forall|k: Seq<u8>| #[trigger]
            self@.contains_key(k) && other@.contains_key(k) implies self@[k].count
                + other@[k].count <= u64::MAX by {
            let t = choose|t: int| 0 <= t < other.entries@.len() && (#[trigger] other.entries@[t]).0@ == k;
        }
        true
    }

    /// Merges `other` into `self`: every key of either, with the summaries of shared keys
    /// combined.
    pub fn merge_from(&mut self, other: &Mapping)
        requires
            old(self).wf(),
            other.wf(),
            mergeable(old(self)@, other@),
        ensures
            final(self).wf(),
            final(self)@ == merge_maps(old(self)@, other@),
    {
        let ghost start = self@;
        let ghost mut part: Map<Seq<u8>, Summary> = Map::empty();
        let mut j: usize = 0;
        while j < other.entries.len()
            invariant
                self.wf(),
                other.wf(),
                mergeable(start, other@),
                j <= other.entries@.len(),
                self@ == merge_maps(start, part),
                forall|t: int| 0 <= t < j ==> part.contains_key(#[trigger] other.entries@[t].0@),
                forall|k: Seq<u8>| #[trigger]
                    part.contains_key(k) ==> other@.contains_key(k) && part[k] == other@[k]
                        && exists|t: int| 0 <= t < j && (#[trigger] other.entries@[t]).0@ == k,
            decreases other.entries@.len() - j,
        {
            let ghost kj = other.entries@[j as int].0@;
            assert(!part.contains_key(kj)) by {
                if part.contains_key(kj) {
                    let t = choose|t: int| 0 <= t < j && (#[trigger] other.entries@[t]).0@ == kj;
                }
            }
            match self.find(other.entries[j].0.as_slice()) {
                Some(i) => {
                    let mut a = self.entries[i].1.clone();
                    a.merge(&other.entries[j].1);
                    self.replace_at(i, a);
                },
                None => {
                    let key = copy_range(other.entries[j].0.as_slice(), 0, other.entries[j].0.len());
                    assert(key@ =~= kj);
                    self.push_new(key, other.entries[j].1.clone());
                },
            }
            proof {
                part = part.insert(kj, other@[kj]);
                assert(self@ =~= merge_maps(start, part));
            }
            j = j + 1;
        }
        proof {
            assert forall|k: Seq<u8>| #[trigger] other@.contains_key(k) implies part.contains_key(k) by {
                let t = choose|t: int| 0 <= t < other.entries@.len() && (#[trigger] other.entries@[t]).0@ == k;
            }
            assert(part =~= other@);
        }
    }
}

} // verus!
