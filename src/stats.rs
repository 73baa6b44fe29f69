use vstd::prelude::*;
use crate::hashing::name_hash;

verus! {

/// Running statistics of the observations of one name.
pub struct Summary {
    pub count: nat,
    pub sum: int,
    pub min: int,
    pub max: int,
}

pub open spec fn observe(v: int) -> Summary {
    Summary { count: 1, sum: v, min: v, max: v }
}

pub open spec fn combine(a: Summary, b: Summary) -> Summary {
    Summary {
        count: a.count + b.count,
        sum: a.sum + b.sum,
        min: if a.min <= b.min { a.min } else { b.min },
        max: if a.max >= b.max { a.max } else { b.max },
    }
}

/// Folds one observation into the summaries keyed by name.
pub open spec fn add_record(m: Map<Seq<u8>, Summary>, name: Seq<u8>, v: int) -> Map<Seq<u8>, Summary> {
    if m.contains_key(name) {
        m.insert(name, combine(m[name], observe(v)))
    } else {
        m.insert(name, observe(v))
    }
}

/// The summaries of a sequence of (name, temperature) records.
pub open spec fn fold_records(recs: Seq<(Seq<u8>, int)>) -> Map<Seq<u8>, Summary>
    decreases recs.len(),
{
    if recs.len() == 0 {
        Map::empty()
    } else {
        let r = recs.last();
        add_record(fold_records(recs.drop_last()), r.0, r.1)
    }
}

/// The union of two tables of summaries; a name present in both gets the
/// combination of its two summaries.
pub open spec fn merge(a: Map<Seq<u8>, Summary>, b: Map<Seq<u8>, Summary>) -> Map<Seq<u8>, Summary> {
    Map::new(
        |k: Seq<u8>| a.contains_key(k) || b.contains_key(k),
        |k: Seq<u8>|
            if a.contains_key(k) && b.contains_key(k) {
                combine(a[k], b[k])
            } else if a.contains_key(k) {
                a[k]
            } else {
                b[k]
            },
    )
}

/// No running sum or count of the records, taken in their order, leaves the
/// range of the accumulators.
pub open spec fn fits(recs: Seq<(Seq<u8>, int)>) -> bool {
    prefix_fits(recs, recs.len() as int)
}

/// The accumulators stay in range over the first `n` records.
pub open spec fn prefix_fits(recs: Seq<(Seq<u8>, int)>, n: int) -> bool {
    forall|i: int, k: Seq<u8>|
        0 <= i <= n && #[trigger] fold_records(recs.subrange(0, i)).contains_key(k)
            ==> summary_fits(fold_records(recs.subrange(0, i))[k])
}

pub open spec fn summary_fits(s: Summary) -> bool {
    &&& i64::MIN <= s.sum <= i64::MAX
    &&& s.count <= u32::MAX
    &&& i64::MIN <= s.min <= i64::MAX
    &&& i64::MIN <= s.max <= i64::MAX
}

/// The accumulated statistics of one name, with an owned copy of the name.
#[derive(Clone)]
pub struct CityInfo {
    pub name: Vec<u8>,
    pub hash: u64,
    pub sum: i64,
    pub count: u32,
    pub min: i64,
    pub max: i64,
}

impl CityInfo {
    pub open spec fn summary(&self) -> Summary {
        Summary { count: self.count as nat, sum: self.sum as int, min: self.min as int, max: self.max as int }
    }

    /// The fields as plain values: (hash, sum, count, min, max).
    pub open spec fn fields(&self) -> (u64, i64, u32, i64, i64) {
        (self.hash, self.sum, self.count, self.min, self.max)
    }

    /// An entry with no observations: the sum and count are zero and the
    /// minimum and maximum stand at the extremes of their range.
    pub fn new(name: &[u8], hash: u64) -> (r: CityInfo)
        ensures
            r.name@ == name@,
            r.hash == hash,
            r.sum == 0,
            r.count == 0,
            r.min == i64::MAX,
            r.max == i64::MIN,
    {
        let mut owned: Vec<u8> = Vec::new();
        let mut i: usize = 0;
        while i < name.len()
            invariant
                i <= name@.len(),
                owned@ == name@.subrange(0, i as int),
            decreases name@.len() - i,
        {
            owned.push(name[i]);
            i = i + 1;
            assert(owned@ =~= name@.subrange(0, i as int));
        }
        assert(owned@ =~= name@);
        CityInfo { name: owned, hash, sum: 0, count: 0, min: i64::MAX, max: i64::MIN }
    }

    /// The entry of a name seen once, with temperature `v`.
    pub fn first(name: &[u8], hash: u64, v: i64) -> (r: CityInfo)
        ensures
            r.name@ == name@,
            r.hash == hash,
            r.summary() == observe(v as int),
    {
        let mut r = CityInfo::new(name, hash);
        r.observe(v);
        r
    }

    /// Folds the temperature `v` into the entry.
    pub fn observe(&mut self, v: i64)
        requires
            i64::MIN <= old(self).sum + v <= i64::MAX,
            old(self).count < u32::MAX,
        ensures
            final(self).name == old(self).name,
            final(self).hash == old(self).hash,
            final(self).sum == old(self).sum + v,
            final(self).count == old(self).count + 1,
            final(self).min == if old(self).min <= v { old(self).min } else { v },
            final(self).max == if old(self).max >= v { old(self).max } else { v },
    {
        self.sum = self.sum + v;
        self.count = self.count + 1;
        if v < self.min {
            self.min = v;
        }
        if v > self.max {
            self.max = v;
        }
    }

    /// Folds the statistics of another entry of the same name into this one.
    pub fn absorb(&mut self, other: &CityInfo)
        requires
            i64::MIN <= old(self).sum + other.sum <= i64::MAX,
            old(self).count + other.count <= u32::MAX,
        ensures
            final(self).name == old(self).name,
            final(self).hash == old(self).hash,
            final(self).summary() == combine(old(self).summary(), other.summary()),
    {
        self.sum = self.sum + other.sum;
        self.count = self.count + other.count;
        if other.min < self.min {
            self.min = other.min;
        }
        if other.max > self.max {
            self.max = other.max;
        }
    }

    /// Whether the entry's name is `name`, byte for byte.
    pub fn has_name(&self, name: &[u8]) -> (r: bool)
        ensures
            r == (self.name@ == name@),
    {
        if self.name.len() != name.len() {
            return false;
        }
        let mut i: usize = 0;
        while i < name.len()
            invariant
                self.name@.len() == name@.len(),
                i <= name@.len(),
                forall|x: int| 0 <= x < i ==> self.name@[x] == name@[x],
            decreases name@.len() - i,
        {
            if self.name[i] != name[i] {
                return false;
            }
            i = i + 1;
        }
        assert(self.name@ =~= name@);
        true
    }

    pub fn name(&self) -> (r: &[u8])
        ensures
            r@ == self.name@,
    {
        self.name.as_slice()
    }

    pub fn hash(&self) -> (r: u64)
        ensures
            r == self.hash,
    {
        self.hash
    }

    /// The entry's hash is that of its name.
    pub open spec fn hash_ok(&self) -> bool {
        self.hash == name_hash(self.name@)
    }
}

} // verus!
