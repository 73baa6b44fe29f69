use vstd::prelude::*;
use hashbrown::HashTable;
use crate::hashing::name_hash;
use crate::parser::{Entry, records_from, records_ok};
use crate::stats::{CityInfo, Summary, combine, fits, fold_records, merge, prefix_fits, summary_fits};

verus! {

/// Entries keyed by name, held in a hashbrown table indexed by each entry's
/// stored hash.
#[verifier::external_body]
pub struct CityTable {
    table: HashTable<CityInfo>,
}

/// What the table holds: for each name, (hash, sum, count, min, max).
pub uninterp spec fn contents(t: CityTable) -> Map<Seq<u8>, (u64, i64, u32, i64, i64)>;

pub open spec fn summary_of(f: (u64, i64, u32, i64, i64)) -> Summary {
    Summary { count: f.2 as nat, sum: f.1 as int, min: f.3 as int, max: f.4 as int }
}

/// Every entry's stored hash is the hash of its name.
pub open spec fn hashes_ok(m: Map<Seq<u8>, (u64, i64, u32, i64, i64)>) -> bool {
    forall|k: Seq<u8>| #[trigger] m.contains_key(k) ==> m[k].0 == name_hash(k)
}

pub open spec fn infos_match(r: Seq<CityInfo>, m: Map<Seq<u8>, (u64, i64, u32, i64, i64)>) -> bool {
    &&& r.len() == m.dom().len()
    &&& forall|i: int| 0 <= i < r.len() ==> m.contains_key(#[trigger] r[i].name@)
    &&& forall|i: int| 0 <= i < r.len() ==> m[#[trigger] r[i].name@] == r[i].fields()
    &&& forall|i: int, j: int| 0 <= i < j < r.len() ==> r[i].name@ != r[j].name@
    &&& forall|k: Seq<u8>| #[trigger] m.contains_key(k) ==> exists|i: int| 0 <= i < r.len() && r[i].name@ == k
}

impl CityTable {
    /// The summaries the table holds, by name.
    pub open spec fn model(self) -> Map<Seq<u8>, Summary> {
        Map::new(|k: Seq<u8>| contents(self).contains_key(k), |k: Seq<u8>| summary_of(contents(self)[k]))
    }

    pub open spec fn wf(self) -> bool {
        hashes_ok(contents(self)) && contents(self).dom().finite()
    }

    /// Relies on `HashTable::new`: an empty table.
    #[verifier::external_body]
    pub(crate) fn new() -> (r: CityTable)
        ensures
            contents(r).dom() == Set::<Seq<u8>>::empty(),
    {
        CityTable { table: HashTable::new() }
    }

    /// Relies on `HashTable::entry` with `and_modify` and `or_insert_with`:
    /// given that every entry was stored under the hash of its name, the entry
    /// of `name` is found when present and updated, and inserted otherwise.
    #[verifier::external_body]
    fn upsert_value(&mut self, name: &[u8], hash: u64, v: i64)
        requires
            hash == name_hash(name@),
            hashes_ok(contents(*old(self))),
            contents(*old(self)).contains_key(name@) ==> {
                let f = contents(*old(self))[name@];
                i64::MIN <= f.1 + v <= i64::MAX && f.2 < u32::MAX
            },
        ensures
            contents(*final(self)) == contents(*old(self)).insert(
                name@,
                if contents(*old(self)).contains_key(name@) {
                    let f = contents(*old(self))[name@];
                    (f.0, (f.1 + v) as i64, (f.2 + 1) as u32, if f.3 <= v { f.3 } else { v }, if f.4 >= v { f.4 } else { v })
                } else {
                    (hash, v, 1u32, v, v)
                },
            ),
    {
        self.table.entry(hash, |e| e.has_name(name), |e| e.hash)
            .and_modify(|c| c.observe(v))
            .or_insert_with(|| CityInfo::first(name, hash, v));
    }

    /// Relies on `HashTable::entry` with `and_modify` and `or_insert`: given
    /// that every entry was stored under the hash of its name, the entry of
    /// `info`'s name absorbs `info` when present, and `info` is inserted
    /// otherwise.
    #[verifier::external_body]
    fn upsert_info(&mut self, info: CityInfo)
        requires
            info.hash == name_hash(info.name@),
            hashes_ok(contents(*old(self))),
            contents(*old(self)).contains_key(info.name@) ==> {
                let f = contents(*old(self))[info.name@];
                i64::MIN <= f.1 + info.sum <= i64::MAX && f.2 + info.count <= u32::MAX
            },
        ensures
            contents(*final(self)) == contents(*old(self)).insert(
                info.name@,
                if contents(*old(self)).contains_key(info.name@) {
                    let f = contents(*old(self))[info.name@];
                    (f.0, (f.1 + info.sum) as i64, (f.2 + info.count) as u32,
                        if f.3 <= info.min { f.3 } else { info.min },
                        if f.4 >= info.max { f.4 } else { info.max })
                } else {
                    info.fields()
                },
            ),
    {
        self.table.entry(info.hash, |e| e.has_name(&info.name), |e| e.hash)
            .and_modify(|c| c.absorb(&info))
            .or_insert(info);
    }

    /// Relies on `HashTable::find`: given that every entry was stored under the
    /// hash of its name, the entry of `name` is found exactly when present;
    /// its sum and count are read.
    #[verifier::external_body]
    fn find_totals(&self, name: &[u8], hash: u64) -> (r: Option<(i64, u32)>)
        requires
            hash == name_hash(name@),
            hashes_ok(contents(*self)),
        ensures
            r == (if contents(*self).contains_key(name@) {
                Some((contents(*self)[name@].1, contents(*self)[name@].2))
            } else {
                None::<(i64, u32)>
            }),
    {
        self.table.find(hash, |e| e.has_name(name)).map(|e| (e.sum, e.count))
    }

    /// Relies on `HashTable::into_iter`: every entry is handed out once.
    #[verifier::external_body]
    fn into_infos(self) -> (r: Vec<CityInfo>)
        ensures
            infos_match(r@, contents(self)),
    {
        self.table.into_iter().collect()
    }

    /// Relies on `HashTable::iter`: every entry is visited once, and a clone
    /// of it is taken.
    #[verifier::external_body]
    pub(crate) fn infos(&self) -> (r: Vec<CityInfo>)
        ensures
            infos_match(r@, contents(*self)),
    {
        self.table.iter().cloned().collect()
    }
}

/// Every name present in both tables has a combined summary that stays in
/// the range of the accumulators.
pub open spec fn merge_fits(a: Map<Seq<u8>, Summary>, b: Map<Seq<u8>, Summary>) -> bool {
    forall|k: Seq<u8>| a.contains_key(k) && b.contains_key(k) ==> #[trigger] summary_fits(combine(a[k], b[k]))
}

/// The names of the entries from index `i` on.
pub open spec fn names_from(r: Seq<CityInfo>, i: int) -> Set<Seq<u8>> {
    Set::new(|k: Seq<u8>| exists|j: int| i <= j < r.len() && r[j].name@ == k)
}

impl CityTable {
    /// Parses every record of `buf` and folds it into a new table.
    pub fn ingest(buf: &[u8]) -> (t: CityTable)
        requires
            records_ok(buf@, 0),
            fits(records_from(buf@, 0)),
        ensures
            t.wf(),
            t.model() == fold_records(records_from(buf@, 0)),
    {
        let mut t = CityTable::new();
        let mut pos: usize = 0;
        let ghost all = records_from(buf@, 0);
        let ghost mut done: Seq<(Seq<u8>, int)> = Seq::empty();
        assert(t.model() =~= fold_records(done));
        assert(all =~= done + records_from(buf@, 0));
        while pos < buf.len()
            invariant
                pos <= buf@.len(),
                records_ok(buf@, pos as int),
                all == records_from(buf@, 0),
                all == done + records_from(buf@, pos as int),
                t.wf(),
                t.model() == fold_records(done),
                fits(all),
            decreases buf@.len() - pos,
        {
            let e = Entry::read(buf, &mut pos);
            let ghost old_c = contents(t);
            let ghost d2 = done.push((e.name@, e.temp as int));
            proof {
                assert(d2.drop_last() =~= done);
                assert(all =~= d2 + records_from(buf@, pos as int));
                assert(all.subrange(0, d2.len() as int) =~= d2);
                assert(fold_records(d2).contains_key(e.name@));
                assert(summary_fits(fold_records(all.subrange(0, d2.len() as int))[e.name@]));
                if old_c.contains_key(e.name@) {
                    assert(t.model().contains_key(e.name@));
                }
            }
            t.upsert_value(e.name(), e.hash(), e.temp10());
            proof {
                done = d2;
                assert(t.model() =~= fold_records(done));
            }
        }
        proof {
            assert(all =~= done);
        }
        t
    }

    /// Parses every record of `buf` and folds it into a new table, or gives
    /// `None` when a running sum or count would leave the range of its
    /// accumulator.
    pub fn try_ingest(buf: &[u8]) -> (r: Option<CityTable>)
        requires
            records_ok(buf@, 0),
        ensures
            r is Some <==> fits(records_from(buf@, 0)),
            r matches Some(t) ==> t.wf() && t.model() == fold_records(records_from(buf@, 0)),
    {
        let mut t = CityTable::new();
        let mut pos: usize = 0;
        let ghost all = records_from(buf@, 0);
        let ghost mut done: Seq<(Seq<u8>, int)> = Seq::empty();
        assert(t.model() =~= fold_records(done));
        assert(all =~= done + records_from(buf@, 0));
        assert(prefix_fits(all, 0)) by {
            assert forall|i: int, k: Seq<u8>| 0 <= i <= 0 && #[trigger] fold_records(all.subrange(0, i)).contains_key(k)
                implies summary_fits(fold_records(all.subrange(0, i))[k]) by {
                assert(all.subrange(0, i) =~= Seq::<(Seq<u8>, int)>::empty());
                assert(fold_records(all.subrange(0, i)) == Map::<Seq<u8>, Summary>::empty());
            }
        }
        while pos < buf.len()
            invariant
                pos <= buf@.len(),
                records_ok(buf@, pos as int),
                all == records_from(buf@, 0),
                all == done + records_from(buf@, pos as int),
                t.wf(),
                t.model() == fold_records(done),
                prefix_fits(all, done.len() as int),
            decreases buf@.len() - pos,
        {
            let e = Entry::read(buf, &mut pos);
            let ghost old_c = contents(t);
            let ghost d2 = done.push((e.name@, e.temp as int));
            proof {
                assert(d2.drop_last() =~= done);
                assert(all =~= d2 + records_from(buf@, pos as int));
                assert(all.subrange(0, d2.len() as int) =~= d2);
                assert(all.subrange(0, done.len() as int) =~= done);
            }
            let found = t.find_totals(e.name(), e.hash());
            let overflow = match found {
                Some(tot) => {
                    let (sum, count) = tot;
                    count == u32::MAX || (sum as i128) + (e.temp10() as i128) > i64::MAX as i128
                        || (sum as i128) + (e.temp10() as i128) < i64::MIN as i128
                },
                None => false,
            };
            if overflow {
                proof {
                    assert(fold_records(all.subrange(0, d2.len() as int)).contains_key(e.name@));
                    assert(!summary_fits(fold_records(all.subrange(0, d2.len() as int))[e.name@]));
                }
                return None;
            }
            proof {
                if old_c.contains_key(e.name@) {
                    assert(t.model().contains_key(e.name@));
                    assert(summary_fits(fold_records(all.subrange(0, done.len() as int))[e.name@]));
                }
            }
            t.upsert_value(e.name(), e.hash(), e.temp10());
            proof {
                let prev = fold_records(done);
                assert forall|i: int, k: Seq<u8>| 0 <= i <= d2.len() && #[trigger] fold_records(all.subrange(0, i)).contains_key(k)
                    implies summary_fits(fold_records(all.subrange(0, i))[k]) by {
                    if i == d2.len() {
                        if k != e.name@ {
                            assert(prev.contains_key(k));
                            assert(fold_records(all.subrange(0, i))[k] == prev[k]);
                            assert(summary_fits(fold_records(all.subrange(0, done.len() as int))[k]));
                        } else if prev.contains_key(k) {
                            assert(summary_fits(fold_records(all.subrange(0, done.len() as int))[k]));
                        }
                    }
                }
                done = d2;
                assert(t.model() =~= fold_records(done));
            }
        }
        proof {
            assert(all =~= done);
        }
        Some(t)
    }

    /// Folds every entry of `other` into this table, name by name.
    pub fn join(self, other: CityTable) -> (r: CityTable)
        requires
            self.wf(),
            other.wf(),
            merge_fits(self.model(), other.model()),
        ensures
            r.wf(),
            r.model() == merge(self.model(), other.model()),
    {
        let ghost ma = self.model();
        let ghost mb = other.model();
        let ghost cb = contents(other);
        let mut infos = other.into_infos();
        let ghost orig = infos@;
        let mut t = self;
        assert(mb.restrict(names_from(orig, orig.len() as int)) =~= Map::empty());
        assert(t.model() =~= merge(ma, mb.restrict(names_from(orig, orig.len() as int))));
        while infos.len() > 0
            invariant
                infos@.len() <= orig.len(),
                infos@ == orig.subrange(0, infos@.len() as int),
                infos_match(orig, cb),
                hashes_ok(cb),
                mb == other.model(),
                cb == contents(other),
                merge_fits(ma, mb),
                t.wf(),
                t.model() == merge(ma, mb.restrict(names_from(orig, infos@.len() as int))),
            decreases infos@.len(),
        {
            let ghost k = infos@.len() - 1;
            let ghost n = orig[k].name@;
            let ghost seen = names_from(orig, k + 1);
            let info = infos.pop().unwrap();
            proof {
                assert(info == orig[k]);
                assert(cb.contains_key(n) && cb[n] == info.fields());
                assert(mb[n] == info.summary());
                assert(!seen.contains(n));
                assert(mb.contains_key(n));
                if contents(t).contains_key(n) {
                    assert(t.model().contains_key(n));
                    assert(ma.contains_key(n));
                    assert(t.model()[n] == ma[n]);
                    assert(summary_fits(combine(ma[n], mb[n])));
                }
            }
            let ghost before = t.model();
            t.upsert_info(info);
            proof {
                assert(infos@ =~= orig.subrange(0, k));
                assert(names_from(orig, k) =~= seen.insert(n));
                let target = merge(ma, mb.restrict(names_from(orig, k)));
                assert forall|x: Seq<u8>| #[trigger] t.model().contains_key(x) == target.contains_key(x) by {
                    assert(t.model().contains_key(x) == (contents(t).contains_key(x)));
                    assert(before.contains_key(x) == (ma.contains_key(x) || mb.restrict(seen).contains_key(x)));
                    assert(names_from(orig, k).contains(x) == (seen.contains(x) || x == n));
                }
                assert forall|x: Seq<u8>| t.model().contains_key(x) implies #[trigger] t.model()[x] == target[x] by {
                    if x != n {
                        assert(t.model()[x] == before[x]);
                        assert(names_from(orig, k).contains(x) == seen.contains(x));
                        assert(mb.restrict(seen).contains_key(x) == mb.restrict(names_from(orig, k)).contains_key(x));
                    } else {
                        assert(mb.restrict(names_from(orig, k)).contains_key(n));
                        assert(mb.restrict(names_from(orig, k))[n] == mb[n]);
                        if before.contains_key(n) {
                            assert(ma.contains_key(n));
                            assert(before[n] == ma[n]);
                        } else {
                            assert(!ma.contains_key(n));
                        }
                    }
                }
                assert(t.model() =~= target);
            }
        }
        proof {
            assert(names_from(orig, 0) =~= mb.dom());
            assert(mb.restrict(mb.dom()) =~= mb);
        }
        t
    }
}

} // verus!
