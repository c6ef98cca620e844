use vstd::prelude::*;
use vstd::slice::slice_to_vec;

use crate::measurement::Measurement;
use crate::order::{bytes_lt, compare_bytes, lemma_bytes_lt_irreflexive, lemma_bytes_lt_total, lemma_bytes_lt_transitive};
use crate::station::{combine, lemma_combine_wf, single, stats_fit, stats_wf, Station, Stats};

verus! {

/// The statistics `s` folded into those of station `k`; a new station where `k` is unseen.
pub open spec fn fold_in(m: Map<Seq<u8>, Stats>, k: Seq<u8>, s: Stats) -> Map<Seq<u8>, Stats> {
    if m.contains_key(k) {
        m.insert(k, combine(m[k], s))
    } else {
        m.insert(k, s)
    }
}

/// Whether folding `s` into station `k` keeps every field within its integer type.
pub open spec fn can_fold_in(m: Map<Seq<u8>, Stats>, k: Seq<u8>, s: Stats) -> bool {
    m.contains_key(k) ==> stats_fit(combine(m[k], s))
}

/// The statistics of every station of `a` and of `b`, combined where a name is in both.
pub open spec fn merge_maps(a: Map<Seq<u8>, Stats>, b: Map<Seq<u8>, Stats>) -> Map<Seq<u8>, Stats> {
    Map::new(
        |k: Seq<u8>| a.contains_key(k) || b.contains_key(k),
        |k: Seq<u8>|
            if a.contains_key(k) && b.contains_key(k) {
                combine(a[k], b[k])
            } else if a.contains_key(k) {
                a[k]
            } else {
                b[k]
            },
    )
}

/// Whether merging `b` into `a` keeps every field within its integer type.
pub open spec fn can_merge(a: Map<Seq<u8>, Stats>, b: Map<Seq<u8>, Stats>) -> bool {
    forall|k: Seq<u8>|
        a.contains_key(k) && b.contains_key(k) ==> #[trigger] stats_fit(combine(a[k], b[k]))
}

/// The statistics of a list of `(name, tenths)` measurements, folded in order.
pub open spec fn aggregate(ms: Seq<(Seq<u8>, int)>) -> Map<Seq<u8>, Stats>
    decreases ms.len(),
{
    if ms.len() == 0 {
        Map::empty()
    } else {
        fold_in(aggregate(ms.drop_last()), ms.last().0, single(ms.last().1))
    }
}

/// Names in strictly ascending byte order.
pub open spec fn strictly_sorted(names: Seq<Seq<u8>>) -> bool {
    forall|i: int, j: int| 0 <= i < j < names.len() ==> bytes_lt(#[trigger] names[i], #[trigger] names[j])
}

/// A position of `k` in `names`, where there is one.
pub open spec fn index_of(names: Seq<Seq<u8>>, k: Seq<u8>) -> int {
    choose|i: int| 0 <= i < names.len() && names[i] == k
}

/// The map from each name to the statistics at the same position.
pub open spec fn keyed(names: Seq<Seq<u8>>, stats: Seq<Stats>) -> Map<Seq<u8>, Stats> {
    Map::new(
        |k: Seq<u8>| exists|i: int| 0 <= i < names.len() && names[i] == k,
        |k: Seq<u8>| stats[index_of(names, k)],
    )
}

proof fn lemma_keyed_at(names: Seq<Seq<u8>>, stats: Seq<Stats>, i: int)
    requires
        strictly_sorted(names),
        names.len() == stats.len(),
        0 <= i < names.len(),
    ensures
        keyed(names, stats).contains_key(names[i]),
        keyed(names, stats)[names[i]] == stats[i],
{
    let k = names[i];
    assert(0 <= i < names.len() && names[i] == k);
    assert(keyed(names, stats).dom().contains(k));
    let j = index_of(names, k);
    assert(0 <= j < names.len() && names[j] == k);
    assert(keyed(names, stats)[k] == stats[j]);
    if j != i {
        lemma_bytes_lt_irreflexive(k);
        if j < i {
            assert(bytes_lt(names[j], names[i]));
        } else {
            assert(bytes_lt(names[i], names[j]));
        }
    }
}

proof fn lemma_keyed_push(names: Seq<Seq<u8>>, stats: Seq<Stats>, i: int)
    requires
        strictly_sorted(names),
        names.len() == stats.len(),
        0 <= i < names.len(),
    ensures
        keyed(names.take(i + 1), stats.take(i + 1)) == keyed(names.take(i), stats.take(i)).insert(names[i], stats[i]),
        !keyed(names.take(i), stats.take(i)).contains_key(names[i]),
{
    let (n1, s1) = (names.take(i + 1), stats.take(i + 1));
    let (n0, s0) = (names.take(i), stats.take(i));
    let big = keyed(n1, s1);
    let target = keyed(n0, s0).insert(names[i], stats[i]);
    assert(strictly_sorted(n1));
    assert(strictly_sorted(n0));
    assert forall|k: Seq<u8>| #![auto] big.contains_key(k) == target.contains_key(k) by {
        if big.contains_key(k) {
            let j = index_of(n1, k);
            if j < i {
                assert(n0[j] == k);
            }
        }
        if keyed(n0, s0).contains_key(k) {
            let j = index_of(n0, k);
            assert(n1[j] == k);
        }
        if k == names[i] {
            assert(n1[i] == k);
        }
    }
    assert forall|k: Seq<u8>| #[trigger] big.contains_key(k) implies big[k] == target[k] by {
        let j = index_of(n1, k);
        lemma_keyed_at(n1, s1, j);
        if j < i {
            lemma_keyed_at(n0, s0, j);
            lemma_bytes_lt_irreflexive(k);
            assert(bytes_lt(names[j], names[i]));
        }
    }
    assert(big =~= target);
    if keyed(n0, s0).contains_key(names[i]) {
        let j = index_of(n0, names[i]);
        lemma_bytes_lt_irreflexive(names[i]);
        assert(bytes_lt(names[j], names[i]));
    }
}

proof fn lemma_merge_step(a: Map<Seq<u8>, Stats>, p: Map<Seq<u8>, Stats>, k: Seq<u8>, s: Stats)
    requires
        !p.contains_key(k),
    ensures
        fold_in(merge_maps(a, p), k, s) == merge_maps(a, p.insert(k, s)),
        can_fold_in(merge_maps(a, p), k, s) == (a.contains_key(k) ==> stats_fit(combine(a[k], s))),
{
    assert(fold_in(merge_maps(a, p), k, s) =~= merge_maps(a, p.insert(k, s)));
}

/// Per-station statistics over a stream of measurements, kept in ascending byte
/// order of the station names.
pub struct Accumulator {
    pub(crate) names: Vec<Vec<u8>>,
    pub(crate) stations: Vec<Station>,
}

/// Folding a value in would take a field beyond its integer type.
#[derive(Clone, Copy, Debug, PartialEq, Eq, Structural)]
pub struct Overflow;

impl View for Accumulator {
    type V = Map<Seq<u8>, Stats>;

    open(crate) spec fn view(&self) -> Map<Seq<u8>, Stats> {
        keyed(self.names_view(), self.stats_view())
    }
}

impl Accumulator {
    pub open(crate) spec fn names_view(&self) -> Seq<Seq<u8>> {
        self.names@.map_values(|n: Vec<u8>| n@)
    }

    pub open(crate) spec fn stats_view(&self) -> Seq<Stats> {
        self.stations@.map_values(|s: Station| s@)
    }

    /// Names unique and in order, and every station's statistics well-formed.
    pub open(crate) spec fn wf(&self) -> bool {
        &&& self.names@.len() == self.stations@.len()
        &&& strictly_sorted(self.names_view())
        &&& forall|i: int| 0 <= i < self.stations@.len() ==> stats_wf(#[trigger] self.stations@[i]@)
    }

    /// An accumulator with no station.
    pub fn new() -> (r: Accumulator)
        ensures
            r.wf(),
            r@ == Map::<Seq<u8>, Stats>::empty(),
    {
        let r = Accumulator { names: Vec::new(), stations: Vec::new() };
        assert(r@ =~= Map::<Seq<u8>, Stats>::empty());
        r
    }

    /// The statistics of the station called `name`, if there is one.
    pub fn get(&self, name: &[u8]) -> (r: Option<Station>)
        requires
            self.wf(),
        ensures
            r.is_some() <==> self@.contains_key(name@),
            r.is_some() ==> r.unwrap()@ == self@[name@],
    {
        let n = self.names.len();
        let mut i: usize = 0;
        while i < n
            invariant
                i <= n == self.names@.len(),
                self.wf(),
                forall|j: int| 0 <= j < i ==> self.names@[j]@ != name@,
            decreases n - i,
        {
            if compare_bytes(self.names[i].as_slice(), name) == 0 {
                proof {
                    self.lemma_entry(i as int);
                }
                return Some(self.stations[i]);
            }
            i = i + 1;
        }
        proof {
            if self@.contains_key(name@) {
                let j = index_of(self.names_view(), name@);
                assert(self.names_view()[j] == self.names@[j]@);
            }
        }
        None
    }

    /// The number of stations.
    pub fn len(&self) -> (r: usize)
        requires
            self.wf(),
        ensures
            r == self@.len(),
    {
        proof {
            self.lemma_dom_len();
        }
        self.names.len()
    }

    proof fn lemma_dom_len(&self)
        requires
            self.wf(),
        ensures
            self@.dom().finite(),
            self@.len() == self.names@.len(),
    {
        let names = self.names_view();
        let stats = self.stats_view();
        assert(self@.dom() =~= names.to_set());
        assert(names.no_duplicates()) by {
            assert forall|i: int, j: int| 0 <= i < names.len() && 0 <= j < names.len() && i != j
                implies names[i] != names[j] by {
                lemma_bytes_lt_irreflexive(names[i]);
                if i < j {
                    assert(bytes_lt(names[i], names[j]));
                } else {
                    assert(bytes_lt(names[j], names[i]));
                }
            }
        }
        names.unique_seq_to_set();
    }

    /// The statistics of station `i` in ascending order of name.
    pub(crate) proof fn lemma_entry(&self, i: int)
        requires
            self.wf(),
            0 <= i < self.names@.len(),
        ensures
            self@.contains_key(self.names@[i]@),
            self@[self.names@[i]@] == self.stations@[i]@,
    {
        lemma_keyed_at(self.names_view(), self.stats_view(), i);
    }

    /// Folds one measurement in: a new station for an unseen name, else the
    /// station's total, count and extremes updated. On `Err` nothing changes; it
    /// comes where the value does not fit in an `i32` or the total or count would
    /// overflow.
    pub fn update(&mut self, measurement: Measurement) -> (r: Result<(), Overflow>)
        requires
            old(self).wf(),
        ensures
            final(self).wf(),
            r.is_ok() <==> (i32::MIN <= measurement.value <= i32::MAX && can_fold_in(
                old(self)@,
                measurement.name@,
                single(measurement.value as int),
            )),
            r.is_ok() ==> final(self)@ == fold_in(old(self)@, measurement.name@, single(measurement.value as int)),
            r.is_err() ==> final(self)@ == old(self)@,
    {
        if measurement.value < i32::MIN as i64 || measurement.value > i32::MAX as i64 {
            return Err(Overflow);
        }
        let name = measurement.name;
        let station = Station::new_from_entry(measurement);
        self.absorb(name, station)
    }

    /// The statistics of both accumulators together: stations of one name combined,
    /// the others carried over unchanged. `Err` where a combined total or count
    /// would overflow.
    pub fn merge(self, other: Accumulator) -> (r: Result<Accumulator, Overflow>)
        requires
            self.wf(),
            other.wf(),
        ensures
            r.is_ok() <==> can_merge(self@, other@),
            r.is_ok() ==> r.unwrap().wf() && r.unwrap()@ == merge_maps(self@, other@),
    {
        let ghost a = self@;
        let ghost on = other.names_view();
        let ghost os = other.stats_view();
        let mut acc = self;
        let n = other.names.len();
        let mut i: usize = 0;
        proof {
            assert(keyed(on.take(0), os.take(0)) =~= Map::<Seq<u8>, Stats>::empty());
            assert(merge_maps(a, Map::<Seq<u8>, Stats>::empty()) =~= a);
        }
        while i < n
            invariant
                other.wf(),
                on == other.names_view(),
                os == other.stats_view(),
                n == other.names@.len(),
                i <= n,
                a == self@,
                acc.wf(),
                acc@ == merge_maps(a, keyed(on.take(i as int), os.take(i as int))),
                can_merge(a, keyed(on.take(i as int), os.take(i as int))),
            decreases n - i,
        {
            let ghost before = keyed(on.take(i as int), os.take(i as int));
            proof {
                lemma_keyed_push(on, os, i as int);
                lemma_merge_step(a, before, on[i as int], os[i as int]);
                other.lemma_entry(i as int);
            }
            match acc.absorb(other.names[i].as_slice(), other.stations[i]) {
                Ok(()) => {},
                Err(e) => {
                    proof {
                        let k = on[i as int];
                        assert(k == other.names@[i as int]@);
                        assert(os[i as int] == other.stations@[i as int]@);
                        assert(a.contains_key(k));
                        assert(other@.contains_key(k) && other@[k] == os[i as int]);
                        assert(!stats_fit(combine(a[k], other@[k])));
                        assert(!can_merge(a, other@));
                    }
                    return Err(e);
                },
            }
            proof {
                let after = keyed(on.take(i + 1), os.take(i + 1));
                assert forall|k: Seq<u8>| a.contains_key(k) && after.contains_key(k)
                    implies #[trigger] stats_fit(combine(a[k], after[k])) by {
                    if k != on[i as int] {
                        assert(before.contains_key(k));
                    }
                }
            }
            i = i + 1;
        }
        proof {
            assert(on.take(n as int) =~= on);
            assert(os.take(n as int) =~= os);
        }
        Ok(acc)
    }

    /// Folds the statistics `add` into the station called `name`, copying the name
    /// only when the station is new. On `Err` nothing changes.
    pub fn absorb(&mut self, name: &[u8], add: Station) -> (r: Result<(), Overflow>)
        requires
            old(self).wf(),
            add.wf(),
        ensures
            final(self).wf(),
            r.is_ok() <==> can_fold_in(old(self)@, name@, add@),
            r.is_ok() ==> final(self)@ == fold_in(old(self)@, name@, add@),
            r.is_err() ==> final(self)@ == old(self)@,
    {
        let ghost old_names = self.names_view();
        let ghost old_stats = self.stats_view();
        let len = self.names.len();
        let mut p: usize = 0;
        let mut c: i8 = -1;
        while p < len && c < 0
            invariant
                p <= len == self.names@.len(),
                self.names_view() == old_names,
                forall|j: int| 0 <= j < p ==> bytes_lt(#[trigger] old_names[j], name@),
                c >= 0 ==> p < len,
                c >= 0 ==> (c == 0 <==> old_names[p as int] == name@),
                c >= 0 ==> (c > 0 <==> bytes_lt(name@, old_names[p as int])),
            decreases len - p + if c < 0 { 1int } else { 0int },
        {
            c = compare_bytes(self.names[p].as_slice(), name);
            if c < 0 {
                p = p + 1;
            }
        }
        let found = c == 0;
        if found {
            assert(old_names[p as int] == name@);
            proof {
                self.lemma_entry(p as int);
            }
            let merged = match self.stations[p].combined(&add) {
                Some(s) => s,
                None => return Err(Overflow),
            };
            proof {
                lemma_combine_wf(self.stations@[p as int]@, add@);
            }
            self.stations.set(p, merged);
            proof {
                let new_stats = self.stats_view();
                assert(new_stats =~= old_stats.update(p as int, merged@));
                assert forall|k: Seq<u8>| #![auto] self@.contains_key(k) == old(self)@.insert(name@, merged@).contains_key(k) by {
                    if k == name@ {
                        assert(old_names[p as int] == k);
                    }
                }
                assert forall|k: Seq<u8>| #[trigger] self@.contains_key(k) implies self@[k] == old(self)@.insert(name@, merged@)[k] by {
                    assert(self.names_view() == old_names);
                    let j = choose|j: int| 0 <= j < old_names.len() && old_names[j] == k;
                    lemma_keyed_at(old_names, new_stats, j);
                    lemma_keyed_at(old_names, old_stats, j);
                    if j == p {
                        assert(new_stats[j] == merged@);
                    } else {
                        assert(new_stats[j] == old_stats[j]);
                        assert(k != name@);
                    }
                }
                assert(self@ =~= fold_in(old(self)@, name@, add@));
            }
            Ok(())
        } else {
            proof {
                if p < len {
                    lemma_bytes_lt_total(old_names[p as int], name@);
                }
                assert(!old(self)@.contains_key(name@)) by {
                    if old(self)@.contains_key(name@) {
                        let j = choose|j: int| 0 <= j < old_names.len() && old_names[j] == name@;
                        lemma_bytes_lt_irreflexive(name@);
                        if j >= p {
                            assert(bytes_lt(name@, old_names[p as int]));
                            if j > p {
                                assert(bytes_lt(old_names[p as int], old_names[j]));
                                lemma_bytes_lt_transitive(name@, old_names[p as int], old_names[j]);
                            }
                        }
                    }
                }
            }
            let owned = slice_to_vec(name);
            self.names.insert(p, owned);
            self.stations.insert(p, add);
            proof {
                let new_names = self.names_view();
                let new_stats = self.stats_view();
                assert(new_names =~= old_names.insert(p as int, name@));
                assert(new_stats =~= old_stats.insert(p as int, add@));
                assert(strictly_sorted(new_names)) by {
                    assert forall|i: int, j: int| 0 <= i < j < new_names.len()
                        implies bytes_lt(#[trigger] new_names[i], #[trigger] new_names[j]) by {
                        if j == p {
                        } else if i == p {
                            assert(bytes_lt(name@, old_names[p as int]));
                            if j - 1 > p {
                                assert(bytes_lt(old_names[p as int], old_names[j - 1]));
                                lemma_bytes_lt_transitive(name@, old_names[p as int], old_names[j - 1]);
                            }
                        } else if i < p && j > p {
                            assert(bytes_lt(old_names[i], old_names[j - 1]));
                        } else if i > p {
                            assert(bytes_lt(old_names[i - 1], old_names[j - 1]));
                        } else {
                            assert(bytes_lt(old_names[i], old_names[j]));
                        }
                    }
                }
                assert forall|i: int| 0 <= i < self.stations@.len() implies stats_wf(#[trigger] self.stations@[i]@) by {
                    if i < p {
                        assert(self.stations@[i] == old(self).stations@[i]);
                    } else if i > p {
                        assert(self.stations@[i] == old(self).stations@[i - 1]);
                    }
                }
                let target = old(self)@.insert(name@, add@);
                assert forall|k: Seq<u8>| #![auto] self@.contains_key(k) == target.contains_key(k) by {
                    if self@.contains_key(k) {
                        let j = choose|j: int| 0 <= j < new_names.len() && new_names[j] == k;
                        if j < p {
                            assert(old_names[j] == k);
                        } else if j > p {
                            assert(old_names[j - 1] == k);
                        }
                    }
                    if old(self)@.contains_key(k) {
                        let j = choose|j: int| 0 <= j < old_names.len() && old_names[j] == k;
                        if j < p {
                            assert(new_names[j] == k);
                        } else {
                            assert(new_names[j + 1] == k);
                        }
                    }
                    if k == name@ {
                        assert(new_names[p as int] == k);
                    }
                }
                assert forall|k: Seq<u8>| #[trigger] self@.contains_key(k) implies self@[k] == target[k] by {
                    let j = choose|j: int| 0 <= j < new_names.len() && new_names[j] == k;
                    lemma_keyed_at(new_names, new_stats, j);
                    if j < p {
                        lemma_keyed_at(old_names, old_stats, j);
                    } else if j > p {
                        lemma_keyed_at(old_names, old_stats, j - 1);
                    }
                }
                assert(self@ =~= fold_in(old(self)@, name@, add@));
            }
            Ok(())
        }
    }
}

} // verus!
