use vstd::prelude::*;

use crate::error::{Error, ErrorKind};
use crate::region::{regions_disjoint, MemoryRegion};
use crate::sorted::{key_strict_sorted, lower_bound};

verus! {

/// Whether the pair sequence holds `a` as a key (source address).
pub open spec fn cache_has_key(c: Seq<(u64, u64)>, a: u64) -> bool {
    exists|i: int| 0 <= i < c.len() && (#[trigger] c[i]).0 == a
}

/// Whether the pair sequence maps address `a` to value `v`.
pub open spec fn cache_maps(c: Seq<(u64, u64)>, a: u64, v: u64) -> bool {
    exists|i: int| 0 <= i < c.len() && #[trigger] c[i] == (a, v)
}

/// Whether `a` lies in one of the first `k` regions.
pub open spec fn in_region_upto(regions: Seq<MemoryRegion>, k: int, a: u64) -> bool {
    exists|j: int| 0 <= j < k && (#[trigger] regions[j]).spec_contains(a)
}

/// Whether `a` lies in one of the regions.
pub open spec fn in_some_region(regions: Seq<MemoryRegion>, a: u64) -> bool {
    in_region_upto(regions, regions.len() as int, a)
}

/// An anchor is a cached address lying inside one of the selected regions.
pub open spec fn is_anchor(c: Seq<(u64, u64)>, regions: Seq<MemoryRegion>, a: u64) -> bool {
    cache_has_key(c, a) && in_some_region(regions, a)
}

/// Whether `a` occurs as a key among cache entries `lo..hi`.
spec fn key_in_range(c: Seq<(u64, u64)>, lo: int, hi: int, a: u64) -> bool {
    exists|i: int| lo <= i < hi && (#[trigger] c[i]).0 == a
}

/// The address-to-value cache: every captured address that holds a
/// plausible pointer, paired with the 8-byte value stored there, kept
/// strictly sorted by address so that windowed range queries are cheap.
#[derive(Clone, Debug)]
pub struct AddressValueCache {
    pub entries: Vec<(u64, u64)>,
}

impl View for AddressValueCache {
    type V = Seq<(u64, u64)>;

    open spec fn view(&self) -> Seq<(u64, u64)> {
        self.entries@
    }
}

impl AddressValueCache {
    /// The cache invariant: addresses strictly increase, so each address
    /// occurs at most once and binds a single value.
    pub open spec fn wf(self) -> bool {
        key_strict_sorted(self.entries@)
    }

    /// Builds a cache from `(address, value)` pairs, which must already be
    /// strictly sorted by address; rejects any other order.
    pub fn from_entries(entries: Vec<(u64, u64)>) -> (r: Result<AddressValueCache, Error>)
        ensures
            match r {
                Ok(c) => c@ == entries@ && c.wf(),
                Err(e) => e == Error(ErrorKind::UnsortedCache) && !key_strict_sorted(entries@),
            },
            r is Ok <==> key_strict_sorted(entries@),
    {
        let n = entries.len();
        if n <= 1 {
            return Ok(AddressValueCache { entries });
        }
        let mut i: usize = 1;
        while i < n
            invariant
                n == entries@.len(),
                1 <= i <= n,
                forall|p: int, q: int|
                    0 <= p < q < i ==> (#[trigger] entries@[p]).0 < (#[trigger] entries@[q]).0,
            decreases n - i,
        {
            if entries[i - 1].0 >= entries[i].0 {
                proof {
                    assert(!key_strict_sorted(entries@)) by {
                        assert(!(entries@[i - 1].0 < entries@[i as int].0));
                    }
                }
                return Err(Error(ErrorKind::UnsortedCache));
            }
            proof {
                assert forall|p: int, q: int|
                    0 <= p < q < i + 1 implies (#[trigger] entries@[p]).0 < (
                #[trigger] entries@[q]).0 by {
                    if q == i {
                        if p < i - 1 {
                            assert(entries@[p].0 < entries@[i - 1].0);
                        }
                    }
                }
            }
            i = i + 1;
        }
        Ok(AddressValueCache { entries })
    }

    /// Number of cached pairs.
    pub fn len(&self) -> (r: usize)
        ensures
            r == self@.len(),
    {
        self.entries.len()
    }

    /// Selects the anchors: every cached address falling inside one of the
    /// selected regions, found by one sorted range query per region. Under
    /// the catalog's non-overlap invariant the result has no duplicates.
    pub fn select_anchors(&self, regions: &Vec<MemoryRegion>) -> (r: Vec<u64>)
        requires
            self.wf(),
            regions_disjoint(regions@),
        ensures
            forall|a: u64| r@.contains(a) <==> is_anchor(self@, regions@, a),
            forall|m: int, n: int| 0 <= m < n < r@.len() ==> r@[m] != r@[n],
    {
        let mut out: Vec<u64> = Vec::new();
        let mut j: usize = 0;
        while j < regions.len()
            invariant
                self.wf(),
                regions_disjoint(regions@),
                j <= regions@.len(),
                forall|a: u64|
                    out@.contains(a) <==> (cache_has_key(self@, a) && in_region_upto(
                        regions@,
                        j as int,
                        a,
                    )),
                forall|m: int, n: int| 0 <= m < n < out@.len() ==> out@[m] != out@[n],
            decreases regions@.len() - j,
        {
            let ghost out0 = out@;
            let ghost j0 = j as int;
            let region = &regions[j];
            let lb = lower_bound(&self.entries, region.start);
            let mut idx: usize = lb;
            while idx < self.entries.len() && self.entries[idx].0 <= region.end
                invariant
                    self.wf(),
                    regions_disjoint(regions@),
                    lb <= idx <= self@.len(),
                    region == regions@[j as int],
                    j < regions@.len(),
                    forall|i: int| 0 <= i < lb ==> (#[trigger] self@[i]).0 < region.start,
                    forall|i: int| lb <= i < self@.len() ==> (#[trigger] self@[i]).0 >= region.start,
                    forall|i: int| lb <= i < idx ==> (#[trigger] self@[i]).0 <= region.end,
                    forall|a: u64|
                        out@.contains(a) <==> (out0.contains(a) || key_in_range(
                            self@,
                            lb as int,
                            idx as int,
                            a,
                        )),
                    forall|m: int, n: int| 0 <= m < n < out@.len() ==> out@[m] != out@[n],
                    forall|a: u64|
                        out0.contains(a) <==> (cache_has_key(self@, a) && in_region_upto(
                            regions@,
                            j as int,
                            a,
                        )),
                decreases self@.len() - idx,
            {
                let ghost idx0 = idx as int;
                let key = self.entries[idx].0;
                proof {
                    // The key is new: earlier regions cannot contain it, and
                    // earlier pushes of this region carry strictly smaller keys.
                    assert(self@[idx as int].0 >= region.start);
                    assert(regions@[j as int].spec_contains(key));
                    if out@.contains(key) {
                        if out0.contains(key) {
                            let jj = choose|jj: int|
                                0 <= jj < j && (#[trigger] regions@[jj]).spec_contains(key);
                            assert(regions@[jj].spec_contains(key));
                            assert(false);
                        } else {
                            assert(key_in_range(self@, lb as int, idx as int, key));
                            let i = choose|i: int|
                                lb <= i < idx && (#[trigger] self@[i]).0 == key;
                            assert(self@[i].0 < self@[idx as int].0);
                            assert(false);
                        }
                    }
                }
                let ghost out_pre = out@;
                out.push(key);
                idx = idx + 1;
                proof {
                    assert(idx as int == idx0 + 1);
                    assert forall|a: u64|
                        out@.contains(a) <==> (out0.contains(a) || key_in_range(
                            self@,
                            lb as int,
                            idx as int,
                            a,
                        )) by {
                        if out@.contains(a) {
                            let m = choose|m: int| 0 <= m < out@.len() && out@[m] == a;
                            if m < out@.len() - 1 {
                                assert(out_pre[m] == a);
                                assert(out_pre.contains(a));
                                if !out0.contains(a) {
                                    assert(key_in_range(self@, lb as int, idx0, a));
                                    let i = choose|i: int|
                                        lb <= i < idx0 && (#[trigger] self@[i]).0 == a;
                                    assert(lb <= i < idx0 + 1 && self@[i].0 == a);
                                    assert(key_in_range(self@, lb as int, idx0 + 1, a));
                                }
                            } else {
                                assert(a == key);
                                assert(lb <= idx0 < idx0 + 1 && self@[idx0].0 == a);
                                assert(key_in_range(self@, lb as int, idx0 + 1, a));
                            }
                        }
                        if out0.contains(a) {
                            assert(out_pre.contains(a));
                            let m = choose|m: int| 0 <= m < out_pre.len() && out_pre[m] == a;
                            assert(out@[m] == a);
                            assert(out@.contains(a));
                        } else if key_in_range(self@, lb as int, idx0 + 1, a) {
                            let i = choose|i: int| lb <= i < idx0 + 1 && (#[trigger] self@[i]).0 == a;
                            if i < idx0 {
                                assert(lb <= i < idx0 && self@[i].0 == a);
                                assert(key_in_range(self@, lb as int, idx0, a));
                                assert(out_pre.contains(a));
                                let m = choose|m: int| 0 <= m < out_pre.len() && out_pre[m] == a;
                                assert(out@[m] == a);
                            } else {
                                assert(a == key);
                                assert(out@[out@.len() - 1] == a);
                            }
                            assert(out@.contains(a));
                        }
                    }
                }
            }
            j = j + 1;
            proof {
                assert(j as int == j0 + 1);
                let idxf = idx as int;
                assert forall|a: u64|
                    out@.contains(a) <==> (cache_has_key(self@, a) && in_region_upto(
                        regions@,
                        j as int,
                        a,
                    )) by {
                    if out@.contains(a) {
                        if out0.contains(a) {
                            assert(cache_has_key(self@, a));
                            assert(in_region_upto(regions@, j0, a));
                            let jj = choose|jj: int|
                                0 <= jj < j0 && (#[trigger] regions@[jj]).spec_contains(a);
                            assert(0 <= jj < j0 + 1 && regions@[jj].spec_contains(a));
                            assert(in_region_upto(regions@, j0 + 1, a));
                        } else {
                            assert(key_in_range(self@, lb as int, idxf, a));
                            let i = choose|i: int| lb <= i < idxf && (#[trigger] self@[i]).0 == a;
                            assert(0 <= i < self@.len() && self@[i].0 == a);
                            assert(cache_has_key(self@, a));
                            assert(regions@[j0].spec_contains(a));
                            assert(in_region_upto(regions@, j0 + 1, a));
                        }
                    }
                    if cache_has_key(self@, a) && in_region_upto(regions@, j0 + 1, a) {
                        let jj = choose|jj: int|
                            0 <= jj < j0 + 1 && (#[trigger] regions@[jj]).spec_contains(a);
                        if jj < j0 {
                            assert(in_region_upto(regions@, j0, a));
                            assert(out0.contains(a));
                            assert(out@.contains(a));
                        } else {
                            let i = choose|i: int|
                                0 <= i < self@.len() && (#[trigger] self@[i]).0 == a;
                            // The key is at least the region start, so it sits at
                            // or beyond the range query's lower bound; it is at
                            // most the region end, so the walk reached it.
                            assert(regions@[j0].spec_contains(a));
                            assert(i >= lb);
                            if i >= idxf {
                                if idxf < self@.len() {
                                    if i > idxf {
                                        assert(self@[idxf].0 < self@[i].0);
                                    }
                                    assert(self@[idxf].0 > regions@[j0].end);
                                    assert(false);
                                } else {
                                    assert(false);
                                }
                            }
                            assert(key_in_range(self@, lb as int, idxf, a));
                            assert(out@.contains(a));
                        }
                    }
                }
            }
        }
        out
    }
}

} // verus!
