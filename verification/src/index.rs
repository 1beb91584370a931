use vstd::prelude::*;

use crate::cache::AddressValueCache;
use crate::sorted::{key_sorted, lower_bound};

verus! {

/// Whether the index holds address `a` under value `v`: `(v, a)` occurs
/// among the pairs.
pub open spec fn index_maps(s: Seq<(u64, u64)>, v: u64, a: u64) -> bool {
    exists|i: int| 0 <= i < s.len() && #[trigger] s[i] == (v, a)
}

/// Whether `(a, v)` occurs among the first `k` cache pairs.
spec fn pair_in_prefix(c: Seq<(u64, u64)>, k: int, a: u64, v: u64) -> bool {
    exists|i: int| 0 <= i < k && #[trigger] c[i] == (a, v)
}

/// Whether `(v, a)` occurs among index entries `lo..hi`.
spec fn pair_in_range(s: Seq<(u64, u64)>, lo: int, hi: int, v: u64, a: u64) -> bool {
    exists|i: int| lo <= i < hi && #[trigger] s[i] == (v, a)
}

/// No address occurs twice among the pairs.
pub open spec fn distinct_addrs(s: Seq<(u64, u64)>) -> bool {
    forall|i: int, j: int| 0 <= i < j < s.len() ==> (#[trigger] s[i]).1 != (#[trigger] s[j]).1
}

/// The reverse lookup index: `(value, address)` pairs for every cached
/// pointer, sorted by value so that "who points near X" questions become
/// ordered range queries.
#[derive(Clone, Debug)]
pub struct ReverseIndex {
    pub entries: Vec<(u64, u64)>,
}

impl View for ReverseIndex {
    type V = Seq<(u64, u64)>;

    open spec fn view(&self) -> Seq<(u64, u64)> {
        self.entries@
    }
}

impl ReverseIndex {
    /// The index invariant: sorted by value, and each address appears
    /// once, as it does in the cache the index inverts.
    pub open spec fn wf(self) -> bool {
        key_sorted(self.entries@) && distinct_addrs(self.entries@)
    }

    /// Number of indexed pairs.
    pub fn len(&self) -> (r: usize)
        ensures
            r == self@.len(),
    {
        self.entries.len()
    }

    /// Inverts the cache: the index holds `a` under `v` exactly when the
    /// cache maps `a` to `v`, every pair is kept (duplicated values
    /// accumulate), and no pair is invented or lost.
    pub fn build(cache: &AddressValueCache) -> (r: ReverseIndex)
        requires
            cache.wf(),
        ensures
            r.wf(),
            forall|v: u64, a: u64|
                index_maps(r@, v, a) <==> crate::cache::cache_maps(cache@, a, v),
            r@.len() == cache@.len(),
    {
        let mut entries: Vec<(u64, u64)> = Vec::new();
        let mut k: usize = 0;
        while k < cache.entries.len()
            invariant
                cache.wf(),
                k <= cache@.len(),
                entries@.len() == k,
                key_sorted(entries@),
                distinct_addrs(entries@),
                forall|v: u64, a: u64|
                    index_maps(entries@, v, a) <==> pair_in_prefix(cache@, k as int, a, v),
            decreases cache@.len() - k,
        {
            let ghost k0 = k as int;
            let ghost pre = entries@;
            let a = cache.entries[k].0;
            let v = cache.entries[k].1;
            proof {
                assert(cache@[k0] == (a, v));
                // Address `a` is fresh: everything in the index so far came
                // from an earlier cache entry, whose address is smaller.
                assert forall|m: int| 0 <= m < pre.len() implies (#[trigger] pre[m]).1 != a by {
                    assert(pre[m] == (pre[m].0, pre[m].1));
                    assert(index_maps(pre, pre[m].0, pre[m].1));
                    assert(pair_in_prefix(cache@, k0, pre[m].1, pre[m].0));
                    let i = choose|i: int| 0 <= i < k0 && #[trigger] cache@[i] == (pre[m].1, pre[m].0);
                    assert(cache@[i].0 < cache@[k0].0);
                }
            }
            let pos = lower_bound(&entries, v);
            entries.insert(pos, (v, a));
            k = k + 1;
            proof {
                assert(k as int == k0 + 1);
                assert(entries@ == pre.insert(pos as int, (v, a)));
                pre.insert_ensures(pos as int, (v, a));
                let posi = pos as int;
                assert forall|i: int, j: int|
                    0 <= i < j < entries@.len() implies (#[trigger] entries@[i]).0 <= (
                #[trigger] entries@[j]).0 by {
                    if i < posi {
                        assert(entries@[i] == pre[i]);
                        assert(pre[i].0 < v);
                    } else if i == posi {
                        assert(entries@[i] == (v, a));
                    } else {
                        assert(entries@[i] == pre[i - 1]);
                        assert(pre[i - 1].0 >= v);
                    }
                    if j < posi {
                        assert(entries@[j] == pre[j]);
                        assert(pre[j].0 < v);
                    } else if j == posi {
                        assert(entries@[j] == (v, a));
                    } else {
                        assert(entries@[j] == pre[j - 1]);
                        assert(pre[j - 1].0 >= v);
                    }
                    if i < posi && j < posi {
                        assert(pre[i].0 <= pre[j].0);
                    }
                    if posi < i && posi < j {
                        assert(pre[i - 1].0 <= pre[j - 1].0);
                    }
                }
                assert forall|i: int, j: int|
                    0 <= i < j < entries@.len() implies (#[trigger] entries@[i]).1 != (
                #[trigger] entries@[j]).1 by {
                    if i < posi {
                        assert(entries@[i] == pre[i]);
                    } else if i == posi {
                        assert(entries@[i] == (v, a));
                    } else {
                        assert(entries@[i] == pre[i - 1]);
                    }
                    if j < posi {
                        assert(entries@[j] == pre[j]);
                    } else if j == posi {
                        assert(entries@[j] == (v, a));
                    } else {
                        assert(entries@[j] == pre[j - 1]);
                    }
                }
                assert forall|v2: u64, a2: u64|
                    index_maps(entries@, v2, a2) <==> pair_in_prefix(cache@, k as int, a2, v2) by {
                    if index_maps(entries@, v2, a2) {
                        let m = choose|m: int| 0 <= m < entries@.len() && #[trigger] entries@[m] == (
                            v2,
                            a2,
                        );
                        if m < posi {
                            assert(pre[m] == (v2, a2));
                            assert(index_maps(pre, v2, a2));
                            assert(pair_in_prefix(cache@, k0, a2, v2));
                            let i = choose|i: int|
                                0 <= i < k0 && #[trigger] cache@[i] == (a2, v2);
                            assert(0 <= i < k0 + 1 && cache@[i] == (a2, v2));
                        } else if m == posi {
                            assert((v2, a2) == (v, a));
                            assert(cache@[k0] == (a2, v2));
                        } else {
                            assert(pre[m - 1] == (v2, a2));
                            assert(index_maps(pre, v2, a2));
                            assert(pair_in_prefix(cache@, k0, a2, v2));
                            let i = choose|i: int|
                                0 <= i < k0 && #[trigger] cache@[i] == (a2, v2);
                            assert(0 <= i < k0 + 1 && cache@[i] == (a2, v2));
                        }
                        assert(pair_in_prefix(cache@, k0 + 1, a2, v2));
                    }
                    if pair_in_prefix(cache@, k0 + 1, a2, v2) {
                        let i = choose|i: int| 0 <= i < k0 + 1 && #[trigger] cache@[i] == (a2, v2);
                        if i < k0 {
                            assert(pair_in_prefix(cache@, k0, a2, v2));
                            assert(index_maps(pre, v2, a2));
                            let m = choose|m: int|
                                0 <= m < pre.len() && #[trigger] pre[m] == (v2, a2);
                            if m < posi {
                                assert(entries@[m] == (v2, a2));
                            } else {
                                assert(entries@[m + 1] == (v2, a2));
                            }
                            assert(index_maps(entries@, v2, a2));
                        } else {
                            assert((a2, v2) == (a, v));
                            assert(entries@[posi] == (v2, a2));
                            assert(index_maps(entries@, v2, a2));
                        }
                    }
                }
            }
        }
        ReverseIndex { entries }
    }

    /// Ordered range query: all `(value, address)` pairs whose value lies
    /// in `[lo, hi]`, each exactly once.
    pub fn range_query(&self, lo: u64, hi: u64) -> (r: Vec<(u64, u64)>)
        requires
            self.wf(),
        ensures
            forall|v: u64, a: u64|
                index_maps(r@, v, a) <==> (index_maps(self@, v, a) && lo <= v && v <= hi),
            forall|m: int, n: int| 0 <= m < n < r@.len() ==> r@[m] != r@[n],
    {
        let mut out: Vec<(u64, u64)> = Vec::new();
        let lb = lower_bound(&self.entries, lo);
        let mut idx: usize = lb;
        while idx < self.entries.len() && self.entries[idx].0 <= hi
            invariant
                self.wf(),
                lb <= idx <= self@.len(),
                forall|i: int| 0 <= i < lb ==> (#[trigger] self@[i]).0 < lo,
                forall|i: int| lb <= i < self@.len() ==> (#[trigger] self@[i]).0 >= lo,
                forall|i: int| lb <= i < idx ==> (#[trigger] self@[i]).0 <= hi,
                out@ == self@.subrange(lb as int, idx as int),
            decreases self@.len() - idx,
        {
            let ghost idx0 = idx as int;
            let p = self.entries[idx];
            out.push(p);
            idx = idx + 1;
            proof {
                assert(idx as int == idx0 + 1);
                assert(out@ =~= self@.subrange(lb as int, idx as int));
            }
        }
        proof {
            let idxf = idx as int;
            assert forall|v: u64, a: u64|
                index_maps(out@, v, a) <==> (index_maps(self@, v, a) && lo <= v && v <= hi) by {
                if index_maps(out@, v, a) {
                    let m = choose|m: int| 0 <= m < out@.len() && #[trigger] out@[m] == (v, a);
                    assert(out@[m] == self@[lb + m]);
                    assert(index_maps(self@, v, a));
                    assert(self@[lb + m].0 >= lo);
                    assert(self@[lb + m].0 <= hi);
                }
                if index_maps(self@, v, a) && lo <= v && v <= hi {
                    let i = choose|i: int| 0 <= i < self@.len() && #[trigger] self@[i] == (v, a);
                    assert(i >= lb);
                    if i >= idxf {
                        if idxf < self@.len() {
                            if i > idxf {
                                assert(self@[idxf].0 <= self@[i].0);
                            }
                            assert(self@[idxf].0 > hi);
                            assert(false);
                        } else {
                            assert(false);
                        }
                    }
                    assert(out@[i - lb] == (v, a));
                    assert(index_maps(out@, v, a));
                }
            }
            assert forall|m: int, n: int| 0 <= m < n < out@.len() implies out@[m] != out@[n] by {
                assert(out@[m] == self@[lb + m]);
                assert(out@[n] == self@[lb + n]);
                assert(self@[lb + m].1 != self@[lb + n].1);
            }
        }
        out
    }
}

} // verus!
