use vstd::prelude::*;

verus! {

/// Keys (first components) are non-decreasing.
pub open spec fn key_sorted(s: Seq<(u64, u64)>) -> bool {
    forall|i: int, j: int| 0 <= i < j < s.len() ==> (#[trigger] s[i]).0 <= (#[trigger] s[j]).0
}

/// Keys (first components) are strictly increasing, so each key occurs once.
pub open spec fn key_strict_sorted(s: Seq<(u64, u64)>) -> bool {
    forall|i: int, j: int| 0 <= i < j < s.len() ==> (#[trigger] s[i]).0 < (#[trigger] s[j]).0
}

proof fn lemma_strict_implies_sorted(s: Seq<(u64, u64)>)
    requires
        key_strict_sorted(s),
    ensures
        key_sorted(s),
{
}

/// Index of the first pair whose key is at least `x`, in a key-sorted
/// sequence; `entries.len()` when every key is below `x`.
pub fn lower_bound(entries: &Vec<(u64, u64)>, x: u64) -> (r: usize)
    requires
        key_sorted(entries@) || key_strict_sorted(entries@),
    ensures
        r <= entries@.len(),
        forall|i: int| 0 <= i < r ==> (#[trigger] entries@[i]).0 < x,
        forall|i: int| r <= i < entries@.len() ==> (#[trigger] entries@[i]).0 >= x,
{
    proof {
        if key_strict_sorted(entries@) {
            lemma_strict_implies_sorted(entries@);
        }
    }
    let mut lo: usize = 0;
    let mut hi: usize = entries.len();
    while lo < hi
        invariant
            lo <= hi <= entries@.len(),
            key_sorted(entries@),
            forall|i: int| 0 <= i < lo ==> (#[trigger] entries@[i]).0 < x,
            forall|i: int| hi <= i < entries@.len() ==> (#[trigger] entries@[i]).0 >= x,
        decreases hi - lo,
    {
        let mid = lo + (hi - lo) / 2;
        if entries[mid].0 < x {
            proof {
                assert forall|i: int| 0 <= i <= mid implies (#[trigger] entries@[i]).0 < x by {
                    assert(entries@[i].0 <= entries@[mid as int].0);
                }
            }
            lo = mid + 1;
        } else {
            proof {
                assert forall|i: int| mid <= i < entries@.len() implies (#[trigger] entries@[i]).0
                    >= x by {
                    assert(entries@[mid as int].0 <= entries@[i].0);
                }
            }
            hi = mid;
        }
    }
    lo
}

} // verus!
