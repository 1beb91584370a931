use vstd::prelude::*;

verus! {

/// One region of the captured address space: an inclusive `[start, end]`
/// span plus the bytes of the backing file's path (empty for an anonymous
/// mapping).
#[derive(Clone, Debug)]
pub struct MemoryRegion {
    pub start: u64,
    pub end: u64,
    pub path: Vec<u8>,
}

/// The mathematical shape of a region: its bounds and the bytes of its
/// backing path.
pub ghost struct RegionView {
    pub start: u64,
    pub end: u64,
    pub path: Seq<u8>,
}

impl RegionView {
    /// A region view is well formed when its span is not inverted.
    pub open spec fn wf(self) -> bool {
        self.start <= self.end
    }
}

impl View for MemoryRegion {
    type V = RegionView;

    open spec fn view(&self) -> RegionView {
        RegionView { start: self.start, end: self.end, path: self.path@ }
    }
}

/// The views of a catalog's regions, in order.
pub open spec fn catalog_view(rs: Seq<MemoryRegion>) -> Seq<RegionView> {
    rs.map_values(|r: MemoryRegion| r@)
}

impl MemoryRegion {
    /// A region is well formed when its span is not inverted.
    pub open spec fn wf(self) -> bool {
        self.start <= self.end
    }

    /// Whether address `a` lies inside the region (both ends inclusive).
    pub open spec fn spec_contains(self, a: u64) -> bool {
        self.start <= a && a <= self.end
    }

    /// Executable containment test.
    pub fn contains_addr(&self, a: u64) -> (r: bool)
        ensures
            r == self.spec_contains(a),
    {
        self.start <= a && a <= self.end
    }
}

/// Every region of the catalog is well formed.
pub open spec fn regions_wf(rs: Seq<MemoryRegion>) -> bool {
    forall|i: int| 0 <= i < rs.len() ==> (#[trigger] rs[i]).wf()
}

/// No address lies in two regions of the catalog.
pub open spec fn regions_disjoint(rs: Seq<MemoryRegion>) -> bool {
    forall|i: int, j: int, a: u64|
        #![trigger rs[i].spec_contains(a), rs[j].spec_contains(a)]
        0 <= i < rs.len() && 0 <= j < rs.len() && i != j && rs[i].spec_contains(a) ==> !rs[
            j].spec_contains(a)
}

/// Decides the catalog's non-overlap invariant: no address lies in two
/// regions.
pub fn check_disjoint(rs: &Vec<MemoryRegion>) -> (r: bool)
    requires
        regions_wf(rs@),
    ensures
        r == regions_disjoint(rs@),
{
    let n = rs.len();
    let mut i: usize = 0;
    while i < n
        invariant
            regions_wf(rs@),
            n == rs@.len(),
            i <= n,
            forall|p: int, q: int, a: u64|
                #![trigger rs@[p].spec_contains(a), rs@[q].spec_contains(a)]
                0 <= p < i && 0 <= q < rs@.len() && p != q && rs@[p].spec_contains(a) ==> !rs@[
                    q].spec_contains(a),
        decreases n - i,
    {
        let mut j: usize = 0;
        while j < n
            invariant
                regions_wf(rs@),
                n == rs@.len(),
                i < n,
                j <= n,
                forall|p: int, q: int, a: u64|
                    #![trigger rs@[p].spec_contains(a), rs@[q].spec_contains(a)]
                    0 <= p < i && 0 <= q < rs@.len() && p != q && rs@[p].spec_contains(a) ==> !rs@[
                        q].spec_contains(a),
                forall|q: int, a: u64|
                    #![trigger rs@[q].spec_contains(a)]
                    0 <= q < j && q != i && rs@[i as int].spec_contains(a) ==> !rs@[
                        q].spec_contains(a),
            decreases n - j,
        {
            if j != i {
                let overlap = rs[i].start <= rs[j].end && rs[j].start <= rs[i].end;
                if overlap {
                    let witness = if rs[i].start >= rs[j].start {
                        rs[i].start
                    } else {
                        rs[j].start
                    };
                    proof {
                        assert(rs@[i as int].spec_contains(witness));
                        assert(rs@[j as int].spec_contains(witness));
                        assert(!regions_disjoint(rs@));
                    }
                    return false;
                }
                proof {
                    assert forall|a: u64|
                        rs@[i as int].spec_contains(a) implies !(#[trigger] rs@[
                    j as int]).spec_contains(a) by {}
                }
            }
            j = j + 1;
        }
        i = i + 1;
        proof {
            assert forall|p: int, q: int, a: u64|
                #![trigger rs@[p].spec_contains(a), rs@[q].spec_contains(a)]
                0 <= p < i && 0 <= q < rs@.len() && p != q && rs@[p].spec_contains(a) implies !rs@[
                q].spec_contains(a) by {
                if p == i - 1 {
                    assert(rs@[p].spec_contains(a) ==> !rs@[q].spec_contains(a));
                }
            }
        }
    }
    true
}

/// Index of the first catalog region containing `a`, if any.
pub fn owning_region(rs: &Vec<MemoryRegion>, a: u64) -> (r: Option<usize>)
    ensures
        match r {
            Some(i) => i < rs@.len() && rs@[i as int].spec_contains(a) && forall|j: int|
                0 <= j < i ==> !(#[trigger] rs@[j]).spec_contains(a),
            None => forall|i: int| 0 <= i < rs@.len() ==> !(#[trigger] rs@[i]).spec_contains(a),
        },
{
    let mut i: usize = 0;
    while i < rs.len()
        invariant
            i <= rs@.len(),
            forall|j: int| 0 <= j < i ==> !(#[trigger] rs@[j]).spec_contains(a),
        decreases rs@.len() - i,
    {
        if rs[i].contains_addr(a) {
            return Some(i);
        }
        i = i + 1;
    }
    None
}

} // verus!
