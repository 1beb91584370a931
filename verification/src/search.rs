use vstd::prelude::*;

use crate::error::{Error, ErrorKind};
use crate::index::{index_maps, ReverseIndex};

verus! {

/// One discovered pointer chain: the per-level offsets in target-to-anchor
/// order, and the anchor's absolute address. The number of levels used is
/// the length of `offsets`.
#[derive(Clone, Debug)]
pub struct PathRecord {
    pub offsets: Vec<i16>,
    pub anchor: u64,
}

impl PathRecord {
    /// The anchor expressed as an offset from its first owning region's
    /// start: the relocation-stable form that the decoded text shows.
    pub fn anchor_base(&self, regions: &Vec<crate::region::MemoryRegion>) -> (r: Option<u64>)
        ensures
            match r {
                Some(base) => exists|i: int|
                    {
                        &&& 0 <= i < regions@.len()
                        &&& (#[trigger] regions@[i]).spec_contains(self.anchor)
                        &&& base == self.anchor - regions@[i].start
                        &&& forall|j: int| 0 <= j < i ==> !(#[trigger] regions@[j]).spec_contains(
                            self.anchor,
                        )
                    },
                None => forall|i: int|
                    0 <= i < regions@.len() ==> !(#[trigger] regions@[i]).spec_contains(
                        self.anchor,
                    ),
            },
    {
        match crate::region::owning_region(regions, self.anchor) {
            Some(i) => Some(self.anchor - regions[i].start),
            None => None,
        }
    }
}

/// A partial chain under exploration: the offsets accumulated so far and
/// the address whose predecessors are examined next.
struct FrontierEntry {
    offsets: Vec<i16>,
    addr: u64,
}

/// One backward step: address `a` holds the value `refa + off`, and `off`
/// lies inside the window.
pub open spec fn step_ok(
    index: Seq<(u64, u64)>,
    behind: u64,
    ahead: u64,
    refa: u64,
    off: i16,
    a: u64,
) -> bool {
    &&& -(behind as int) <= off as int <= ahead as int
    &&& 0 <= refa + off as int <= u64::MAX
    &&& index_maps(index, (refa + off as int) as u64, a)
}

/// The reference address after following `addrs`: the target when no step
/// was taken yet, otherwise the last address reached.
pub open spec fn chain_end(target: u64, addrs: Seq<u64>) -> u64 {
    if addrs.len() == 0 {
        target
    } else {
        addrs.last()
    }
}

/// The addresses `addrs` form a chain from the target: step `k` links
/// `addrs[k]` to the reference reached after the first `k` steps, with
/// offset `offsets[k]`.
pub open spec fn chain_links(
    index: Seq<(u64, u64)>,
    behind: u64,
    ahead: u64,
    target: u64,
    addrs: Seq<u64>,
    offsets: Seq<i16>,
) -> bool {
    &&& addrs.len() == offsets.len()
    &&& forall|k: int|
        0 <= k < addrs.len() ==> #[trigger] step_ok(
            index,
            behind,
            ahead,
            chain_end(target, addrs.take(k)),
            offsets[k],
            addrs[k],
        )
}

/// Some chain with offsets `offsets` leads from the target to `last`.
pub open spec fn reaches(
    index: Seq<(u64, u64)>,
    behind: u64,
    ahead: u64,
    target: u64,
    offsets: Seq<i16>,
    last: u64,
) -> bool {
    exists|addrs: Seq<u64>|
        #[trigger] chain_links(index, behind, ahead, target, addrs, offsets) && chain_end(
            target,
            addrs,
        ) == last
}

/// A valid record: at least one level, the anchor belongs to the anchor
/// set, and the offsets lead from the target to the anchor.
pub open spec fn record_matches(
    index: Seq<(u64, u64)>,
    anchors: Seq<u64>,
    behind: u64,
    ahead: u64,
    target: u64,
    offsets: Seq<i16>,
    anchor: u64,
) -> bool {
    &&& 1 <= offsets.len()
    &&& anchors.contains(anchor)
    &&& reaches(index, behind, ahead, target, offsets, anchor)
}

/// The empty chain reaches exactly the target.
pub proof fn lemma_reach_empty(index: Seq<(u64, u64)>, behind: u64, ahead: u64, target: u64, last: u64)
    ensures
        reaches(index, behind, ahead, target, Seq::<i16>::empty(), last) <==> last == target,
{
    if last == target {
        let addrs = Seq::<u64>::empty();
        assert(chain_links(index, behind, ahead, target, addrs, Seq::<i16>::empty()));
        assert(chain_end(target, addrs) == last);
    }
    if reaches(index, behind, ahead, target, Seq::<i16>::empty(), last) {
        let addrs = choose|addrs: Seq<u64>|
            #[trigger] chain_links(index, behind, ahead, target, addrs, Seq::<i16>::empty())
                && chain_end(target, addrs) == last;
        assert(addrs.len() == 0);
    }
}

/// A chain for `offsets.push(off)` ending at `a` is exactly a chain for
/// `offsets` ending at some `prev`, extended by one valid step.
pub proof fn lemma_reach_extend(
    index: Seq<(u64, u64)>,
    behind: u64,
    ahead: u64,
    target: u64,
    offsets: Seq<i16>,
    off: i16,
    a: u64,
)
    ensures
        reaches(index, behind, ahead, target, offsets.push(off), a) <==> exists|prev: u64|
            #[trigger] reaches(index, behind, ahead, target, offsets, prev) && step_ok(
                index,
                behind,
                ahead,
                prev,
                off,
                a,
            ),
{
    let n = offsets.len() as int;
    if exists|prev: u64|
        #[trigger] reaches(index, behind, ahead, target, offsets, prev) && step_ok(
            index,
            behind,
            ahead,
            prev,
            off,
            a,
        ) {
        let prev = choose|prev: u64|
            #[trigger] reaches(index, behind, ahead, target, offsets, prev) && step_ok(
                index,
                behind,
                ahead,
                prev,
                off,
                a,
            );
        let addrs = choose|addrs: Seq<u64>|
            #[trigger] chain_links(index, behind, ahead, target, addrs, offsets) && chain_end(
                target,
                addrs,
            ) == prev;
        let addrs2 = addrs.push(a);
        assert(chain_links(index, behind, ahead, target, addrs2, offsets.push(off))) by {
            assert forall|k: int| 0 <= k < addrs2.len() implies #[trigger] step_ok(
                index,
                behind,
                ahead,
                chain_end(target, addrs2.take(k)),
                offsets.push(off)[k],
                addrs2[k],
            ) by {
                if k < n {
                    assert(addrs2.take(k) =~= addrs.take(k));
                    assert(step_ok(
                        index,
                        behind,
                        ahead,
                        chain_end(target, addrs.take(k)),
                        offsets[k],
                        addrs[k],
                    ));
                    assert(offsets.push(off)[k] == offsets[k]);
                    assert(addrs2[k] == addrs[k]);
                } else {
                    assert(k == n);
                    assert(addrs2.take(k) =~= addrs);
                    assert(chain_end(target, addrs2.take(k)) == prev);
                    assert(offsets.push(off)[k] == off);
                    assert(addrs2[k] == a);
                }
            }
        }
        assert(chain_end(target, addrs2) == a);
        assert(reaches(index, behind, ahead, target, offsets.push(off), a));
    }
    if reaches(index, behind, ahead, target, offsets.push(off), a) {
        let addrs2 = choose|addrs2: Seq<u64>|
            #[trigger] chain_links(index, behind, ahead, target, addrs2, offsets.push(off))
                && chain_end(target, addrs2) == a;
        assert(addrs2.len() == n + 1);
        let addrs = addrs2.drop_last();
        let prev = chain_end(target, addrs);
        assert(chain_links(index, behind, ahead, target, addrs, offsets)) by {
            assert forall|k: int| 0 <= k < addrs.len() implies #[trigger] step_ok(
                index,
                behind,
                ahead,
                chain_end(target, addrs.take(k)),
                offsets[k],
                addrs[k],
            ) by {
                assert(step_ok(
                    index,
                    behind,
                    ahead,
                    chain_end(target, addrs2.take(k)),
                    offsets.push(off)[k],
                    addrs2[k],
                ));
                assert(addrs2.take(k) =~= addrs.take(k));
                assert(offsets.push(off)[k] == offsets[k]);
                assert(addrs2[k] == addrs[k]);
            }
        }
        assert(step_ok(index, behind, ahead, prev, off, a)) by {
            assert(step_ok(
                index,
                behind,
                ahead,
                chain_end(target, addrs2.take(n)),
                offsets.push(off)[n],
                addrs2[n],
            ));
            assert(addrs2.take(n) =~= addrs);
            assert(offsets.push(off)[n] == off);
            assert(addrs2[n] == addrs2.last());
            assert(addrs2.last() == a);
        }
        assert(reaches(index, behind, ahead, target, offsets, prev) && step_ok(
            index,
            behind,
            ahead,
            prev,
            off,
            a,
        ));
    }
}

/// The search configuration and inputs: the target address, the level
/// bound, the offset window `(behind, ahead)`, the anchor set, and the
/// reverse index to query.
pub struct PathFindEngine {
    pub target: u64,
    pub depth: usize,
    pub offset: (usize, usize),
    pub startpoints: Vec<u64>,
    pub engine: ReverseIndex,
}

/// A record with these offsets and this anchor is among `recs`.
pub open spec fn record_in(recs: Seq<PathRecord>, offsets: Seq<i16>, anchor: u64) -> bool {
    exists|m: int|
        0 <= m < recs.len() && (#[trigger] recs[m]).offsets@ == offsets && recs[m].anchor == anchor
}

/// An entry with these offsets and this address is among `fr`.
spec fn entry_in(fr: Seq<FrontierEntry>, offsets: Seq<i16>, addr: u64) -> bool {
    exists|m: int|
        0 <= m < fr.len() && (#[trigger] fr[m]).offsets@ == offsets && fr[m].addr == addr
}

/// Every frontier entry at level `d` is a chain of `d` offsets reaching
/// its address.
spec fn frontier_sound(
    index: Seq<(u64, u64)>,
    behind: u64,
    ahead: u64,
    target: u64,
    d: int,
    fr: Seq<FrontierEntry>,
) -> bool {
    forall|m: int|
        0 <= m < fr.len() ==> (#[trigger] fr[m]).offsets@.len() == d && reaches(
            index,
            behind,
            ahead,
            target,
            fr[m].offsets@,
            fr[m].addr,
        )
}

/// Every chain of `d` offsets is represented in the frontier.
spec fn frontier_complete(
    index: Seq<(u64, u64)>,
    behind: u64,
    ahead: u64,
    target: u64,
    d: int,
    fr: Seq<FrontierEntry>,
) -> bool {
    forall|offsets: Seq<i16>, last: u64|
        offsets.len() == d && #[trigger] reaches(index, behind, ahead, target, offsets, last)
            ==> entry_in(fr, offsets, last)
}

/// Every recorded path is valid and no longer than `maxlen`.
pub open spec fn records_sound(
    index: Seq<(u64, u64)>,
    anchors: Seq<u64>,
    behind: u64,
    ahead: u64,
    target: u64,
    maxlen: int,
    recs: Seq<PathRecord>,
) -> bool {
    forall|m: int|
        0 <= m < recs.len() ==> record_matches(
            index,
            anchors,
            behind,
            ahead,
            target,
            (#[trigger] recs[m]).offsets@,
            recs[m].anchor,
        ) && recs[m].offsets@.len() <= maxlen
}

/// Every valid path of at most `maxlen` levels is recorded.
pub open spec fn records_complete(
    index: Seq<(u64, u64)>,
    anchors: Seq<u64>,
    behind: u64,
    ahead: u64,
    target: u64,
    maxlen: int,
    recs: Seq<PathRecord>,
) -> bool {
    forall|offsets: Seq<i16>, anchor: u64|
        #[trigger] record_matches(index, anchors, behind, ahead, target, offsets, anchor)
            && offsets.len() <= maxlen ==> record_in(recs, offsets, anchor)
}

/// No path is recorded twice.
pub open spec fn records_distinct(recs: Seq<PathRecord>) -> bool {
    forall|m: int, n: int|
        0 <= m < n < recs.len() ==> ((#[trigger] recs[m]).offsets@ != (#[trigger] recs[n]).offsets@
            || recs[m].anchor != recs[n].anchor)
}

/// Entries before `jdone` have had every one-step extension placed in `next`.
spec fn expansion_done(
    index: Seq<(u64, u64)>,
    behind: u64,
    ahead: u64,
    fr: Seq<FrontierEntry>,
    jdone: int,
    next: Seq<FrontierEntry>,
) -> bool {
    forall|jp: int, off: i16, a: u64|
        0 <= jp < jdone && #[trigger] step_ok(index, behind, ahead, fr[jp].addr, off, a)
            ==> entry_in(next, fr[jp].offsets@.push(off), a)
}

/// Entries before `jdone` have had every anchor hit recorded.
spec fn emission_done(
    index: Seq<(u64, u64)>,
    anchors: Seq<u64>,
    behind: u64,
    ahead: u64,
    fr: Seq<FrontierEntry>,
    jdone: int,
    recs: Seq<PathRecord>,
) -> bool {
    forall|jp: int, off: i16, a: u64|
        0 <= jp < jdone && #[trigger] step_ok(index, behind, ahead, fr[jp].addr, off, a)
            && anchors.contains(a) ==> record_in(recs, fr[jp].offsets@.push(off), a)
}

proof fn lemma_entry_in_push(fr: Seq<FrontierEntry>, e: FrontierEntry, offsets: Seq<i16>, addr: u64)
    requires
        entry_in(fr, offsets, addr) || (e.offsets@ == offsets && e.addr == addr),
    ensures
        entry_in(fr.push(e), offsets, addr),
{
    if entry_in(fr, offsets, addr) {
        let m = choose|m: int|
            0 <= m < fr.len() && (#[trigger] fr[m]).offsets@ == offsets && fr[m].addr == addr;
        assert(fr.push(e)[m] == fr[m]);
    } else {
        assert(fr.push(e)[fr.len() as int] == e);
    }
}

proof fn lemma_record_in_push(recs: Seq<PathRecord>, r: PathRecord, offsets: Seq<i16>, anchor: u64)
    requires
        record_in(recs, offsets, anchor) || (r.offsets@ == offsets && r.anchor == anchor),
    ensures
        record_in(recs.push(r), offsets, anchor),
{
    if record_in(recs, offsets, anchor) {
        let m = choose|m: int|
            0 <= m < recs.len() && (#[trigger] recs[m]).offsets@ == offsets && recs[m].anchor
                == anchor;
        assert(recs.push(r)[m] == recs[m]);
    } else {
        assert(recs.push(r)[recs.len() as int] == r);
    }
}

/// Copies a vector of offsets.
fn copy_offsets(v: &Vec<i16>) -> (r: Vec<i16>)
    ensures
        r@ == v@,
{
    let mut out: Vec<i16> = Vec::new();
    let mut i: usize = 0;
    while i < v.len()
        invariant
            i <= v@.len(),
            out@ == v@.take(i as int),
        decreases v@.len() - i,
    {
        let ghost i0 = i as int;
        out.push(v[i]);
        i = i + 1;
        proof {
            assert(out@ =~= v@.take(i0 + 1));
            assert(i as int == i0 + 1);
        }
    }
    proof {
        assert(out@ =~= v@);
    }
    out
}

/// Linear membership test over the anchor set.
fn contains_addr(v: &Vec<u64>, x: u64) -> (r: bool)
    ensures
        r == v@.contains(x),
{
    let mut i: usize = 0;
    while i < v.len()
        invariant
            i <= v@.len(),
            forall|m: int| 0 <= m < i ==> v@[m] != x,
        decreases v@.len() - i,
    {
        if v[i] == x {
            return true;
        }
        i = i + 1;
    }
    false
}

/// Whether a record with these offsets and this anchor was already emitted.
fn record_present(recs: &Vec<PathRecord>, offsets: &Vec<i16>, anchor: u64) -> (r: bool)
    ensures
        r == record_in(recs@, offsets@, anchor),
{
    let mut m: usize = 0;
    while m < recs.len()
        invariant
            m <= recs@.len(),
            forall|i: int|
                0 <= i < m ==> ((#[trigger] recs@[i]).offsets@ != offsets@ || recs@[i].anchor
                    != anchor),
        decreases recs@.len() - m,
    {
        if recs[m].anchor == anchor {
            let ro = &recs[m].offsets;
            if ro.len() == offsets.len() {
                let mut k: usize = 0;
                let mut same = true;
                proof {
                    assert(ro@.take(0) =~= offsets@.take(0));
                }
                while k < ro.len()
                    invariant
                        k <= ro@.len(),
                        ro@.len() == offsets@.len(),
                        same <==> ro@.take(k as int) == offsets@.take(k as int),
                    decreases ro@.len() - k,
                {
                    let ghost k0 = k as int;
                    let ghost same0 = same;
                    if ro[k] != offsets[k] {
                        same = false;
                    }
                    k = k + 1;
                    proof {
                        assert(k as int == k0 + 1);
                        if same {
                            assert(same0);
                            assert(ro@[k0] == offsets@[k0]);
                            assert(ro@.take(k0) == offsets@.take(k0));
                            assert(ro@.take(k0 + 1) =~= offsets@.take(k0 + 1)) by {
                                assert forall|t: int| 0 <= t < k0 + 1 implies #[trigger] ro@.take(
                                    k0 + 1,
                                )[t] == offsets@.take(k0 + 1)[t] by {
                                    if t < k0 {
                                        assert(ro@.take(k0)[t] == offsets@.take(k0)[t]);
                                    }
                                }
                            }
                        } else if same0 {
                            assert(ro@[k0] != offsets@[k0]);
                            assert(ro@.take(k0 + 1)[k0] == ro@[k0]);
                            assert(offsets@.take(k0 + 1)[k0] == offsets@[k0]);
                            assert(ro@.take(k0 + 1) != offsets@.take(k0 + 1));
                        } else {
                            assert(ro@.take(k0) != offsets@.take(k0));
                            if ro@.take(k0 + 1) == offsets@.take(k0 + 1) {
                                assert(ro@.take(k0) =~= ro@.take(k0 + 1).take(k0));
                                assert(offsets@.take(k0) =~= offsets@.take(k0 + 1).take(k0));
                                assert(false);
                            }
                        }
                    }
                }
                if same {
                    proof {
                        assert(ro@.take(k as int) =~= ro@);
                        assert(offsets@.take(k as int) =~= offsets@);
                        assert(recs@[m as int].offsets@ == offsets@);
                    }
                    return true;
                }
            }
        }
        m = m + 1;
    }
    false
}

impl PathFindEngine {
    /// Runs the depth-bounded reverse search. Rejects a zero or oversized
    /// depth and a window that does not fit the 16-bit per-level offset
    /// field; otherwise returns every chain of at most `depth` levels from
    /// the target to an anchor, each exactly once.
    pub fn search(&self) -> (r: Result<Vec<PathRecord>, Error>)
        requires
            self.engine.wf(),
        ensures
            r is Ok <==> (1 <= self.depth && self.depth <= 255 && self.offset.0 <= 32768
                && self.offset.1 <= 32767),
            self.depth == 0 ==> r == Err::<Vec<PathRecord>, Error>(Error(ErrorKind::ZeroDepth)),
            self.depth > 255 ==> r == Err::<Vec<PathRecord>, Error>(Error(ErrorKind::DepthTooLarge)),
            1 <= self.depth <= 255 && (self.offset.0 > 32768 || self.offset.1 > 32767) ==> r
                == Err::<Vec<PathRecord>, Error>(Error(ErrorKind::WindowTooWide)),
            match r {
                Ok(recs) => {
                    &&& records_sound(
                        self.engine@,
                        self.startpoints@,
                        self.offset.0 as u64,
                        self.offset.1 as u64,
                        self.target,
                        self.depth as int,
                        recs@,
                    )
                    &&& records_complete(
                        self.engine@,
                        self.startpoints@,
                        self.offset.0 as u64,
                        self.offset.1 as u64,
                        self.target,
                        self.depth as int,
                        recs@,
                    )
                    &&& records_distinct(recs@)
                },
                Err(_) => true,
            },
    {
        if self.depth == 0 {
            return Err(Error(ErrorKind::ZeroDepth));
        }
        if self.depth > 255 {
            return Err(Error(ErrorKind::DepthTooLarge));
        }
        if self.offset.0 > 32768 || self.offset.1 > 32767 {
            return Err(Error(ErrorKind::WindowTooWide));
        }
        let behind: u64 = self.offset.0 as u64;
        let ahead: u64 = self.offset.1 as u64;
        let ghost iseq = self.engine@;
        let ghost anch = self.startpoints@;
        let tgt = self.target;
        let mut frontier: Vec<FrontierEntry> = Vec::new();
        let empty_offsets: Vec<i16> = Vec::new();
        frontier.push(FrontierEntry { offsets: empty_offsets, addr: tgt });
        let mut records: Vec<PathRecord> = Vec::new();
        proof {
            assert(frontier@[0].offsets@ =~= Seq::<i16>::empty());
            lemma_reach_empty(iseq, behind, ahead, tgt, tgt);
            assert(frontier_sound(iseq, behind, ahead, tgt, 0, frontier@));
            assert forall|offsets: Seq<i16>, last: u64|
                offsets.len() == 0 && #[trigger] reaches(iseq, behind, ahead, tgt, offsets, last)
                implies entry_in(frontier@, offsets, last) by {
                assert(offsets =~= Seq::<i16>::empty());
                lemma_reach_empty(iseq, behind, ahead, tgt, last);
                assert(last == tgt);
                assert(frontier@[0].offsets@ == offsets && frontier@[0].addr == last);
            }
            assert(frontier_complete(iseq, behind, ahead, tgt, 0, frontier@));
            assert forall|offsets: Seq<i16>, anchor: u64|
                #[trigger] record_matches(iseq, anch, behind, ahead, tgt, offsets, anchor)
                    && offsets.len() <= 0 implies record_in(records@, offsets, anchor) by {
                assert(1 <= offsets.len());
            }
            assert(records_complete(iseq, anch, behind, ahead, tgt, 0, records@));
        }
        let mut d: usize = 0;
        while d < self.depth
            invariant
                self.engine.wf(),
                iseq == self.engine@,
                anch == self.startpoints@,
                tgt == self.target,
                behind == self.offset.0 as u64,
                ahead == self.offset.1 as u64,
                behind <= 32768,
                ahead <= 32767,
                d <= self.depth <= 255,
                frontier_sound(iseq, behind, ahead, tgt, d as int, frontier@),
                frontier_complete(iseq, behind, ahead, tgt, d as int, frontier@),
                records_sound(iseq, anch, behind, ahead, tgt, d as int, records@),
                records_complete(iseq, anch, behind, ahead, tgt, d as int, records@),
                records_distinct(records@),
            decreases self.depth - d,
        {
            let ghost d0 = d as int;
            let ghost fr_old = frontier@;
            let mut next: Vec<FrontierEntry> = Vec::new();
            let mut j: usize = 0;
            while j < frontier.len()
                invariant
                    self.engine.wf(),
                    iseq == self.engine@,
                    anch == self.startpoints@,
                    tgt == self.target,
                    behind <= 32768,
                    ahead <= 32767,
                    d0 == d as int,
                    d < self.depth <= 255,
                    fr_old == frontier@,
                    j <= frontier@.len(),
                    frontier_sound(iseq, behind, ahead, tgt, d0, frontier@),
                    frontier_complete(iseq, behind, ahead, tgt, d0, frontier@),
                    frontier_sound(iseq, behind, ahead, tgt, d0 + 1, next@),
                    expansion_done(iseq, behind, ahead, frontier@, j as int, next@),
                    records_sound(iseq, anch, behind, ahead, tgt, d0 + 1, records@),
                    records_complete(iseq, anch, behind, ahead, tgt, d0, records@),
                    records_distinct(records@),
                    emission_done(iseq, anch, behind, ahead, frontier@, j as int, records@),
                decreases frontier@.len() - j,
            {
                let ghost j0 = j as int;
                let eoffsets = copy_offsets(&frontier[j].offsets);
                let refa = frontier[j].addr;
                let ghost eoff = eoffsets@;
                proof {
                    assert(eoff.len() == d0);
                    assert(reaches(iseq, behind, ahead, tgt, eoff, refa));
                }
                let lo: u64 = if refa >= behind {
                    refa - behind
                } else {
                    0
                };
                let hi: u64 = if refa <= u64::MAX - ahead {
                    refa + ahead
                } else {
                    u64::MAX
                };
                let matches = self.engine.range_query(lo, hi);
                let mut q: usize = 0;
                while q < matches.len()
                    invariant
                        self.engine.wf(),
                        iseq == self.engine@,
                        anch == self.startpoints@,
                        tgt == self.target,
                        behind <= 32768,
                        ahead <= 32767,
                        d0 == d as int,
                        d < self.depth <= 255,
                        fr_old == frontier@,
                        j0 == j as int,
                        j < frontier@.len(),
                        eoff == frontier@[j0].offsets@,
                        refa == frontier@[j0].addr,
                        eoff == eoffsets@,
                        eoff.len() == d0,
                        reaches(iseq, behind, ahead, tgt, eoff, refa),
                        refa >= behind ==> lo == refa - behind,
                        refa < behind ==> lo == 0,
                        refa <= u64::MAX - ahead ==> hi == refa + ahead,
                        refa > u64::MAX - ahead ==> hi == u64::MAX,
                        forall|v: u64, a: u64|
                            index_maps(matches@, v, a) <==> (index_maps(iseq, v, a) && lo <= v && v
                                <= hi),
                        q <= matches@.len(),
                        frontier_sound(iseq, behind, ahead, tgt, d0, frontier@),
                        frontier_complete(iseq, behind, ahead, tgt, d0, frontier@),
                        frontier_sound(iseq, behind, ahead, tgt, d0 + 1, next@),
                        expansion_done(iseq, behind, ahead, frontier@, j0, next@),
                        forall|qp: int|
                            0 <= qp < q ==> exists|off: i16|
                                off as int == (#[trigger] matches@[qp]).0 - refa && entry_in(
                                    next@,
                                    eoff.push(off),
                                    matches@[qp].1,
                                ),
                        records_sound(iseq, anch, behind, ahead, tgt, d0 + 1, records@),
                        records_complete(iseq, anch, behind, ahead, tgt, d0, records@),
                        records_distinct(records@),
                        emission_done(iseq, anch, behind, ahead, frontier@, j0, records@),
                        forall|qp: int|
                            0 <= qp < q && anch.contains((#[trigger] matches@[qp]).1) ==> exists|
                                off: i16,
                            |
                                off as int == matches@[qp].0 - refa && record_in(
                                    records@,
                                    eoff.push(off),
                                    matches@[qp].1,
                                ),
                    decreases matches@.len() - q,
                {
                    let ghost q0 = q as int;
                    let p = matches[q];
                    let v = p.0;
                    let a2 = p.1;
                    proof {
                        assert(matches@[q0] == (v, a2));
                        assert(index_maps(matches@, v, a2));
                        assert(index_maps(iseq, v, a2));
                        assert(lo <= v);
                        assert(v <= hi);
                    }
                    let off: i16;
                    if v >= refa {
                        let diff = v - refa;
                        proof {
                            if refa <= u64::MAX - ahead {
                                assert(diff <= ahead);
                            } else {
                                assert(diff <= ahead);
                            }
                        }
                        off = diff as i16;
                        proof {
                            assert(off as int == v - refa);
                        }
                    } else {
                        let mag = refa - v;
                        proof {
                            if refa >= behind {
                                assert(mag <= behind);
                            } else {
                                assert(mag <= behind);
                            }
                        }
                        off = (-(mag as i64)) as i16;
                        proof {
                            assert(off as int == -(mag as int));
                            assert(off as int == v - refa);
                        }
                    }
                    proof {
                        assert(step_ok(iseq, behind, ahead, refa, off, a2)) by {
                            assert(-(behind as int) <= off as int <= ahead as int);
                            assert(refa + off as int == v);
                            assert((refa + off as int) as u64 == v);
                        }
                    }
                    let mut new_offsets = copy_offsets(&eoffsets);
                    new_offsets.push(off);
                    proof {
                        assert(new_offsets@ == eoff.push(off));
                        lemma_reach_extend(iseq, behind, ahead, tgt, eoff, off, a2);
                        assert(reaches(iseq, behind, ahead, tgt, eoff, refa) && step_ok(
                            iseq,
                            behind,
                            ahead,
                            refa,
                            off,
                            a2,
                        ));
                        assert(reaches(iseq, behind, ahead, tgt, eoff.push(off), a2));
                    }
                    let hit = contains_addr(&self.startpoints, a2);
                    if hit {
                        let present = record_present(&records, &new_offsets, a2);
                        if !present {
                            let rec_offsets = copy_offsets(&new_offsets);
                            let ghost recs_pre = records@;
                            records.push(PathRecord { offsets: rec_offsets, anchor: a2 });
                            proof {
                                let rec = records@[records@.len() - 1];
                                assert(rec.offsets@ == eoff.push(off) && rec.anchor == a2);
                                assert(record_matches(
                                    iseq,
                                    anch,
                                    behind,
                                    ahead,
                                    tgt,
                                    rec.offsets@,
                                    rec.anchor,
                                ));
                                assert forall|m: int|
                                    0 <= m < records@.len() implies record_matches(
                                    iseq,
                                    anch,
                                    behind,
                                    ahead,
                                    tgt,
                                    (#[trigger] records@[m]).offsets@,
                                    records@[m].anchor,
                                ) && records@[m].offsets@.len() <= d0 + 1 by {
                                    if m < records@.len() - 1 {
                                        assert(records@[m] == recs_pre[m]);
                                    }
                                }
                                assert(records_sound(
                                    iseq,
                                    anch,
                                    behind,
                                    ahead,
                                    tgt,
                                    d0 + 1,
                                    records@,
                                ));
                                assert forall|m: int, n: int|
                                    0 <= m < n < records@.len() implies ((
                                #[trigger] records@[m]).offsets@ != (#[trigger] records@[n]).offsets@
                                    || records@[m].anchor != records@[n].anchor) by {
                                    if n < records@.len() - 1 {
                                        assert(records@[m] == recs_pre[m]);
                                        assert(records@[n] == recs_pre[n]);
                                    } else {
                                        assert(records@[m] == recs_pre[m]);
                                        if records@[m].offsets@ == rec.offsets@ && records@[m].anchor
                                            == rec.anchor {
                                            assert(record_in(recs_pre, new_offsets@, a2));
                                            assert(false);
                                        }
                                    }
                                }
                                assert(records_distinct(records@));
                                assert forall|offsets: Seq<i16>, anchor: u64|
                                    #[trigger] record_matches(
                                        iseq,
                                        anch,
                                        behind,
                                        ahead,
                                        tgt,
                                        offsets,
                                        anchor,
                                    ) && offsets.len() <= d0 implies record_in(
                                    records@,
                                    offsets,
                                    anchor,
                                ) by {
                                    assert(record_in(recs_pre, offsets, anchor));
                                    lemma_record_in_push(recs_pre, rec, offsets, anchor);
                                }
                                assert(records_complete(
                                    iseq,
                                    anch,
                                    behind,
                                    ahead,
                                    tgt,
                                    d0,
                                    records@,
                                ));
                                assert forall|jp: int, o: i16, a: u64|
                                    0 <= jp < j0 && #[trigger] step_ok(
                                        iseq,
                                        behind,
                                        ahead,
                                        frontier@[jp].addr,
                                        o,
                                        a,
                                    ) && anch.contains(a) implies record_in(
                                    records@,
                                    frontier@[jp].offsets@.push(o),
                                    a,
                                ) by {
                                    assert(record_in(recs_pre, frontier@[jp].offsets@.push(o), a));
                                    lemma_record_in_push(
                                        recs_pre,
                                        rec,
                                        frontier@[jp].offsets@.push(o),
                                        a,
                                    );
                                }
                                assert(emission_done(
                                    iseq,
                                    anch,
                                    behind,
                                    ahead,
                                    frontier@,
                                    j0,
                                    records@,
                                ));
                                assert forall|qp: int|
                                    0 <= qp < q0 && anch.contains((#[trigger] matches@[qp]).1)
                                    implies exists|o: i16|
                                    o as int == matches@[qp].0 - refa && record_in(
                                        records@,
                                        eoff.push(o),
                                        matches@[qp].1,
                                    ) by {
                                    let o = choose|o: i16|
                                        o as int == (#[trigger] matches@[qp]).0 - refa && record_in(
                                            recs_pre,
                                            eoff.push(o),
                                            matches@[qp].1,
                                        );
                                    lemma_record_in_push(
                                        recs_pre,
                                        rec,
                                        eoff.push(o),
                                        matches@[qp].1,
                                    );
                                    assert(o as int == matches@[qp].0 - refa && record_in(
                                        records@,
                                        eoff.push(o),
                                        matches@[qp].1,
                                    ));
                                }
                            }
                        }
                    }
                    let ghost next_pre = next@;
                    let new_entry_addr = a2;
                    next.push(FrontierEntry { offsets: new_offsets, addr: new_entry_addr });
                    q = q + 1;
                    proof {
                        assert(q as int == q0 + 1);
                        let ne = next@[next@.len() - 1];
                        assert(ne.offsets@ == eoff.push(off) && ne.addr == a2);
                        assert forall|m: int|
                            0 <= m < next@.len() implies (#[trigger] next@[m]).offsets@.len() == d0
                            + 1 && reaches(
                            iseq,
                            behind,
                            ahead,
                            tgt,
                            next@[m].offsets@,
                            next@[m].addr,
                        ) by {
                            if m < next@.len() - 1 {
                                assert(next@[m] == next_pre[m]);
                            }
                        }
                        assert(frontier_sound(iseq, behind, ahead, tgt, d0 + 1, next@));
                        assert forall|jp: int, o: i16, a: u64|
                            0 <= jp < j0 && #[trigger] step_ok(
                                iseq,
                                behind,
                                ahead,
                                frontier@[jp].addr,
                                o,
                                a,
                            ) implies entry_in(next@, frontier@[jp].offsets@.push(o), a) by {
                            assert(entry_in(next_pre, frontier@[jp].offsets@.push(o), a));
                            lemma_entry_in_push(
                                next_pre,
                                next@[next@.len() - 1],
                                frontier@[jp].offsets@.push(o),
                                a,
                            );
                        }
                        assert(expansion_done(iseq, behind, ahead, frontier@, j0, next@));
                        assert forall|qp: int| 0 <= qp < q0 + 1 implies exists|o: i16|
                            o as int == (#[trigger] matches@[qp]).0 - refa && entry_in(
                                next@,
                                eoff.push(o),
                                matches@[qp].1,
                            ) by {
                            if qp < q0 {
                                let o = choose|o: i16|
                                    o as int == (#[trigger] matches@[qp]).0 - refa && entry_in(
                                        next_pre,
                                        eoff.push(o),
                                        matches@[qp].1,
                                    );
                                lemma_entry_in_push(
                                    next_pre,
                                    next@[next@.len() - 1],
                                    eoff.push(o),
                                    matches@[qp].1,
                                );
                                assert(o as int == matches@[qp].0 - refa && entry_in(
                                    next@,
                                    eoff.push(o),
                                    matches@[qp].1,
                                ));
                            } else {
                                assert(next@[next@.len() - 1].offsets@ == eoff.push(off));
                                assert(entry_in(next@, eoff.push(off), a2));
                                assert(off as int == matches@[qp].0 - refa && entry_in(
                                    next@,
                                    eoff.push(off),
                                    matches@[qp].1,
                                ));
                            }
                        }
                        assert forall|qp: int|
                            0 <= qp < q0 + 1 && anch.contains((#[trigger] matches@[qp]).1)
                            implies exists|o: i16|
                            o as int == matches@[qp].0 - refa && record_in(
                                records@,
                                eoff.push(o),
                                matches@[qp].1,
                            ) by {
                            if qp < q0 {
                            } else {
                                assert(anch.contains(a2));
                                assert(record_in(records@, eoff.push(off), a2));
                                assert(off as int == matches@[qp].0 - refa && record_in(
                                    records@,
                                    eoff.push(off),
                                    matches@[qp].1,
                                ));
                            }
                        }
                    }
                }
                j = j + 1;
                proof {
                    assert(j as int == j0 + 1);
                    let qf = q as int;
                    assert forall|jp: int, o: i16, a: u64|
                        0 <= jp < j0 + 1 && #[trigger] step_ok(
                            iseq,
                            behind,
                            ahead,
                            frontier@[jp].addr,
                            o,
                            a,
                        ) implies entry_in(next@, frontier@[jp].offsets@.push(o), a) by {
                        if jp == j0 {
                            let v = (refa + o as int) as u64;
                            assert(index_maps(iseq, v, a));
                            assert(lo <= v && v <= hi) by {
                                if refa >= behind {
                                    assert(lo == refa - behind);
                                } else {
                                    assert(lo == 0);
                                }
                                if refa <= u64::MAX - ahead {
                                    assert(hi == refa + ahead);
                                } else {
                                    assert(hi == u64::MAX);
                                }
                            }
                            assert(index_maps(matches@, v, a));
                            let qi = choose|i: int|
                                0 <= i < matches@.len() && #[trigger] matches@[i] == (v, a);
                            assert(0 <= qi < qf);
                            let o2 = choose|o2: i16|
                                o2 as int == (#[trigger] matches@[qi]).0 - refa && entry_in(
                                    next@,
                                    eoff.push(o2),
                                    matches@[qi].1,
                                );
                            assert(o2 as int == v - refa);
                            assert(o2 as int == o as int);
                            assert(o2 == o);
                            assert(entry_in(next@, eoff.push(o), a));
                            assert(frontier@[jp].offsets@ == eoff);
                        }
                    }
                    assert(expansion_done(iseq, behind, ahead, frontier@, j as int, next@));
                    assert forall|jp: int, o: i16, a: u64|
                        0 <= jp < j0 + 1 && #[trigger] step_ok(
                            iseq,
                            behind,
                            ahead,
                            frontier@[jp].addr,
                            o,
                            a,
                        ) && anch.contains(a) implies record_in(
                        records@,
                        frontier@[jp].offsets@.push(o),
                        a,
                    ) by {
                        if jp == j0 {
                            let v = (refa + o as int) as u64;
                            assert(index_maps(iseq, v, a));
                            assert(lo <= v && v <= hi) by {
                                if refa >= behind {
                                    assert(lo == refa - behind);
                                } else {
                                    assert(lo == 0);
                                }
                                if refa <= u64::MAX - ahead {
                                    assert(hi == refa + ahead);
                                } else {
                                    assert(hi == u64::MAX);
                                }
                            }
                            assert(index_maps(matches@, v, a));
                            let qi = choose|i: int|
                                0 <= i < matches@.len() && #[trigger] matches@[i] == (v, a);
                            assert(0 <= qi < qf);
                            assert(anch.contains(matches@[qi].1));
                            let o2 = choose|o2: i16|
                                o2 as int == (#[trigger] matches@[qi]).0 - refa && record_in(
                                    records@,
                                    eoff.push(o2),
                                    matches@[qi].1,
                                );
                            assert(o2 as int == v - refa);
                            assert(o2 == o);
                            assert(record_in(records@, eoff.push(o), a));
                            assert(frontier@[jp].offsets@ == eoff);
                        }
                    }
                    assert(emission_done(iseq, anch, behind, ahead, frontier@, j as int, records@));
                }
            }
            let ghost next_final = next@;
            frontier = next;
            d = d + 1;
            proof {
                assert(d as int == d0 + 1);
                assert(frontier@ == next_final);
                assert(frontier_sound(iseq, behind, ahead, tgt, d as int, frontier@));
                assert forall|offsets: Seq<i16>, last: u64|
                    offsets.len() == d as int && #[trigger] reaches(
                        iseq,
                        behind,
                        ahead,
                        tgt,
                        offsets,
                        last,
                    ) implies entry_in(frontier@, offsets, last) by {
                    let head = offsets.drop_last();
                    let lastoff = offsets.last();
                    assert(offsets =~= head.push(lastoff));
                    lemma_reach_extend(iseq, behind, ahead, tgt, head, lastoff, last);
                    let prev = choose|prev: u64|
                        #[trigger] reaches(iseq, behind, ahead, tgt, head, prev) && step_ok(
                            iseq,
                            behind,
                            ahead,
                            prev,
                            lastoff,
                            last,
                        );
                    assert(head.len() == d0);
                    assert(entry_in(fr_old, head, prev));
                    let jp = choose|m: int|
                        0 <= m < fr_old.len() && (#[trigger] fr_old[m]).offsets@ == head
                            && fr_old[m].addr == prev;
                    assert(step_ok(iseq, behind, ahead, fr_old[jp].addr, lastoff, last));
                    assert(entry_in(next_final, fr_old[jp].offsets@.push(lastoff), last));
                    assert(fr_old[jp].offsets@.push(lastoff) == offsets);
                }
                assert(frontier_complete(iseq, behind, ahead, tgt, d as int, frontier@));
                assert forall|offsets: Seq<i16>, anchor: u64|
                    #[trigger] record_matches(iseq, anch, behind, ahead, tgt, offsets, anchor)
                        && offsets.len() <= d as int implies record_in(
                    records@,
                    offsets,
                    anchor,
                ) by {
                    if offsets.len() <= d0 {
                        assert(record_in(records@, offsets, anchor));
                    } else {
                        assert(offsets.len() == d0 + 1);
                        let head = offsets.drop_last();
                        let lastoff = offsets.last();
                        assert(offsets =~= head.push(lastoff));
                        lemma_reach_extend(iseq, behind, ahead, tgt, head, lastoff, anchor);
                        let prev = choose|prev: u64|
                            #[trigger] reaches(iseq, behind, ahead, tgt, head, prev) && step_ok(
                                iseq,
                                behind,
                                ahead,
                                prev,
                                lastoff,
                                anchor,
                            );
                        assert(head.len() == d0);
                        assert(entry_in(fr_old, head, prev));
                        let jp = choose|m: int|
                            0 <= m < fr_old.len() && (#[trigger] fr_old[m]).offsets@ == head
                                && fr_old[m].addr == prev;
                        assert(step_ok(iseq, behind, ahead, fr_old[jp].addr, lastoff, anchor));
                        assert(record_in(records@, fr_old[jp].offsets@.push(lastoff), anchor));
                        assert(fr_old[jp].offsets@.push(lastoff) == offsets);
                    }
                }
                assert(records_complete(iseq, anch, behind, ahead, tgt, d as int, records@));
            }
        }
        Ok(records)
    }
}

} // verus!
