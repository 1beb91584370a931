use vstd::prelude::*;

use vstd::bytes::{
    lemma_auto_spec_u16_to_from_le_bytes, lemma_auto_spec_u64_to_from_le_bytes,
    spec_u16_from_le_bytes, spec_u16_to_le_bytes, spec_u64_from_le_bytes, spec_u64_to_le_bytes,
    u16_from_le_bytes, u16_to_le_bytes, u64_from_le_bytes, u64_to_le_bytes,
};
use vstd::slice::{slice_subrange, slice_to_vec};

use crate::error::{Error, ErrorKind};
use crate::cache::AddressValueCache;
use crate::region::{catalog_view, regions_wf, MemoryRegion, RegionView};
use crate::search::PathRecord;

verus! {

/// Little-endian encoding of one 64-bit quantity.
pub open spec fn enc_u64(x: u64) -> Seq<u8> {
    spec_u64_to_le_bytes(x)
}

/// One encoded region: start, end, path length, path bytes.
pub open spec fn enc_region(r: RegionView) -> Seq<u8> {
    enc_u64(r.start) + enc_u64(r.end) + enc_u64(r.path.len() as u64) + r.path
}

/// The encoded regions, in catalog order.
pub open spec fn enc_regions(rs: Seq<RegionView>) -> Seq<u8>
    decreases rs.len(),
{
    if rs.len() == 0 {
        Seq::empty()
    } else {
        enc_region(rs[0]) + enc_regions(rs.drop_first())
    }
}

/// The encoded catalog: region count, then each region.
pub open spec fn enc_catalog(rs: Seq<RegionView>) -> Seq<u8> {
    enc_u64(rs.len() as u64) + enc_regions(rs)
}

/// Reading one 64-bit quantity at `pos`.
pub open spec fn dec_u64(b: Seq<u8>, pos: int) -> Option<(u64, int)> {
    if 0 <= pos && pos + 8 <= b.len() {
        Some((spec_u64_from_le_bytes(b.subrange(pos, pos + 8)), pos + 8))
    } else {
        None
    }
}

/// Reading one region at `pos`; fails on truncation or inverted bounds.
pub open spec fn dec_region(b: Seq<u8>, pos: int) -> Option<(RegionView, int)> {
    match dec_u64(b, pos) {
        Option::None => Option::None,
        Option::Some((start, p1)) => match dec_u64(b, p1) {
            Option::None => Option::None,
            Option::Some((end, p2)) => match dec_u64(b, p2) {
                Option::None => Option::None,
                Option::Some((plen, p3)) => if start <= end && plen as int <= b.len() - p3 {
                    Option::Some(
                        (
                            RegionView { start, end, path: b.subrange(p3, p3 + plen as int) },
                            p3 + plen as int,
                        ),
                    )
                } else {
                    Option::None
                },
            },
        },
    }
}

/// Reading `n` regions starting at `pos`.
pub open spec fn dec_regions(b: Seq<u8>, pos: int, n: int) -> Option<(Seq<RegionView>, int)>
    decreases n,
{
    if n <= 0 {
        Option::Some((Seq::empty(), pos))
    } else {
        match dec_region(b, pos) {
            Option::None => Option::None,
            Option::Some((r0, p1)) => match dec_regions(b, p1, n - 1) {
                Option::None => Option::None,
                Option::Some((tail, pe)) => Option::Some((seq![r0] + tail, pe)),
            },
        }
    }
}

/// Reading a whole catalog from the front of `b`.
pub open spec fn dec_catalog(b: Seq<u8>) -> Option<(Seq<RegionView>, int)> {
    match dec_u64(b, 0) {
        Option::None => Option::None,
        Option::Some((n, p)) => dec_regions(b, p, n as int),
    }
}

/// Appending one region extends the encoding by that region's bytes.
proof fn lemma_enc_regions_push(rs: Seq<RegionView>, r: RegionView)
    ensures
        enc_regions(rs.push(r)) == enc_regions(rs) + enc_region(r),
    decreases rs.len(),
{
    if rs.len() == 0 {
        assert(rs.push(r)[0] == r);
        let d = rs.push(r).drop_first();
        assert(d =~= Seq::<RegionView>::empty());
        assert(enc_regions(d) == Seq::<u8>::empty());
        assert(enc_regions(rs.push(r)) == enc_region(r) + enc_regions(d));
        assert(enc_region(r) + Seq::<u8>::empty() =~= enc_region(r));
        assert(enc_regions(rs) == Seq::<u8>::empty());
        assert(enc_regions(rs) + enc_region(r) =~= enc_region(r));
    } else {
        assert(rs.push(r).drop_first() =~= rs.drop_first().push(r));
        lemma_enc_regions_push(rs.drop_first(), r);
        assert(rs.push(r)[0] == rs[0]);
        assert(enc_regions(rs.push(r)) == enc_region(rs[0]) + (enc_regions(rs.drop_first())
            + enc_region(r)));
        assert(enc_region(rs[0]) + (enc_regions(rs.drop_first()) + enc_region(r)) =~= (enc_region(
            rs[0],
        ) + enc_regions(rs.drop_first())) + enc_region(r));
    }
}

/// Encodes the selected regions as the scan file's self-describing header.
pub fn encode_regions(rs: &Vec<MemoryRegion>) -> (r: Vec<u8>)
    requires
        regions_wf(rs@),
    ensures
        r@ == enc_catalog(catalog_view(rs@)),
{
    let mut out = u64_to_le_bytes(rs.len() as u64);
    proof {
        assert(catalog_view(rs@).len() == rs@.len());
        assert(catalog_view(rs@).take(0) =~= Seq::empty());
        assert(out@ =~= enc_u64(rs@.len() as u64) + enc_regions(catalog_view(rs@).take(0)));
    }
    let mut i: usize = 0;
    while i < rs.len()
        invariant
            regions_wf(rs@),
            i <= rs@.len(),
            catalog_view(rs@).len() == rs@.len(),
            out@ == enc_u64(rs@.len() as u64) + enc_regions(catalog_view(rs@).take(i as int)),
        decreases rs@.len() - i,
    {
        let ghost i0 = i as int;
        let ghost out0 = out@;
        let mut b1 = u64_to_le_bytes(rs[i].start);
        out.append(&mut b1);
        let mut b2 = u64_to_le_bytes(rs[i].end);
        out.append(&mut b2);
        let mut b3 = u64_to_le_bytes(rs[i].path.len() as u64);
        out.append(&mut b3);
        out.extend_from_slice(rs[i].path.as_slice());
        i = i + 1;
        proof {
            assert(i as int == i0 + 1);
            let cv = catalog_view(rs@);
            assert(cv[i0] == rs@[i0]@);
            assert(out@ =~= out0 + enc_region(cv[i0]));
            lemma_enc_regions_push(cv.take(i0), cv[i0]);
            assert(cv.take(i0 + 1) =~= cv.take(i0).push(cv[i0]));
            assert(out@ =~= enc_u64(rs@.len() as u64) + enc_regions(cv.take(i0 + 1)));
        }
    }
    proof {
        assert(catalog_view(rs@).take(rs@.len() as int) =~= catalog_view(rs@));
    }
    out
}

/// Reads one 64-bit little-endian quantity, if enough bytes remain.
fn read_u64(bytes: &Vec<u8>, pos: usize) -> (r: Option<(u64, usize)>)
    ensures
        match r {
            Option::Some((x, p2)) => {
                &&& dec_u64(bytes@, pos as int) == Option::Some((x, p2 as int))
                &&& p2 == pos + 8
                &&& p2 <= bytes@.len()
            },
            Option::None => dec_u64(bytes@, pos as int) is None,
        },
{
    if bytes.len() >= 8 && pos <= bytes.len() - 8 {
        let s = slice_subrange(bytes.as_slice(), pos, pos + 8);
        let x = u64_from_le_bytes(s);
        Some((x, pos + 8))
    } else {
        None
    }
}

/// Decodes a catalog from the front of `bytes`, returning the regions and
/// the number of bytes consumed. Succeeds exactly when the bytes start
/// with a structurally valid catalog.
pub fn decode_regions(bytes: &Vec<u8>) -> (r: Result<(Vec<MemoryRegion>, usize), Error>)
    ensures
        match r {
            Ok((regions, used)) => {
                &&& dec_catalog(bytes@) == Option::Some((catalog_view(regions@), used as int))
                &&& used <= bytes@.len()
                &&& regions_wf(regions@)
            },
            Err(e) => {
                &&& dec_catalog(bytes@) is None
                &&& (e == Error(ErrorKind::Truncated) || e == Error(ErrorKind::BadRegion))
            },
        },
{
    let first = read_u64(bytes, 0);
    if first.is_none() {
        return Err(Error(ErrorKind::Truncated));
    }
    let (n, mut pos) = first.unwrap();
    let mut out: Vec<MemoryRegion> = Vec::new();
    let mut i: u64 = 0;
    proof {
        assert(catalog_view(out@) =~= Seq::empty());
    }
    while i < n
        invariant
            i <= n,
            pos <= bytes@.len(),
            out@.len() == i,
            regions_wf(out@),
            dec_catalog(bytes@) == (match dec_regions(bytes@, pos as int, n as int - i as int) {
                Option::None => Option::<(Seq<RegionView>, int)>::None,
                Option::Some((tail, pe)) => Option::Some((catalog_view(out@) + tail, pe)),
            }),
        decreases n - i,
    {
        let ghost i0 = i as int;
        let ghost pos0 = pos as int;
        let ghost out0 = out@;
        let r1 = read_u64(bytes, pos);
        if r1.is_none() {
            return Err(Error(ErrorKind::Truncated));
        }
        let (start, p1) = r1.unwrap();
        let r2 = read_u64(bytes, p1);
        if r2.is_none() {
            return Err(Error(ErrorKind::Truncated));
        }
        let (end, p2) = r2.unwrap();
        let r3 = read_u64(bytes, p2);
        if r3.is_none() {
            return Err(Error(ErrorKind::Truncated));
        }
        let (plen, p3) = r3.unwrap();
        if start > end {
            proof {
                assert(dec_region(bytes@, pos0) is None);
            }
            return Err(Error(ErrorKind::BadRegion));
        }
        if plen > (bytes.len() - p3) as u64 {
            proof {
                assert(dec_region(bytes@, pos0) is None);
            }
            return Err(Error(ErrorKind::Truncated));
        }
        let plen_us = plen as usize;
        let path = slice_to_vec(slice_subrange(bytes.as_slice(), p3, p3 + plen_us));
        let region = MemoryRegion { start, end, path };
        proof {
            assert(region@ == RegionView {
                start,
                end,
                path: bytes@.subrange(p3 as int, p3 as int + plen as int),
            });
            assert(dec_region(bytes@, pos0) == Option::Some((region@, p3 as int + plen as int)));
        }
        out.push(region);
        pos = p3 + plen_us;
        i = i + 1;
        proof {
            assert(i as int == i0 + 1);
            assert(pos as int == p3 as int + plen as int);
            assert(out@ == out0.push(region));
            assert(catalog_view(out@) =~= catalog_view(out0).push(region@));
            let k = n as int - i0;
            assert(dec_regions(bytes@, pos0, k) == (match dec_region(bytes@, pos0) {
                Option::None => Option::<(Seq<RegionView>, int)>::None,
                Option::Some((r0, pp1)) => match dec_regions(bytes@, pp1, k - 1) {
                    Option::None => Option::<(Seq<RegionView>, int)>::None,
                    Option::Some((tail, pe)) => Option::Some((seq![r0] + tail, pe)),
                },
            }));
            match dec_regions(bytes@, pos as int, k - 1) {
                Option::None => {
                    assert(dec_regions(bytes@, pos0, k) is None);
                    assert(dec_catalog(bytes@) is None);
                },
                Option::Some((tail, pe)) => {
                    assert(dec_regions(bytes@, pos0, k) == Option::Some(
                        (seq![region@] + tail, pe),
                    ));
                    assert(catalog_view(out0) + (seq![region@] + tail) =~= catalog_view(out@)
                        + tail);
                },
            }
        }
    }
    proof {
        assert(dec_regions(bytes@, pos as int, 0) == Option::Some(
            (Seq::<RegionView>::empty(), pos as int),
        ));
        assert(catalog_view(out@) + Seq::<RegionView>::empty() =~= catalog_view(out@));
    }
    Ok((out, pos))
}

/// Decoding inverts encoding: a byte string that begins with an encoded
/// catalog of well-formed regions decodes to exactly those regions, with
/// exactly the encoding's bytes consumed.
pub proof fn lemma_regions_round_trip(b: Seq<u8>, pos: int, rs: Seq<RegionView>)
    requires
        0 <= pos,
        pos + enc_regions(rs).len() <= b.len(),
        b.subrange(pos, pos + enc_regions(rs).len()) == enc_regions(rs),
        forall|i: int|
            0 <= i < rs.len() ==> (#[trigger] rs[i]).wf() && rs[i].path.len() <= u64::MAX,
    ensures
        dec_regions(b, pos, rs.len() as int) == Option::Some(
            (rs, pos + enc_regions(rs).len()),
        ),
    decreases rs.len(),
{
    lemma_auto_spec_u64_to_from_le_bytes();
    if rs.len() == 0 {
        assert(rs =~= Seq::<RegionView>::empty());
    } else {
        let r0 = rs[0];
        let e0 = enc_region(r0);
        let tail = rs.drop_first();
        let etail = enc_regions(tail);
        let plen = r0.path.len() as int;
        assert(enc_regions(rs) == e0 + etail);
        let etotal = enc_regions(rs).len() as int;
        assert(e0.len() == 24 + plen);
        assert forall|t: int| 0 <= t < e0.len() implies #[trigger] b[pos + t] == e0[t] by {
            assert(b.subrange(pos, pos + etotal)[t] == b[pos + t]);
            assert((e0 + etail)[t] == e0[t]);
        }
        assert(b.subrange(pos, pos + 8) =~= enc_u64(r0.start));
        assert(dec_u64(b, pos) == Option::Some((r0.start, pos + 8)));
        assert(b.subrange(pos + 8, pos + 16) =~= enc_u64(r0.end)) by {
            assert forall|t: int| 0 <= t < 8 implies #[trigger] b.subrange(pos + 8, pos + 16)[t]
                == enc_u64(r0.end)[t] by {
                assert(b[pos + (8 + t)] == e0[8 + t]);
                assert(e0[8 + t] == enc_u64(r0.end)[t]);
            }
        }
        assert(dec_u64(b, pos + 8) == Option::Some((r0.end, pos + 16)));
        assert(b.subrange(pos + 16, pos + 24) =~= enc_u64(r0.path.len() as u64)) by {
            assert forall|t: int| 0 <= t < 8 implies #[trigger] b.subrange(pos + 16, pos + 24)[t]
                == enc_u64(r0.path.len() as u64)[t] by {
                assert(b[pos + (16 + t)] == e0[16 + t]);
                assert(e0[16 + t] == enc_u64(r0.path.len() as u64)[t]);
            }
        }
        assert(dec_u64(b, pos + 16) == Option::Some((r0.path.len() as u64, pos + 24)));
        assert(b.subrange(pos + 24, pos + 24 + plen) =~= r0.path) by {
            assert forall|t: int| 0 <= t < plen implies #[trigger] b.subrange(
                pos + 24,
                pos + 24 + plen,
            )[t] == r0.path[t] by {
                assert(b[pos + (24 + t)] == e0[24 + t]);
                assert(e0[24 + t] == r0.path[t]);
            }
        }
        assert(dec_region(b, pos) == Option::Some((r0, pos + 24 + plen))) by {
            assert(rs[0].wf() && rs[0].path.len() <= u64::MAX);
            assert((r0.path.len() as u64) as int == plen);
            assert(plen <= b.len() - (pos + 24));
            assert(RegionView {
                start: r0.start,
                end: r0.end,
                path: b.subrange(pos + 24, pos + 24 + plen),
            } == r0);
        }
        assert(b.subrange(pos + e0.len(), pos + e0.len() + etail.len() as int) =~= etail) by {
            assert forall|t: int| 0 <= t < etail.len() implies #[trigger] b.subrange(
                pos + e0.len(),
                pos + e0.len() + etail.len() as int,
            )[t] == etail[t] by {
                assert(b[pos + (e0.len() + t)] == b.subrange(pos, pos + etotal)[e0.len() + t]);
                assert((e0 + etail)[e0.len() + t] == etail[t]);
            }
        }
        lemma_regions_round_trip(b, pos + e0.len() as int, tail);
        assert(seq![r0] + tail =~= rs);
    }
}

/// A byte string that begins with an encoded catalog decodes to exactly
/// that catalog.
pub proof fn lemma_catalog_round_trip(b: Seq<u8>, rs: Seq<RegionView>)
    requires
        enc_catalog(rs).len() <= b.len(),
        b.subrange(0, enc_catalog(rs).len() as int) == enc_catalog(rs),
        forall|i: int|
            0 <= i < rs.len() ==> (#[trigger] rs[i]).wf() && rs[i].path.len() <= u64::MAX,
        rs.len() <= u64::MAX,
    ensures
        dec_catalog(b) == Option::Some((rs, enc_catalog(rs).len() as int)),
{
    lemma_auto_spec_u64_to_from_le_bytes();
    let ec = enc_catalog(rs);
    assert(ec == enc_u64(rs.len() as u64) + enc_regions(rs));
    assert forall|t: int| 0 <= t < ec.len() implies #[trigger] b[t] == ec[t] by {
        assert(b.subrange(0, ec.len() as int)[t] == b[t]);
    }
    assert(b.subrange(0, 8) =~= enc_u64(rs.len() as u64)) by {
        assert forall|t: int| 0 <= t < 8 implies #[trigger] b.subrange(0, 8)[t] == enc_u64(
            rs.len() as u64,
        )[t] by {
            assert(b[t] == ec[t]);
            assert(ec[t] == enc_u64(rs.len() as u64)[t]);
        }
    }
    assert(dec_u64(b, 0) == Option::Some((rs.len() as u64, 8int)));
    assert(b.subrange(8, 8 + enc_regions(rs).len() as int) =~= enc_regions(rs)) by {
        assert forall|t: int| 0 <= t < enc_regions(rs).len() implies #[trigger] b.subrange(
            8,
            8 + enc_regions(rs).len() as int,
        )[t] == enc_regions(rs)[t] by {
            assert(b[8 + t] == ec[8 + t]);
            assert(ec[8 + t] == enc_regions(rs)[t]);
        }
    }
    lemma_regions_round_trip(b, 8, rs);
}

/// The mathematical shape of a path record.
pub ghost struct RecordView {
    pub offsets: Seq<i16>,
    pub anchor: u64,
}

impl View for PathRecord {
    type V = RecordView;

    open spec fn view(&self) -> RecordView {
        RecordView { offsets: self.offsets@, anchor: self.anchor }
    }
}

/// The views of a record list, in order.
pub open spec fn records_view(recs: Seq<PathRecord>) -> Seq<RecordView> {
    recs.map_values(|r: PathRecord| r@)
}

/// One offset, biased by 32768 into an unsigned 16-bit field.
pub open spec fn enc_off(off: i16) -> Seq<u8> {
    spec_u16_to_le_bytes((off + 32768) as u16)
}

/// The offsets of one record, two bytes each.
pub open spec fn enc_offs(offs: Seq<i16>) -> Seq<u8>
    decreases offs.len(),
{
    if offs.len() == 0 {
        Seq::empty()
    } else {
        enc_off(offs[0]) + enc_offs(offs.drop_first())
    }
}

/// Padding for the unused offset slots.
pub open spec fn zero_bytes(n: int) -> Seq<u8> {
    Seq::new(n as nat, |i: int| 0u8)
}

/// One encoded record at stream depth `depth`: the level count, the used
/// offsets, zero padding up to `depth` slots, and the anchor address.
pub open spec fn enc_record(r: RecordView, depth: int) -> Seq<u8> {
    seq![r.offsets.len() as u8] + enc_offs(r.offsets) + zero_bytes(2 * (depth - r.offsets.len()))
        + enc_u64(r.anchor)
}

/// The encoded records, in order.
pub open spec fn enc_records(recs: Seq<RecordView>, depth: int) -> Seq<u8>
    decreases recs.len(),
{
    if recs.len() == 0 {
        Seq::empty()
    } else {
        enc_record(recs[0], depth) + enc_records(recs.drop_first(), depth)
    }
}

/// The record stream: its fixed per-record width, then the records.
pub open spec fn enc_body(depth: int, recs: Seq<RecordView>) -> Seq<u8> {
    enc_u64((2 * depth + 9) as u64) + enc_records(recs, depth)
}

/// The `n` offsets stored two bytes each from `pos`, unbiased.
pub open spec fn dec_offs(b: Seq<u8>, pos: int, n: int) -> Seq<i16> {
    Seq::new(n as nat, |k: int| (spec_u16_from_le_bytes(b.subrange(pos + 2 * k, pos + 2 * k + 2))
        - 32768) as i16)
}

/// Reading one record of stream depth `depth` at `pos`.
pub open spec fn dec_record(b: Seq<u8>, pos: int, depth: int) -> Option<(RecordView, int)> {
    if 0 <= pos && pos + 1 + 2 * depth + 8 <= b.len() {
        let levels = b[pos] as int;
        if 1 <= levels <= depth {
            Option::Some(
                (
                    RecordView {
                        offsets: dec_offs(b, pos + 1, levels),
                        anchor: spec_u64_from_le_bytes(
                            b.subrange(pos + 1 + 2 * depth, pos + 1 + 2 * depth + 8),
                        ),
                    },
                    pos + 1 + 2 * depth + 8,
                ),
            )
        } else {
            Option::None
        }
    } else {
        Option::None
    }
}

/// Reading `n` records of stream depth `depth` from `pos`.
pub open spec fn dec_records(b: Seq<u8>, pos: int, depth: int, n: int) -> Option<Seq<RecordView>>
    decreases n,
{
    if n <= 0 {
        Option::Some(Seq::empty())
    } else {
        match dec_record(b, pos, depth) {
            Option::None => Option::None,
            Option::Some((r0, p1)) => match dec_records(b, p1, depth, n - 1) {
                Option::None => Option::None,
                Option::Some(tail) => Option::Some(seq![r0] + tail),
            },
        }
    }
}

/// Reading a record stream that occupies `b` from `pos` to its end: the
/// width field fixes the depth, and the remaining length must be an exact
/// multiple of the width.
pub open spec fn dec_body(b: Seq<u8>, pos: int) -> Option<(int, Seq<RecordView>)> {
    match dec_u64(b, pos) {
        Option::None => Option::None,
        Option::Some((w, p)) => if 11 <= w <= 519 && w % 2 == 1 {
            let depth = (w as int - 9) / 2;
            let rem = b.len() - p;
            if rem % (w as int) == 0 {
                match dec_records(b, p, depth, rem / (w as int)) {
                    Option::None => Option::None,
                    Option::Some(recs) => Option::Some((depth, recs)),
                }
            } else {
                Option::None
            }
        } else {
            Option::None
        },
    }
}

proof fn lemma_enc_offs_push(s: Seq<i16>, x: i16)
    ensures
        enc_offs(s.push(x)) == enc_offs(s) + enc_off(x),
    decreases s.len(),
{
    if s.len() == 0 {
        assert(s.push(x)[0] == x);
        let d = s.push(x).drop_first();
        assert(d =~= Seq::<i16>::empty());
        assert(enc_offs(d) == Seq::<u8>::empty());
        assert(enc_offs(s.push(x)) == enc_off(x) + enc_offs(d));
        assert(enc_off(x) + Seq::<u8>::empty() =~= enc_off(x));
        assert(enc_offs(s) == Seq::<u8>::empty());
        assert(enc_offs(s) + enc_off(x) =~= enc_off(x));
    } else {
        assert(s.push(x).drop_first() =~= s.drop_first().push(x));
        lemma_enc_offs_push(s.drop_first(), x);
        assert(s.push(x)[0] == s[0]);
        assert(enc_offs(s.push(x)) == enc_off(s[0]) + (enc_offs(s.drop_first()) + enc_off(x)));
        assert(enc_off(s[0]) + (enc_offs(s.drop_first()) + enc_off(x)) =~= (enc_off(s[0])
            + enc_offs(s.drop_first())) + enc_off(x));
    }
}

proof fn lemma_enc_offs_len(s: Seq<i16>)
    ensures
        enc_offs(s).len() == 2 * s.len(),
    decreases s.len(),
{
    lemma_auto_spec_u16_to_from_le_bytes();
    if s.len() > 0 {
        lemma_enc_offs_len(s.drop_first());
    }
}

proof fn lemma_enc_offs_at(s: Seq<i16>, k: int)
    requires
        0 <= k < s.len(),
    ensures
        enc_offs(s).len() == 2 * s.len(),
        enc_offs(s).subrange(2 * k, 2 * k + 2) == enc_off(s[k]),
    decreases k,
{
    lemma_auto_spec_u16_to_from_le_bytes();
    lemma_enc_offs_len(s);
    if k == 0 {
        lemma_enc_offs_len(s.drop_first());
        assert(enc_offs(s) == enc_off(s[0]) + enc_offs(s.drop_first()));
        assert(enc_offs(s).subrange(0, 2) =~= enc_off(s[0]));
    } else {
        lemma_enc_offs_at(s.drop_first(), k - 1);
        lemma_enc_offs_len(s.drop_first());
        assert(enc_offs(s) == enc_off(s[0]) + enc_offs(s.drop_first()));
        assert(s.drop_first()[k - 1] == s[k]);
        assert(enc_offs(s).subrange(2 * k, 2 * k + 2) =~= enc_offs(s.drop_first()).subrange(
            2 * (k - 1),
            2 * (k - 1) + 2,
        )) by {
            assert forall|t: int| 0 <= t < 2 implies #[trigger] enc_offs(s).subrange(
                2 * k,
                2 * k + 2,
            )[t] == enc_offs(s.drop_first()).subrange(2 * (k - 1), 2 * (k - 1) + 2)[t] by {
                assert(enc_offs(s)[2 * k + t] == (enc_off(s[0]) + enc_offs(s.drop_first()))[2 * k
                    + t]);
                assert((enc_off(s[0]) + enc_offs(s.drop_first()))[2 * k + t] == enc_offs(
                    s.drop_first(),
                )[2 * k + t - 2]);
            }
        }
    }
}

proof fn lemma_enc_records_push(recs: Seq<RecordView>, r: RecordView, depth: int)
    ensures
        enc_records(recs.push(r), depth) == enc_records(recs, depth) + enc_record(r, depth),
    decreases recs.len(),
{
    if recs.len() == 0 {
        assert(recs.push(r)[0] == r);
        let d = recs.push(r).drop_first();
        assert(d =~= Seq::<RecordView>::empty());
        assert(enc_records(d, depth) == Seq::<u8>::empty());
        assert(enc_records(recs.push(r), depth) == enc_record(r, depth) + enc_records(d, depth));
        assert(enc_record(r, depth) + Seq::<u8>::empty() =~= enc_record(r, depth));
        assert(enc_records(recs, depth) == Seq::<u8>::empty());
        assert(enc_records(recs, depth) + enc_record(r, depth) =~= enc_record(r, depth));
    } else {
        assert(recs.push(r).drop_first() =~= recs.drop_first().push(r));
        lemma_enc_records_push(recs.drop_first(), r, depth);
        assert(recs.push(r)[0] == recs[0]);
        assert(enc_records(recs.push(r), depth) == enc_record(recs[0], depth) + (enc_records(
            recs.drop_first(),
            depth,
        ) + enc_record(r, depth)));
        assert(enc_record(recs[0], depth) + (enc_records(recs.drop_first(), depth) + enc_record(
            r,
            depth,
        )) =~= (enc_record(recs[0], depth) + enc_records(recs.drop_first(), depth)) + enc_record(
            r,
            depth,
        ));
    }
}

/// Record stream well-formedness for a given depth.
pub open spec fn records_fit(recs: Seq<RecordView>, depth: int) -> bool {
    forall|m: int| 0 <= m < recs.len() ==> 1 <= (#[trigger] recs[m]).offsets.len() <= depth
}

/// Every record of a stream of depth `depth` occupies exactly
/// `1 + 2 * depth + 8` bytes: one level-count byte, two bytes per offset
/// slot, eight anchor bytes.
pub proof fn lemma_enc_record_len(r: RecordView, depth: int)
    requires
        1 <= r.offsets.len() <= depth,
    ensures
        enc_record(r, depth).len() == 1 + 2 * depth + 8,
{
    lemma_enc_offs_len(r.offsets);
    lemma_auto_spec_u64_to_from_le_bytes();
}

proof fn lemma_enc_records_len(recs: Seq<RecordView>, depth: int)
    requires
        records_fit(recs, depth),
    ensures
        enc_records(recs, depth).len() == recs.len() * (2 * depth + 9),
    decreases recs.len(),
{
    if recs.len() == 0 {
    } else {
        lemma_enc_record_len(recs[0], depth);
        assert(records_fit(recs.drop_first(), depth)) by {
            assert forall|m: int| 0 <= m < recs.drop_first().len() implies 1 <= (
            #[trigger] recs.drop_first()[m]).offsets.len() <= depth by {
                assert(recs.drop_first()[m] == recs[m + 1]);
            }
        }
        lemma_enc_records_len(recs.drop_first(), depth);
        assert((recs.len() - 1) * (2 * depth + 9) + (2 * depth + 9) == recs.len() * (2 * depth + 9))
            by (nonlinear_arith);
    }
}

/// Encodes the record stream for a search of the given depth.
pub fn encode_records(depth: usize, recs: &Vec<PathRecord>) -> (r: Vec<u8>)
    requires
        1 <= depth <= 255,
        forall|m: int| 0 <= m < recs@.len() ==> 1 <= (#[trigger] recs@[m]).offsets@.len() <= depth,
    ensures
        r@ == enc_body(depth as int, records_view(recs@)),
{
    let width = 2 * depth + 9;
    let mut out = u64_to_le_bytes(width as u64);
    proof {
        assert(records_view(recs@).take(0) =~= Seq::empty());
        assert(out@ =~= enc_u64((2 * depth + 9) as u64) + enc_records(
            records_view(recs@).take(0),
            depth as int,
        ));
    }
    let mut i: usize = 0;
    while i < recs.len()
        invariant
            1 <= depth <= 255,
            i <= recs@.len(),
            forall|m: int|
                0 <= m < recs@.len() ==> 1 <= (#[trigger] recs@[m]).offsets@.len() <= depth,
            records_view(recs@).len() == recs@.len(),
            out@ == enc_u64((2 * depth + 9) as u64) + enc_records(
                records_view(recs@).take(i as int),
                depth as int,
            ),
        decreases recs@.len() - i,
    {
        let ghost i0 = i as int;
        let ghost out0 = out@;
        let ghost rv = recs@[i0]@;
        let olen = recs[i].offsets.len();
        out.push(olen as u8);
        let ghost out1 = out@;
        let mut k: usize = 0;
        while k < depth
            invariant
                1 <= depth <= 255,
                i0 == i as int,
                i < recs@.len(),
                rv == recs@[i0]@,
                olen == rv.offsets.len(),
                1 <= olen <= depth,
                k <= depth,
                out1 == out0 + seq![olen as u8],
                k <= olen ==> out@ == out1 + enc_offs(rv.offsets.take(k as int)),
                k > olen ==> out@ == out1 + enc_offs(rv.offsets) + zero_bytes(
                    2 * (k as int - olen as int),
                ),
            decreases depth - k,
        {
            let ghost k0 = k as int;
            let ghost outk = out@;
            if k < olen {
                let off = recs[i].offsets[k];
                let biased: u16 = ((off as i32) + 32768) as u16;
                let mut bb = u16_to_le_bytes(biased);
                out.append(&mut bb);
                k = k + 1;
                proof {
                    assert(k as int == k0 + 1);
                    assert(biased as int == off + 32768);
                    assert(out@ =~= outk + enc_off(off));
                    lemma_enc_offs_push(rv.offsets.take(k0), off);
                    assert(rv.offsets.take(k0 + 1) =~= rv.offsets.take(k0).push(off));
                    assert(out@ =~= out1 + enc_offs(rv.offsets.take(k0 + 1)));
                    if k0 + 1 > olen {
                        assert(false);
                    }
                }
            } else {
                out.push(0);
                out.push(0);
                k = k + 1;
                proof {
                    assert(k as int == k0 + 1);
                    if k0 == olen {
                        assert(rv.offsets.take(k0) =~= rv.offsets);
                        assert(outk == out1 + enc_offs(rv.offsets));
                    }
                    assert(out@ =~= outk + zero_bytes(2));
                    if k0 == olen {
                        assert(out@ =~= out1 + enc_offs(rv.offsets) + zero_bytes(2));
                    } else {
                        assert(zero_bytes(2 * (k0 - olen as int)) + zero_bytes(2) =~= zero_bytes(
                            2 * (k0 + 1 - olen as int),
                        ));
                        assert(out@ =~= out1 + enc_offs(rv.offsets) + zero_bytes(
                            2 * (k0 + 1 - olen as int),
                        ));
                    }
                }
            }
        }
        proof {
            if depth == olen {
                assert(rv.offsets.take(olen as int) =~= rv.offsets);
                assert(zero_bytes(0) =~= Seq::<u8>::empty());
                assert(out@ + zero_bytes(0) =~= out@);
                assert(out@ == out1 + enc_offs(rv.offsets));
                assert(out@ + zero_bytes(2 * (depth as int - olen as int)) =~= out@);
            }
        }
        let mut ab = u64_to_le_bytes(recs[i].anchor);
        out.append(&mut ab);
        i = i + 1;
        proof {
            assert(i as int == i0 + 1);
            let rvs = records_view(recs@);
            assert(rvs[i0] == rv);
            assert(out@ =~= out0 + enc_record(rv, depth as int)) by {
                assert(enc_record(rv, depth as int) == seq![rv.offsets.len() as u8] + enc_offs(
                    rv.offsets,
                ) + zero_bytes(2 * (depth as int - rv.offsets.len())) + enc_u64(rv.anchor));
            }
            lemma_enc_records_push(rvs.take(i0), rv, depth as int);
            assert(rvs.take(i0 + 1) =~= rvs.take(i0).push(rv));
            assert(out@ =~= enc_u64((2 * depth + 9) as u64) + enc_records(
                rvs.take(i0 + 1),
                depth as int,
            ));
        }
    }
    proof {
        assert(records_view(recs@).take(recs@.len() as int) =~= records_view(recs@));
    }
    out
}

/// Decodes a record stream occupying `bytes` from `pos` to the end,
/// recovering the depth from the stored width. Succeeds exactly when the
/// stream is structurally valid, including the length being an exact
/// multiple of the stored width.
pub fn decode_records(bytes: &Vec<u8>, pos: usize) -> (r: Result<(usize, Vec<PathRecord>), Error>)
    requires
        pos <= bytes@.len(),
    ensures
        match r {
            Ok((depth, recs)) => {
                &&& dec_body(bytes@, pos as int) == Option::Some(
                    (depth as int, records_view(recs@)),
                )
                &&& 1 <= depth <= 255
                &&& records_fit(records_view(recs@), depth as int)
            },
            Err(e) => {
                &&& dec_body(bytes@, pos as int) is None
                &&& (e == Error(ErrorKind::Truncated) || e == Error(ErrorKind::WidthMismatch) || e
                    == Error(ErrorKind::BadRecord))
            },
        },
{
    let ghost posg = pos as int;
    let r0 = read_u64(bytes, pos);
    if r0.is_none() {
        return Err(Error(ErrorKind::Truncated));
    }
    let (w, p) = r0.unwrap();
    if w < 11 || w > 519 || w % 2 == 0 {
        return Err(Error(ErrorKind::WidthMismatch));
    }
    let width = w as usize;
    let depth = (width - 9) / 2;
    let rem = bytes.len() - p;
    if rem % width != 0 {
        return Err(Error(ErrorKind::WidthMismatch));
    }
    let count = rem / width;
    proof {
        assert(count * width == rem) by {
            vstd::arithmetic::div_mod::lemma_fundamental_div_mod(rem as int, width as int);
        }
        assert(width as int == 2 * (depth as int) + 9);
    }
    let mut out: Vec<PathRecord> = Vec::new();
    let mut posc: usize = p;
    let mut i: usize = 0;
    proof {
        assert(records_view(out@) =~= Seq::empty());
    }
    while i < count
        invariant
            1 <= depth <= 255,
            width == 2 * depth + 9,
            posg == pos as int,
            i <= count,
            bytes@.len() <= usize::MAX,
            posc <= bytes@.len(),
            (count - i) * width == bytes@.len() - posc,
            out@.len() == i,
            records_fit(records_view(out@), depth as int),
            records_view(out@).len() == i,
            dec_body(bytes@, posg) == (match dec_records(
                bytes@,
                posc as int,
                depth as int,
                count as int - i as int,
            ) {
                Option::None => Option::<(int, Seq<RecordView>)>::None,
                Option::Some(tail) => Option::Some(
                    (depth as int, records_view(out@) + tail),
                ),
            }),
        decreases count - i,
    {
        let ghost i0 = i as int;
        let ghost pos0 = posc as int;
        let ghost out0 = out@;
        proof {
            assert((count - i) * width >= 1 * width) by (nonlinear_arith)
                requires
                    count - i >= 1,
                    width >= 1,
            ;
            assert(posc + width <= bytes@.len());
        }
        let levels = bytes[posc];
        if levels == 0 || levels as usize > depth {
            proof {
                assert(dec_record(bytes@, pos0, depth as int) is None);
                assert(dec_records(bytes@, pos0, depth as int, count as int - i as int) is None);
                assert(dec_body(bytes@, pos as int) is None);
            }
            return Err(Error(ErrorKind::BadRecord));
        }
        let nlv = levels as usize;
        let mut offs: Vec<i16> = Vec::new();
        let mut k: usize = 0;
        while k < nlv
            invariant
                1 <= depth <= 255,
                width == 2 * depth + 9,
                1 <= nlv <= depth,
                pos0 == posc as int,
                bytes@.len() <= usize::MAX,
                posc + width <= bytes@.len(),
                k <= nlv,
                offs@.len() == k,
                forall|t: int|
                    0 <= t < k ==> offs@[t] == dec_offs(bytes@, pos0 + 1, nlv as int)[t],
            decreases nlv - k,
        {
            let s = slice_subrange(bytes.as_slice(), posc + 1 + 2 * k, posc + 1 + 2 * k + 2);
            let wv = u16_from_le_bytes(s);
            let off: i16 = ((wv as i32) - 32768) as i16;
            proof {
                assert(off as int == wv as int - 32768);
            }
            offs.push(off);
            k = k + 1;
        }
        proof {
            assert(offs@ =~= dec_offs(bytes@, pos0 + 1, nlv as int));
        }
        let ra = read_u64(bytes, posc + 1 + 2 * depth);
        proof {
            assert(posc + 1 + 2 * depth + 8 == posc + width);
            assert(ra is Some);
        }
        let (anchor, _pend) = ra.unwrap();
        let rec = PathRecord { offsets: offs, anchor };
        proof {
            assert(dec_record(bytes@, pos0, depth as int) == Option::Some(
                (rec@, pos0 + width as int),
            ));
        }
        out.push(rec);
        posc = posc + width;
        i = i + 1;
        proof {
            assert(i as int == i0 + 1);
            assert(posc as int == pos0 + width);
            assert((count - i) * width == (count - i0) * width - width) by (nonlinear_arith)
                requires
                    i as int == i0 + 1,
            ;
            assert(records_view(out@) =~= records_view(out0).push(rec@));
            assert forall|m: int|
                0 <= m < records_view(out@).len() implies 1 <= (
            #[trigger] records_view(out@)[m]).offsets.len() <= depth as int by {
                if m < records_view(out0).len() {
                    assert(records_view(out@)[m] == records_view(out0)[m]);
                }
            }
            let kk = count as int - i0;
            assert(dec_records(bytes@, pos0, depth as int, kk) == (match dec_record(
                bytes@,
                pos0,
                depth as int,
            ) {
                Option::None => Option::<Seq<RecordView>>::None,
                Option::Some((rr, pp1)) => match dec_records(bytes@, pp1, depth as int, kk - 1) {
                    Option::None => Option::<Seq<RecordView>>::None,
                    Option::Some(tail) => Option::Some(seq![rr] + tail),
                },
            }));
            match dec_records(bytes@, posc as int, depth as int, kk - 1) {
                Option::None => {
                    assert(dec_body(bytes@, posg) is None);
                },
                Option::Some(tail) => {
                    assert(dec_records(bytes@, pos0, depth as int, kk) == Option::Some(
                        seq![rec@] + tail,
                    ));
                    assert(records_view(out0) + (seq![rec@] + tail) =~= records_view(out@) + tail);
                },
            }
        }
    }
    proof {
        assert((count - i) * width == 0) by (nonlinear_arith)
            requires
                i == count,
        ;
        assert(dec_records(bytes@, posc as int, depth as int, 0) == Option::Some(
            Seq::<RecordView>::empty(),
        ));
        assert(records_view(out@) + Seq::<RecordView>::empty() =~= records_view(out@));
    }
    Ok((depth, out))
}

/// Decoding inverts encoding for one record.
proof fn lemma_record_round_trip(b: Seq<u8>, pos: int, r: RecordView, depth: int)
    requires
        1 <= depth <= 255,
        1 <= r.offsets.len() <= depth,
        0 <= pos,
        pos + 2 * depth + 9 <= b.len(),
        b.subrange(pos, pos + 2 * depth + 9) == enc_record(r, depth),
    ensures
        dec_record(b, pos, depth) == Option::Some((r, pos + 2 * depth + 9)),
{
    lemma_auto_spec_u16_to_from_le_bytes();
    lemma_auto_spec_u64_to_from_le_bytes();
    let er = enc_record(r, depth);
    let olen = r.offsets.len() as int;
    lemma_enc_offs_len(r.offsets);
    assert(er.len() == 2 * depth + 9);
    assert forall|t: int| 0 <= t < er.len() implies #[trigger] b[pos + t] == er[t] by {
        assert(b.subrange(pos, pos + 2 * depth + 9)[t] == b[pos + t]);
    }
    assert(er[0] == r.offsets.len() as u8);
    assert(b[pos] == r.offsets.len() as u8);
    assert(b[pos] as int == olen);
    assert forall|kq: int| 0 <= kq < olen implies dec_offs(b, pos + 1, olen)[kq] == r.offsets[kq]
        by {
        lemma_enc_offs_at(r.offsets, kq);
        assert forall|t: int| 0 <= t < 2 implies #[trigger] b.subrange(
            pos + 1 + 2 * kq,
            pos + 1 + 2 * kq + 2,
        )[t] == enc_off(r.offsets[kq])[t] by {
            assert(b[pos + (1 + 2 * kq + t)] == er[1 + 2 * kq + t]);
            assert(er[1 + 2 * kq + t] == enc_offs(r.offsets)[2 * kq + t]);
            assert(enc_offs(r.offsets)[2 * kq + t] == enc_offs(r.offsets).subrange(
                2 * kq,
                2 * kq + 2,
            )[t]);
        }
        assert(b.subrange(pos + 1 + 2 * kq, pos + 1 + 2 * kq + 2) =~= enc_off(r.offsets[kq]));
        assert(spec_u16_from_le_bytes(enc_off(r.offsets[kq])) == (r.offsets[kq] + 32768) as u16);
    }
    assert(dec_offs(b, pos + 1, olen) =~= r.offsets);
    assert forall|t: int| 0 <= t < 8 implies #[trigger] b.subrange(
        pos + 1 + 2 * depth,
        pos + 1 + 2 * depth + 8,
    )[t] == enc_u64(r.anchor)[t] by {
        assert(b[pos + (1 + 2 * depth + t)] == er[1 + 2 * depth + t]);
        assert(er[1 + 2 * depth + t] == enc_u64(r.anchor)[t]);
    }
    assert(b.subrange(pos + 1 + 2 * depth, pos + 1 + 2 * depth + 8) =~= enc_u64(r.anchor));
    assert(RecordView {
        offsets: dec_offs(b, pos + 1, olen),
        anchor: spec_u64_from_le_bytes(b.subrange(pos + 1 + 2 * depth, pos + 1 + 2 * depth + 8)),
    } == r);
}

/// Decoding inverts encoding for a run of records.
proof fn lemma_records_seq_round_trip(b: Seq<u8>, pos: int, recs: Seq<RecordView>, depth: int)
    requires
        1 <= depth <= 255,
        records_fit(recs, depth),
        0 <= pos,
        pos + enc_records(recs, depth).len() <= b.len(),
        b.subrange(pos, pos + enc_records(recs, depth).len()) == enc_records(recs, depth),
    ensures
        dec_records(b, pos, depth, recs.len() as int) == Option::Some(recs),
    decreases recs.len(),
{
    if recs.len() == 0 {
        assert(recs =~= Seq::<RecordView>::empty());
    } else {
        let r0 = recs[0];
        let e0 = enc_record(r0, depth);
        let tail = recs.drop_first();
        let etail = enc_records(tail, depth);
        assert(enc_records(recs, depth) == e0 + etail);
        lemma_enc_record_len(r0, depth);
        let etotal = enc_records(recs, depth).len() as int;
        assert forall|t: int| 0 <= t < etotal implies #[trigger] b[pos + t] == enc_records(
            recs,
            depth,
        )[t] by {
            assert(b.subrange(pos, pos + etotal)[t] == b[pos + t]);
        }
        assert(b.subrange(pos, pos + e0.len() as int) =~= e0) by {
            assert forall|t: int| 0 <= t < e0.len() implies #[trigger] b.subrange(
                pos,
                pos + e0.len() as int,
            )[t] == e0[t] by {
                assert(b[pos + t] == enc_records(recs, depth)[t]);
                assert((e0 + etail)[t] == e0[t]);
            }
        }
        lemma_record_round_trip(b, pos, r0, depth);
        assert(records_fit(tail, depth)) by {
            assert forall|m: int| 0 <= m < tail.len() implies 1 <= (
            #[trigger] tail[m]).offsets.len() <= depth by {
                assert(tail[m] == recs[m + 1]);
            }
        }
        assert(b.subrange(pos + e0.len(), pos + e0.len() + etail.len() as int) =~= etail) by {
            assert forall|t: int| 0 <= t < etail.len() implies #[trigger] b.subrange(
                pos + e0.len(),
                pos + e0.len() + etail.len() as int,
            )[t] == etail[t] by {
                assert(b[pos + (e0.len() + t)] == enc_records(recs, depth)[e0.len() + t]);
                assert((e0 + etail)[e0.len() + t] == etail[t]);
            }
        }
        lemma_records_seq_round_trip(b, pos + e0.len() as int, tail, depth);
        assert(seq![r0] + tail =~= recs);
    }
}

/// Decoding inverts encoding for a whole record stream that fills the
/// bytes from `pos` to their end.
pub proof fn lemma_body_round_trip(b: Seq<u8>, pos: int, depth: int, recs: Seq<RecordView>)
    requires
        1 <= depth <= 255,
        records_fit(recs, depth),
        0 <= pos,
        b.len() == pos + enc_body(depth, recs).len(),
        b.subrange(pos, b.len() as int) == enc_body(depth, recs),
    ensures
        dec_body(b, pos) == Option::Some((depth, recs)),
{
    lemma_auto_spec_u64_to_from_le_bytes();
    let w = (2 * depth + 9) as u64;
    let eb = enc_body(depth, recs);
    let erecs = enc_records(recs, depth);
    assert(eb == enc_u64(w) + erecs);
    assert forall|t: int| 0 <= t < eb.len() implies #[trigger] b[pos + t] == eb[t] by {
        assert(b.subrange(pos, b.len() as int)[t] == b[pos + t]);
    }
    assert(b.subrange(pos, pos + 8) =~= enc_u64(w)) by {
        assert forall|t: int| 0 <= t < 8 implies #[trigger] b.subrange(pos, pos + 8)[t] == enc_u64(
            w,
        )[t] by {
            assert(b[pos + t] == eb[t]);
            assert((enc_u64(w) + erecs)[t] == enc_u64(w)[t]);
        }
    }
    assert(dec_u64(b, pos) == Option::Some((w, pos + 8)));
    assert(11 <= w <= 519 && w % 2 == 1);
    assert((w as int - 9) / 2 == depth);
    lemma_enc_records_len(recs, depth);
    let rem = b.len() - (pos + 8);
    assert(rem == recs.len() * (w as int));
    assert(rem % (w as int) == 0 && rem / (w as int) == recs.len()) by {
        vstd::arithmetic::div_mod::lemma_mod_multiples_basic(recs.len() as int, w as int);
        vstd::arithmetic::div_mod::lemma_div_multiples_vanish(recs.len() as int, w as int);
        assert(recs.len() * (w as int) == (w as int) * (recs.len() as int)) by (nonlinear_arith);
    }
    assert(b.subrange(pos + 8, pos + 8 + erecs.len() as int) =~= erecs) by {
        assert forall|t: int| 0 <= t < erecs.len() implies #[trigger] b.subrange(
            pos + 8,
            pos + 8 + erecs.len() as int,
        )[t] == erecs[t] by {
            assert(b[pos + (8 + t)] == eb[8 + t]);
            assert((enc_u64(w) + erecs)[8 + t] == erecs[t]);
        }
    }
    lemma_records_seq_round_trip(b, pos + 8, recs, depth);
}

impl crate::search::PathFindEngine {
    /// Runs the search and serializes its stream of records: the fixed
    /// record width first, then one fixed-width record per discovered
    /// chain. Rejects exactly the configurations the search rejects.
    pub fn find_pointer_path(self) -> (r: Result<Vec<u8>, Error>)
        requires
            self.engine.wf(),
        ensures
            r is Ok <==> (1 <= self.depth && self.depth <= 255 && self.offset.0 <= 32768
                && self.offset.1 <= 32767),
            self.depth == 0 ==> r == Err::<Vec<u8>, Error>(Error(ErrorKind::ZeroDepth)),
            self.depth > 255 ==> r == Err::<Vec<u8>, Error>(Error(ErrorKind::DepthTooLarge)),
            1 <= self.depth <= 255 && (self.offset.0 > 32768 || self.offset.1 > 32767) ==> r
                == Err::<Vec<u8>, Error>(Error(ErrorKind::WindowTooWide)),
            match r {
                Ok(bytes) => exists|recs: Seq<PathRecord>|
                    {
                        &&& #[trigger] crate::search::records_sound(
                            self.engine@,
                            self.startpoints@,
                            self.offset.0 as u64,
                            self.offset.1 as u64,
                            self.target,
                            self.depth as int,
                            recs,
                        )
                        &&& crate::search::records_complete(
                            self.engine@,
                            self.startpoints@,
                            self.offset.0 as u64,
                            self.offset.1 as u64,
                            self.target,
                            self.depth as int,
                            recs,
                        )
                        &&& crate::search::records_distinct(recs)
                        &&& bytes@ == enc_body(self.depth as int, records_view(recs))
                    },
                Err(_) => true,
            },
    {
        let recs = match self.search() {
            Ok(r) => r,
            Err(e) => {
                return Err(e);
            },
        };
        proof {
            assert forall|m: int| 0 <= m < recs@.len() implies 1 <= (
            #[trigger] recs@[m]).offsets@.len() <= self.depth by {
                assert(crate::search::record_matches(
                    self.engine@,
                    self.startpoints@,
                    self.offset.0 as u64,
                    self.offset.1 as u64,
                    self.target,
                    recs@[m].offsets@,
                    recs@[m].anchor,
                ));
            }
        }
        let out = encode_records(self.depth, &recs);
        proof {
            assert(crate::search::records_sound(
                self.engine@,
                self.startpoints@,
                self.offset.0 as u64,
                self.offset.1 as u64,
                self.target,
                self.depth as int,
                recs@,
            ));
        }
        Ok(out)
    }
}

/// One encoded cache pair: address, then value.
pub open spec fn enc_pair(p: (u64, u64)) -> Seq<u8> {
    enc_u64(p.0) + enc_u64(p.1)
}

/// The encoded cache pairs, in order.
pub open spec fn enc_pairs(ps: Seq<(u64, u64)>) -> Seq<u8>
    decreases ps.len(),
{
    if ps.len() == 0 {
        Seq::empty()
    } else {
        enc_pair(ps[0]) + enc_pairs(ps.drop_first())
    }
}

/// The persisted cache artifact: the catalog, the pair count, the pairs.
pub open spec fn enc_cache(rs: Seq<RegionView>, ps: Seq<(u64, u64)>) -> Seq<u8> {
    enc_catalog(rs) + enc_u64(ps.len() as u64) + enc_pairs(ps)
}

/// Reading `n` pairs of 64-bit quantities from `pos`.
pub open spec fn dec_pairs(b: Seq<u8>, pos: int, n: int) -> Option<Seq<(u64, u64)>> {
    if 0 <= pos && pos + 16 * n <= b.len() && 0 <= n {
        Option::Some(
            Seq::new(
                n as nat,
                |k: int|
                    (
                        spec_u64_from_le_bytes(b.subrange(pos + 16 * k, pos + 16 * k + 8)),
                        spec_u64_from_le_bytes(b.subrange(pos + 16 * k + 8, pos + 16 * k + 16)),
                    ),
            ),
        )
    } else {
        Option::None
    }
}

/// Reading a persisted cache: the catalog, then a count, then exactly
/// that many pairs filling the rest of the bytes.
pub open spec fn dec_cache(b: Seq<u8>) -> Option<(Seq<RegionView>, Seq<(u64, u64)>)> {
    match dec_catalog(b) {
        Option::None => Option::None,
        Option::Some((rs, p)) => match dec_u64(b, p) {
            Option::None => Option::None,
            Option::Some((n, p2)) => if p2 + 16 * (n as int) == b.len() {
                match dec_pairs(b, p2, n as int) {
                    Option::None => Option::None,
                    Option::Some(ps) => Option::Some((rs, ps)),
                }
            } else {
                Option::None
            },
        },
    }
}

proof fn lemma_enc_pairs_push(ps: Seq<(u64, u64)>, p: (u64, u64))
    ensures
        enc_pairs(ps.push(p)) == enc_pairs(ps) + enc_pair(p),
    decreases ps.len(),
{
    if ps.len() == 0 {
        assert(ps.push(p)[0] == p);
        let d = ps.push(p).drop_first();
        assert(d =~= Seq::<(u64, u64)>::empty());
        assert(enc_pairs(d) == Seq::<u8>::empty());
        assert(enc_pairs(ps.push(p)) == enc_pair(p) + enc_pairs(d));
        assert(enc_pair(p) + Seq::<u8>::empty() =~= enc_pair(p));
        assert(enc_pairs(ps) == Seq::<u8>::empty());
        assert(enc_pairs(ps) + enc_pair(p) =~= enc_pair(p));
    } else {
        assert(ps.push(p).drop_first() =~= ps.drop_first().push(p));
        lemma_enc_pairs_push(ps.drop_first(), p);
        assert(ps.push(p)[0] == ps[0]);
        assert(enc_pairs(ps.push(p)) == enc_pair(ps[0]) + (enc_pairs(ps.drop_first()) + enc_pair(
            p,
        )));
        assert(enc_pair(ps[0]) + (enc_pairs(ps.drop_first()) + enc_pair(p)) =~= (enc_pair(ps[0])
            + enc_pairs(ps.drop_first())) + enc_pair(p));
    }
}

proof fn lemma_enc_pairs_len(ps: Seq<(u64, u64)>)
    ensures
        enc_pairs(ps).len() == 16 * ps.len(),
    decreases ps.len(),
{
    lemma_auto_spec_u64_to_from_le_bytes();
    if ps.len() > 0 {
        lemma_enc_pairs_len(ps.drop_first());
    }
}

proof fn lemma_enc_pairs_at(ps: Seq<(u64, u64)>, k: int)
    requires
        0 <= k < ps.len(),
    ensures
        enc_pairs(ps).len() == 16 * ps.len(),
        enc_pairs(ps).subrange(16 * k, 16 * k + 16) == enc_pair(ps[k]),
    decreases k,
{
    lemma_auto_spec_u64_to_from_le_bytes();
    lemma_enc_pairs_len(ps);
    if k == 0 {
        lemma_enc_pairs_len(ps.drop_first());
        assert(enc_pairs(ps) == enc_pair(ps[0]) + enc_pairs(ps.drop_first()));
        assert(enc_pairs(ps).subrange(0, 16) =~= enc_pair(ps[0]));
    } else {
        lemma_enc_pairs_at(ps.drop_first(), k - 1);
        lemma_enc_pairs_len(ps.drop_first());
        assert(enc_pairs(ps) == enc_pair(ps[0]) + enc_pairs(ps.drop_first()));
        assert(ps.drop_first()[k - 1] == ps[k]);
        assert(enc_pairs(ps).subrange(16 * k, 16 * k + 16) =~= enc_pairs(ps.drop_first()).subrange(
            16 * (k - 1),
            16 * (k - 1) + 16,
        )) by {
            assert forall|t: int| 0 <= t < 16 implies #[trigger] enc_pairs(ps).subrange(
                16 * k,
                16 * k + 16,
            )[t] == enc_pairs(ps.drop_first()).subrange(16 * (k - 1), 16 * (k - 1) + 16)[t] by {
                assert(enc_pairs(ps)[16 * k + t] == (enc_pair(ps[0]) + enc_pairs(
                    ps.drop_first(),
                ))[16 * k + t]);
                assert((enc_pair(ps[0]) + enc_pairs(ps.drop_first()))[16 * k + t] == enc_pairs(
                    ps.drop_first(),
                )[16 * k + t - 16]);
            }
        }
    }
}

/// Encodes the cache artifact: the catalog of regions and every
/// `(address, value)` pair, in cache order.
pub fn encode_cache(regions: &Vec<MemoryRegion>, cache: &AddressValueCache) -> (r: Vec<u8>)
    requires
        regions_wf(regions@),
    ensures
        r@ == enc_cache(catalog_view(regions@), cache@),
{
    let mut out = encode_regions(regions);
    let mut nb = u64_to_le_bytes(cache.entries.len() as u64);
    out.append(&mut nb);
    proof {
        assert(cache@.take(0) =~= Seq::empty());
        assert(out@ =~= enc_catalog(catalog_view(regions@)) + enc_u64(cache@.len() as u64)
            + enc_pairs(cache@.take(0)));
    }
    let mut i: usize = 0;
    while i < cache.entries.len()
        invariant
            i <= cache@.len(),
            out@ == enc_catalog(catalog_view(regions@)) + enc_u64(cache@.len() as u64) + enc_pairs(
                cache@.take(i as int),
            ),
            cache@ == cache.entries@,
        decreases cache@.len() - i,
    {
        let ghost i0 = i as int;
        let ghost out0 = out@;
        let p = cache.entries[i];
        let mut b1 = u64_to_le_bytes(p.0);
        out.append(&mut b1);
        let mut b2 = u64_to_le_bytes(p.1);
        out.append(&mut b2);
        i = i + 1;
        proof {
            assert(i as int == i0 + 1);
            assert(out@ =~= out0 + enc_pair(cache@[i0]));
            lemma_enc_pairs_push(cache@.take(i0), cache@[i0]);
            assert(cache@.take(i0 + 1) =~= cache@.take(i0).push(cache@[i0]));
            assert(out@ =~= enc_catalog(catalog_view(regions@)) + enc_u64(cache@.len() as u64)
                + enc_pairs(cache@.take(i0 + 1)));
        }
    }
    proof {
        assert(cache@.take(cache@.len() as int) =~= cache@);
    }
    out
}

/// Decodes a persisted cache artifact back into its catalog and its
/// cache, checking the cache's sortedness invariant.
pub fn decode_cache(bytes: &Vec<u8>) -> (r: Result<(Vec<MemoryRegion>, AddressValueCache), Error>)
    ensures
        match r {
            Ok((regions, cache)) => {
                &&& dec_cache(bytes@) == Option::Some((catalog_view(regions@), cache@))
                &&& cache.wf()
                &&& regions_wf(regions@)
            },
            Err(e) => match dec_cache(bytes@) {
                Option::None => e == Error(ErrorKind::Truncated) || e == Error(
                    ErrorKind::BadRegion,
                ),
                Option::Some((rs, ps)) => e == Error(ErrorKind::UnsortedCache)
                    && !crate::sorted::key_strict_sorted(ps),
            },
        },
{
    let dr = decode_regions(bytes);
    let (regions, used) = match dr {
        Ok(x) => x,
        Err(e) => {
            return Err(e);
        },
    };
    let rn = read_u64(bytes, used);
    if rn.is_none() {
        return Err(Error(ErrorKind::Truncated));
    }
    let (n, p2) = rn.unwrap();
    let rem = bytes.len() - p2;
    if rem % 16 != 0 || n != (rem / 16) as u64 {
        proof {
            assert(p2 + 16 * (n as int) != bytes@.len()) by {
                if p2 + 16 * (n as int) == bytes@.len() {
                    assert(16 * (n as int) == rem);
                    vstd::arithmetic::div_mod::lemma_mod_multiples_basic(n as int, 16);
                    vstd::arithmetic::div_mod::lemma_div_multiples_vanish(n as int, 16);
                    assert((n as int) * 16 == 16 * (n as int)) by (nonlinear_arith);
                }
            }
        }
        return Err(Error(ErrorKind::Truncated));
    }
    let count = rem / 16;
    proof {
        assert(16 * (n as int) == rem) by {
            vstd::arithmetic::div_mod::lemma_fundamental_div_mod(rem as int, 16);
        }
        assert(p2 + 16 * (n as int) == bytes@.len());
    }
    let mut pairs: Vec<(u64, u64)> = Vec::new();
    let mut i: usize = 0;
    let ghost pseq = dec_pairs(bytes@, p2 as int, n as int).unwrap();
    while i < count
        invariant
            i <= count,
            count == n,
            p2 + 16 * (n as int) == bytes@.len(),
            p2 <= bytes@.len(),
            bytes@.len() <= usize::MAX,
            pairs@.len() == i,
            dec_pairs(bytes@, p2 as int, n as int) == Option::Some(pseq),
            pseq.len() == n,
            forall|t: int| 0 <= t < i ==> pairs@[t] == pseq[t],
        decreases count - i,
    {
        proof {
            assert(16 * (i as int) + 16 <= 16 * (n as int)) by (nonlinear_arith)
                requires
                    i as int + 1 <= n as int,
            ;
        }
        let base = p2 + 16 * i;
        let r1 = read_u64(bytes, base);
        let r2 = read_u64(bytes, base + 8);
        proof {
            assert(base + 16 <= bytes@.len());
            assert(r1 is Some && r2 is Some);
        }
        let (a, _) = r1.unwrap();
        let (v, _) = r2.unwrap();
        pairs.push((a, v));
        i = i + 1;
        proof {
            assert(pseq[i as int - 1] == (a, v)) by {
                assert(bytes@.subrange(
                    p2 as int + 16 * (i as int - 1),
                    p2 as int + 16 * (i as int - 1) + 8,
                ) == bytes@.subrange(base as int, base as int + 8));
                assert(bytes@.subrange(
                    p2 as int + 16 * (i as int - 1) + 8,
                    p2 as int + 16 * (i as int - 1) + 16,
                ) == bytes@.subrange(base as int + 8, base as int + 16));
            }
        }
    }
    proof {
        assert(pairs@ =~= pseq);
    }
    match AddressValueCache::from_entries(pairs) {
        Ok(cache) => {
            proof {
                assert(dec_cache(bytes@) == Option::Some((catalog_view(regions@), cache@)));
            }
            Ok((regions, cache))
        },
        Err(e) => Err(e),
    }
}

/// Decoding inverts encoding for the persisted cache artifact.
pub proof fn lemma_cache_round_trip(rs: Seq<RegionView>, ps: Seq<(u64, u64)>)
    requires
        forall|i: int|
            0 <= i < rs.len() ==> (#[trigger] rs[i]).wf() && rs[i].path.len() <= u64::MAX,
        rs.len() <= u64::MAX,
        ps.len() <= u64::MAX,
    ensures
        dec_cache(enc_cache(rs, ps)) == Option::Some((rs, ps)),
{
    lemma_auto_spec_u64_to_from_le_bytes();
    let b = enc_cache(rs, ps);
    let ec = enc_catalog(rs);
    let en = enc_u64(ps.len() as u64);
    let ep = enc_pairs(ps);
    lemma_enc_pairs_len(ps);
    assert(b == ec + en + ep);
    assert(b.len() == ec.len() + 8 + 16 * ps.len());
    assert forall|t: int| 0 <= t < ec.len() implies #[trigger] b[t] == ec[t] by {
        assert(((ec + en) + ep)[t] == (ec + en)[t]);
        assert((ec + en)[t] == ec[t]);
    }
    assert(b.subrange(0, ec.len() as int) =~= ec);
    lemma_catalog_round_trip(b, rs);
    assert(dec_catalog(b) == Option::Some((rs, ec.len() as int)));
    let p = ec.len() as int;
    assert forall|t: int| 0 <= t < 8 implies #[trigger] b[p + t] == en[t] by {
        assert(((ec + en) + ep)[p + t] == (ec + en)[p + t]);
        assert((ec + en)[p + t] == en[t]);
    }
    assert(b.subrange(p, p + 8) =~= en);
    assert(dec_u64(b, p) == Option::Some((ps.len() as u64, p + 8)));
    let p2 = p + 8;
    assert(p2 + 16 * ps.len() == b.len());
    assert forall|t: int| 0 <= t < ep.len() implies #[trigger] b[p2 + t] == ep[t] by {
        assert(((ec + en) + ep)[p2 + t] == ep[t]);
    }
    let got = dec_pairs(b, p2, ps.len() as int).unwrap();
    assert forall|k: int| 0 <= k < ps.len() implies got[k] == ps[k] by {
        lemma_enc_pairs_at(ps, k);
        assert(b.subrange(p2 + 16 * k, p2 + 16 * k + 8) =~= enc_u64(ps[k].0)) by {
            assert forall|t: int| 0 <= t < 8 implies #[trigger] b.subrange(
                p2 + 16 * k,
                p2 + 16 * k + 8,
            )[t] == enc_u64(ps[k].0)[t] by {
                assert(b[p2 + (16 * k + t)] == ep[16 * k + t]);
                assert(ep[16 * k + t] == ep.subrange(16 * k, 16 * k + 16)[t]);
                assert(enc_pair(ps[k])[t] == enc_u64(ps[k].0)[t]);
            }
        }
        assert(b.subrange(p2 + 16 * k + 8, p2 + 16 * k + 16) =~= enc_u64(ps[k].1)) by {
            assert forall|t: int| 0 <= t < 8 implies #[trigger] b.subrange(
                p2 + 16 * k + 8,
                p2 + 16 * k + 16,
            )[t] == enc_u64(ps[k].1)[t] by {
                assert(b[p2 + (16 * k + 8 + t)] == ep[16 * k + 8 + t]);
                assert(ep[16 * k + 8 + t] == ep.subrange(16 * k, 16 * k + 16)[8 + t]);
                assert(enc_pair(ps[k])[8 + t] == enc_u64(ps[k].1)[t]);
            }
        }
    }
    assert(got =~= ps);
}

} // verus!
