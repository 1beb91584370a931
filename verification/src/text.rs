use vstd::prelude::*;

use crate::codec::{dec_body, dec_catalog, decode_records, decode_regions, RecordView};
use crate::error::{Error, ErrorKind};
use crate::region::{MemoryRegion, RegionView};

verus! {

/// The ASCII byte of one hexadecimal digit, lower case.
pub open spec fn hex_digit_byte(d: int) -> u8 {
    if d < 10 {
        (48 + d) as u8
    } else {
        (87 + d) as u8
    }
}

/// `n` written in hexadecimal, no leading zeros, `0` for zero.
pub open spec fn hex_text(n: int) -> Seq<u8>
    decreases n,
{
    if n < 16 {
        seq![hex_digit_byte(n)]
    } else {
        hex_text(n / 16).push(hex_digit_byte(n % 16))
    }
}

/// `n` written in decimal, no leading zeros, `0` for zero.
pub open spec fn dec_text(n: int) -> Seq<u8>
    decreases n,
{
    if n < 10 {
        seq![(48 + n) as u8]
    } else {
        dec_text(n / 10).push((48 + n % 10) as u8)
    }
}

/// `n` written in decimal with a `-` sign when negative.
pub open spec fn signed_text(n: int) -> Seq<u8> {
    if n < 0 {
        seq![45u8] + dec_text(-n)
    } else {
        dec_text(n)
    }
}

/// The rendered offsets of one chain, each preceded by one space.
pub open spec fn offsets_text(offs: Seq<i16>) -> Seq<u8>
    decreases offs.len(),
{
    if offs.len() == 0 {
        Seq::empty()
    } else {
        seq![32u8] + signed_text(offs[0] as int) + offsets_text(offs.drop_first())
    }
}

/// One rendered chain line: the anchor's backing path, `+0x`, the
/// anchor's region-relative offset in hexadecimal, then the per-level
/// offsets.
pub open spec fn record_line(path: Seq<u8>, base: int, offs: Seq<i16>) -> Seq<u8> {
    path + seq![43u8, 48u8, 120u8] + hex_text(base) + offsets_text(offs)
}

/// `i` is the first region of `rs` containing `a`.
pub open spec fn first_owner(rs: Seq<RegionView>, i: int, a: u64) -> bool {
    &&& 0 <= i < rs.len()
    &&& rs[i].start <= a <= rs[i].end
    &&& forall|j: int| 0 <= j < i ==> !(rs[j].start <= a <= (#[trigger] rs[j]).end)
}

/// Some region of `rs` contains `a`.
pub open spec fn owner_exists(rs: Seq<RegionView>, a: u64) -> bool {
    exists|i: int| 0 <= i < rs.len() && (#[trigger] rs[i]).start <= a <= rs[i].end
}

/// `line` renders `rec` against the catalog `rs`: the anchor's first
/// owning region supplies the path and the base.
pub open spec fn line_for(rs: Seq<RegionView>, rec: RecordView, line: Seq<u8>) -> bool {
    exists|i: int|
        #[trigger] first_owner(rs, i, rec.anchor) && line == record_line(
            rs[i].path,
            rec.anchor - rs[i].start,
            rec.offsets,
        )
}

/// A whole decoded scan artifact: the catalog, the depth, the records.
pub open spec fn dec_scan(b: Seq<u8>) -> Option<(Seq<RegionView>, int, Seq<RecordView>)> {
    match dec_catalog(b) {
        Option::None => Option::None,
        Option::Some((rs, p)) => match dec_body(b, p) {
            Option::None => Option::None,
            Option::Some((d, recs)) => Option::Some((rs, d, recs)),
        },
    }
}

/// Decoding inverts encoding for a whole scan artifact: an encoded
/// catalog followed by an encoded record stream decodes to exactly the
/// regions, the depth and the records that were written.
pub proof fn lemma_scan_round_trip(rs: Seq<RegionView>, depth: int, recs: Seq<RecordView>)
    requires
        forall|i: int|
            0 <= i < rs.len() ==> (#[trigger] rs[i]).wf() && rs[i].path.len() <= u64::MAX,
        rs.len() <= u64::MAX,
        1 <= depth <= 255,
        crate::codec::records_fit(recs, depth),
    ensures
        dec_scan(crate::codec::enc_catalog(rs) + crate::codec::enc_body(depth, recs))
            == Option::Some((rs, depth, recs)),
{
    let ec = crate::codec::enc_catalog(rs);
    let eb = crate::codec::enc_body(depth, recs);
    let b = ec + eb;
    assert(b.subrange(0, ec.len() as int) =~= ec) by {
        assert forall|t: int| 0 <= t < ec.len() implies #[trigger] b.subrange(
            0,
            ec.len() as int,
        )[t] == ec[t] by {
            assert(b[t] == (ec + eb)[t]);
        }
    }
    crate::codec::lemma_catalog_round_trip(b, rs);
    let p = ec.len() as int;
    assert(b.subrange(p, b.len() as int) =~= eb) by {
        assert forall|t: int| 0 <= t < eb.len() implies #[trigger] b.subrange(
            p,
            b.len() as int,
        )[t] == eb[t] by {
            assert(b[p + t] == (ec + eb)[p + t]);
        }
    }
    crate::codec::lemma_body_round_trip(b, p, depth, recs);
}

fn hex_bytes(n: u64) -> (r: Vec<u8>)
    ensures
        r@ == hex_text(n as int),
    decreases n,
{
    if n < 16 {
        let d: u8 = if n < 10 {
            48 + (n as u8)
        } else {
            87 + (n as u8)
        };
        let mut v: Vec<u8> = Vec::new();
        v.push(d);
        proof {
            assert(v@ =~= hex_text(n as int));
        }
        v
    } else {
        let mut v = hex_bytes(n / 16);
        let m = n % 16;
        let d: u8 = if m < 10 {
            48 + (m as u8)
        } else {
            87 + (m as u8)
        };
        v.push(d);
        proof {
            assert(d == hex_digit_byte(n as int % 16));
            assert(v@ =~= hex_text(n as int));
        }
        v
    }
}

fn dec_bytes(n: u64) -> (r: Vec<u8>)
    ensures
        r@ == dec_text(n as int),
    decreases n,
{
    if n < 10 {
        let mut v: Vec<u8> = Vec::new();
        v.push(48 + (n as u8));
        proof {
            assert(v@ =~= dec_text(n as int));
        }
        v
    } else {
        let mut v = dec_bytes(n / 10);
        v.push(48 + ((n % 10) as u8));
        proof {
            assert(v@ =~= dec_text(n as int));
        }
        v
    }
}

fn signed_bytes(n: i16) -> (r: Vec<u8>)
    ensures
        r@ == signed_text(n as int),
{
    if n < 0 {
        let mag: u64 = (-(n as i64)) as u64;
        proof {
            assert(mag as int == -(n as int));
        }
        let mut v: Vec<u8> = Vec::new();
        v.push(45);
        let mut d = dec_bytes(mag);
        v.append(&mut d);
        proof {
            assert(v@ =~= signed_text(n as int));
        }
        v
    } else {
        let r = dec_bytes(n as u64);
        proof {
            assert(r@ == signed_text(n as int));
        }
        r
    }
}

/// Copies a byte vector.
pub fn copy_bytes(v: &Vec<u8>) -> (r: Vec<u8>)
    ensures
        r@ == v@,
{
    let mut out: Vec<u8> = Vec::new();
    out.extend_from_slice(v.as_slice());
    proof {
        assert(out@ =~= v@);
    }
    out
}

/// Renders the decoded records of a scan artifact into one line per
/// chain, resolving each anchor to its first owning region.
pub fn convert_scan_to_text(bytes: &Vec<u8>) -> (r: Result<Vec<Vec<u8>>, Error>)
    ensures
        match r {
            Ok(lines) => match dec_scan(bytes@) {
                Option::Some((rs, d, recs)) => {
                    &&& lines@.len() == recs.len()
                    &&& forall|m: int|
                        0 <= m < recs.len() ==> line_for(rs, recs[m], (#[trigger] lines@[m])@)
                },
                Option::None => false,
            },
            Err(e) => match dec_scan(bytes@) {
                Option::Some((rs, d, recs)) => e == Error(ErrorKind::NoOwningRegion) && exists|
                    m: int,
                |
                    0 <= m < recs.len() && !owner_exists(rs, (#[trigger] recs[m]).anchor),
                Option::None => true,
            },
        },
        r is Ok <==> (match dec_scan(bytes@) {
            Option::Some((rs, d, recs)) => forall|m: int|
                0 <= m < recs.len() ==> owner_exists(rs, (#[trigger] recs[m]).anchor),
            Option::None => false,
        }),
{
    let dr = decode_regions(bytes);
    let (regions, used) = match dr {
        Ok(x) => x,
        Err(e) => {
            return Err(e);
        },
    };
    let db = decode_records(bytes, used);
    let (_depth, recs) = match db {
        Ok(x) => x,
        Err(e) => {
            return Err(e);
        },
    };
    let ghost rsv = crate::region::catalog_view(regions@);
    let ghost recsv = crate::codec::records_view(recs@);
    let ghost depthg = _depth as int;
    proof {
        assert(dec_scan(bytes@) == Option::Some((rsv, depthg, recsv)));
    }
    let mut lines: Vec<Vec<u8>> = Vec::new();
    let mut m: usize = 0;
    while m < recs.len()
        invariant
            m <= recs@.len(),
            rsv == crate::region::catalog_view(regions@),
            recsv == crate::codec::records_view(recs@),
            recsv.len() == recs@.len(),
            dec_scan(bytes@) == Option::Some((rsv, depthg, recsv)),
            lines@.len() == m,
            forall|t: int| 0 <= t < m ==> line_for(rsv, recsv[t], (#[trigger] lines@[t])@),
        decreases recs@.len() - m,
    {
        let ghost m0 = m as int;
        let anchor = recs[m].anchor;
        let owner = crate::region::owning_region(&regions, anchor);
        let oi = match owner {
            Some(i) => i,
            None => {
                proof {
                    assert(!owner_exists(rsv, anchor)) by {
                        if owner_exists(rsv, anchor) {
                            let i = choose|i: int|
                                0 <= i < rsv.len() && (#[trigger] rsv[i]).start <= anchor
                                    <= rsv[i].end;
                            assert(rsv[i] == regions@[i]@);
                            assert(regions@[i].spec_contains(anchor));
                            assert(false);
                        }
                    }
                    assert(recsv[m0].anchor == anchor);
                    assert(0 <= m0 < recsv.len() && !owner_exists(rsv, recsv[m0].anchor));
                    assert(exists|t: int|
                        0 <= t < recsv.len() && !owner_exists(rsv, (#[trigger] recsv[t]).anchor));
                    assert(match dec_scan(bytes@) {
                        Option::Some((rs, d, recs)) => rs == rsv && recs == recsv,
                        Option::None => false,
                    });
                }
                return Err(Error(ErrorKind::NoOwningRegion));
            },
        };
        let base = anchor - regions[oi].start;
        let mut line = copy_bytes(&regions[oi].path);
        line.push(43);
        line.push(48);
        line.push(120);
        let mut hb = hex_bytes(base);
        line.append(&mut hb);
        let mut k: usize = 0;
        let ghost pre = line@;
        while k < recs[m].offsets.len()
            invariant
                m0 == m as int,
                m < recs@.len(),
                k <= recs@[m0].offsets@.len(),
                line@ == pre + offsets_text(recs@[m0].offsets@.take(k as int)),
            decreases recs@[m0].offsets@.len() - k,
        {
            let ghost k0 = k as int;
            let ghost lpre = line@;
            line.push(32);
            let off = recs[m].offsets[k];
            let mut sb = signed_bytes(off);
            line.append(&mut sb);
            k = k + 1;
            proof {
                assert(line@ =~= lpre + (seq![32u8] + signed_text(off as int)));
                lemma_offsets_text_push(recs@[m0].offsets@.take(k0), off);
                assert(recs@[m0].offsets@.take(k0 + 1) =~= recs@[m0].offsets@.take(k0).push(off));
                assert(line@ =~= pre + offsets_text(recs@[m0].offsets@.take(k0 + 1)));
            }
        }
        proof {
            let offs = recs@[m0].offsets@;
            assert(offs.take(offs.len() as int) =~= offs);
            assert(recsv[m0] == recs@[m0]@);
            assert(recsv[m0].anchor == anchor);
            assert(recsv[m0].offsets == offs);
            assert(first_owner(rsv, oi as int, anchor)) by {
                assert(rsv[oi as int] == regions@[oi as int]@);
                assert forall|j: int| 0 <= j < oi implies !(rsv[j].start <= anchor <= (
                #[trigger] rsv[j]).end) by {
                    assert(rsv[j] == regions@[j]@);
                    assert(!regions@[j].spec_contains(anchor));
                }
            }
            assert(line@ =~= record_line(rsv[oi as int].path, anchor - rsv[oi as int].start,
                recsv[m0].offsets));
            assert(line_for(rsv, recsv[m0], line@));
        }
        lines.push(line);
        m = m + 1;
        proof {
            assert forall|t: int| 0 <= t < m implies line_for(rsv, recsv[t], (
            #[trigger] lines@[t])@) by {
                if t < m0 {
                    assert(lines@[t] == lines@.subrange(0, m0)[t]);
                }
            }
        }
    }
    proof {
        assert forall|t: int| 0 <= t < recsv.len() implies owner_exists(
            rsv,
            (#[trigger] recsv[t]).anchor,
        ) by {
            assert(line_for(rsv, recsv[t], lines@[t]@));
            let i = choose|i: int|
                #[trigger] first_owner(rsv, i, recsv[t].anchor) && lines@[t]@ == record_line(
                    rsv[i].path,
                    recsv[t].anchor - rsv[i].start,
                    recsv[t].offsets,
                );
            assert(0 <= i < rsv.len() && rsv[i].start <= recsv[t].anchor <= rsv[i].end);
        }
    }
    Ok(lines)
}

proof fn lemma_offsets_text_push(offs: Seq<i16>, x: i16)
    ensures
        offsets_text(offs.push(x)) == offsets_text(offs) + (seq![32u8] + signed_text(x as int)),
    decreases offs.len(),
{
    if offs.len() == 0 {
        assert(offs.push(x)[0] == x);
        let d = offs.push(x).drop_first();
        assert(d =~= Seq::<i16>::empty());
        assert(offsets_text(d) == Seq::<u8>::empty());
        assert(offsets_text(offs.push(x)) == seq![32u8] + signed_text(x as int) + offsets_text(d));
        assert(offsets_text(offs.push(x)) =~= offsets_text(offs) + (seq![32u8] + signed_text(
            x as int,
        )));
    } else {
        assert(offs.push(x).drop_first() =~= offs.drop_first().push(x));
        lemma_offsets_text_push(offs.drop_first(), x);
        assert(offs.push(x)[0] == offs[0]);
        assert(offsets_text(offs.push(x)) == seq![32u8] + signed_text(offs[0] as int) + (
        offsets_text(offs.drop_first()) + (seq![32u8] + signed_text(x as int))));
        assert(offsets_text(offs.push(x)) =~= offsets_text(offs) + (seq![32u8] + signed_text(
            x as int,
        )));
    }
}

/// Lines viewed as byte sequences.
pub open spec fn lines_view(ls: Seq<Vec<u8>>) -> Seq<Seq<u8>> {
    ls.map_values(|v: Vec<u8>| v@)
}

/// The text these lines print as: each line followed by one newline.
pub open spec fn join_lines(ls: Seq<Seq<u8>>) -> Seq<u8>
    decreases ls.len(),
{
    if ls.len() == 0 {
        Seq::empty()
    } else {
        ls[0] + seq![10u8] + join_lines(ls.drop_first())
    }
}

proof fn lemma_join_lines_push(ls: Seq<Seq<u8>>, l: Seq<u8>)
    ensures
        join_lines(ls.push(l)) == join_lines(ls) + l + seq![10u8],
    decreases ls.len(),
{
    if ls.len() == 0 {
        assert(ls.push(l)[0] == l);
        let d = ls.push(l).drop_first();
        assert(d =~= Seq::<Seq<u8>>::empty());
        assert(join_lines(d) == Seq::<u8>::empty());
        assert(join_lines(ls.push(l)) == l + seq![10u8] + join_lines(d));
        assert(join_lines(ls.push(l)) =~= join_lines(ls) + l + seq![10u8]);
    } else {
        assert(ls.push(l).drop_first() =~= ls.drop_first().push(l));
        lemma_join_lines_push(ls.drop_first(), l);
        assert(ls.push(l)[0] == ls[0]);
        assert(join_lines(ls.push(l)) == ls[0] + seq![10u8] + (join_lines(ls.drop_first()) + l
            + seq![10u8]));
        assert(join_lines(ls.push(l)) =~= join_lines(ls) + l + seq![10u8]);
    }
}

/// Splits text into its newline-terminated lines; a final fragment
/// without a newline forms the last line.
pub fn split_lines(bytes: &Vec<u8>) -> (r: Vec<Vec<u8>>)
    ensures
        forall|m: int| 0 <= m < r@.len() ==> !(#[trigger] r@[m])@.contains(10u8),
        join_lines(lines_view(r@)) == (if bytes@.len() == 0 || bytes@.last() == 10 {
            bytes@
        } else {
            bytes@.push(10u8)
        }),
{
    let mut out: Vec<Vec<u8>> = Vec::new();
    let mut cur: Vec<u8> = Vec::new();
    let n = bytes.len();
    let mut i: usize = 0;
    proof {
        assert(lines_view(out@) =~= Seq::<Seq<u8>>::empty());
        assert(join_lines(lines_view(out@)) + cur@ =~= bytes@.take(0));
    }
    while i < n
        invariant
            n == bytes@.len(),
            i <= n,
            join_lines(lines_view(out@)) + cur@ == bytes@.take(i as int),
            !cur@.contains(10u8),
            forall|m: int| 0 <= m < out@.len() ==> !(#[trigger] out@[m])@.contains(10u8),
            cur@.len() > 0 ==> i > 0 && bytes@[i as int - 1] != 10,
            cur@.len() == 0 ==> (i == 0 || bytes@[i as int - 1] == 10),
        decreases n - i,
    {
        let ghost i0 = i as int;
        let ghost out0 = out@;
        let ghost cur0 = cur@;
        let c = bytes[i];
        if c == 10 {
            out.push(cur);
            cur = Vec::new();
            i = i + 1;
            proof {
                assert(lines_view(out@) =~= lines_view(out0).push(cur0));
                lemma_join_lines_push(lines_view(out0), cur0);
                assert(bytes@.take(i0 + 1) =~= bytes@.take(i0).push(10u8));
                assert(join_lines(lines_view(out@)) + cur@ =~= bytes@.take(i0 + 1));
                assert forall|m: int| 0 <= m < out@.len() implies !(#[trigger] out@[m])@.contains(
                    10u8,
                ) by {
                    if m < out0.len() {
                        assert(out@[m] == out0[m]);
                    }
                }
            }
        } else {
            cur.push(c);
            i = i + 1;
            proof {
                assert(bytes@.take(i0 + 1) =~= bytes@.take(i0).push(c));
                assert(join_lines(lines_view(out@)) + cur@ =~= bytes@.take(i0 + 1));
                assert(!cur@.contains(10u8)) by {
                    if cur@.contains(10u8) {
                        let t = choose|t: int| 0 <= t < cur@.len() && cur@[t] == 10u8;
                        if t < cur@.len() - 1 {
                            assert(cur0[t] == 10u8);
                            assert(cur0.contains(10u8));
                        }
                        assert(false);
                    }
                }
            }
        }
    }
    proof {
        assert(bytes@.take(n as int) =~= bytes@);
    }
    if cur.len() > 0 {
        let ghost out0 = out@;
        let ghost cur0 = cur@;
        out.push(cur);
        proof {
            assert(lines_view(out@) =~= lines_view(out0).push(cur0));
            lemma_join_lines_push(lines_view(out0), cur0);
            assert(join_lines(lines_view(out@)) =~= bytes@.push(10u8));
            assert(bytes@.last() != 10);
            assert forall|m: int| 0 <= m < out@.len() implies !(#[trigger] out@[m])@.contains(10u8)
                by {
                if m < out0.len() {
                    assert(out@[m] == out0[m]);
                }
            }
        }
    } else {
        proof {
            assert(join_lines(lines_view(out@)) + cur@ =~= join_lines(lines_view(out@)));
        }
    }
    out
}

/// A line with these bytes occurs in `ls`.
pub open spec fn has_line(ls: Seq<Vec<u8>>, l: Seq<u8>) -> bool {
    exists|m: int| 0 <= m < ls.len() && (#[trigger] ls[m])@ == l
}

fn bytes_eq(a: &Vec<u8>, b: &Vec<u8>) -> (r: bool)
    ensures
        r <==> a@ == b@,
{
    if a.len() != b.len() {
        proof {
            assert(a@ != b@);
        }
        return false;
    }
    let mut k: usize = 0;
    while k < a.len()
        invariant
            a@.len() == b@.len(),
            k <= a@.len(),
            forall|t: int| 0 <= t < k ==> a@[t] == b@[t],
        decreases a@.len() - k,
    {
        if a[k] != b[k] {
            return false;
        }
        k = k + 1;
    }
    proof {
        assert(a@ =~= b@);
    }
    true
}

fn lines_contain(ls: &Vec<Vec<u8>>, l: &Vec<u8>) -> (r: bool)
    ensures
        r == has_line(ls@, l@),
{
    let mut m: usize = 0;
    while m < ls.len()
        invariant
            m <= ls@.len(),
            forall|t: int| 0 <= t < m ==> (#[trigger] ls@[t])@ != l@,
        decreases ls@.len() - m,
    {
        if bytes_eq(&ls[m], l) {
            return true;
        }
        m = m + 1;
    }
    false
}

/// The diff of two decoded text outputs: exactly the lines present in
/// both, each once. Only chains that validate across both scans survive.
pub fn diff_lines(a: &Vec<Vec<u8>>, b: &Vec<Vec<u8>>) -> (r: Vec<Vec<u8>>)
    ensures
        forall|l: Seq<u8>| #[trigger] has_line(r@, l) <==> (has_line(a@, l) && has_line(b@, l)),
        forall|m: int, n: int| 0 <= m < n < r@.len() ==> (#[trigger] r@[m])@ != (#[trigger] r@[n])@,
{
    let mut out: Vec<Vec<u8>> = Vec::new();
    let mut i: usize = 0;
    while i < a.len()
        invariant
            i <= a@.len(),
            forall|l: Seq<u8>| #[trigger] has_line(out@, l) ==> (has_line(a@, l) && has_line(b@, l)),
            forall|t: int|
                0 <= t < i && has_line(b@, (#[trigger] a@[t])@) ==> has_line(out@, a@[t]@),
            forall|m: int, n: int|
                0 <= m < n < out@.len() ==> (#[trigger] out@[m])@ != (#[trigger] out@[n])@,
        decreases a@.len() - i,
    {
        let ghost i0 = i as int;
        let ghost out0 = out@;
        let la = &a[i];
        if lines_contain(b, la) {
            let have = lines_contain(&out, la);
            if have {
                proof {
                    assert(has_line(out@, a@[i0]@));
                }
            } else {
                let cp = copy_bytes(la);
                out.push(cp);
                proof {
                    assert(out@[out@.len() - 1]@ == a@[i0]@);
                    assert(has_line(out@, a@[i0]@));
                    assert forall|l: Seq<u8>| #[trigger] has_line(out@, l) implies (has_line(a@, l)
                        && has_line(b@, l)) by {
                        let m = choose|m: int| 0 <= m < out@.len() && (#[trigger] out@[m])@ == l;
                        if m < out@.len() - 1 {
                            assert(out0[m]@ == l);
                            assert(has_line(out0, l));
                        } else {
                            assert(l == a@[i0]@);
                            assert(has_line(a@, l));
                        }
                    }
                    assert forall|m: int, n: int|
                        0 <= m < n < out@.len() implies (#[trigger] out@[m])@ != (
                    #[trigger] out@[n])@ by {
                        if n < out@.len() - 1 {
                            assert(out@[m] == out0[m] && out@[n] == out0[n]);
                        } else {
                            assert(out@[m] == out0[m]);
                            if out@[m]@ == out@[n]@ {
                                assert(has_line(out0, a@[i0]@));
                                assert(false);
                            }
                        }
                    }
                }
            }
        }
        i = i + 1;
        proof {
            assert forall|t: int|
                0 <= t < i && has_line(b@, (#[trigger] a@[t])@) implies has_line(out@, a@[t]@) by {
                if t < i0 {
                    assert(has_line(out0, a@[t]@));
                    let m = choose|m: int| 0 <= m < out0.len() && (#[trigger] out0[m])@ == a@[t]@;
                    assert(out@[m]@ == a@[t]@);
                } else {
                    assert(has_line(out@, a@[i0]@));
                }
            }
        }
    }
    proof {
        assert forall|l: Seq<u8>| (has_line(a@, l) && has_line(b@, l)) implies #[trigger] has_line(
            out@,
            l,
        ) by {
            let t = choose|t: int| 0 <= t < a@.len() && (#[trigger] a@[t])@ == l;
            assert(has_line(b@, a@[t]@));
            assert(has_line(out@, a@[t]@));
        }
    }
    out
}

} // verus!
