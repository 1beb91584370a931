//! Pointer-path scanning core: inverting an address-to-value cache into a
//! reverse index, selecting anchor addresses from chosen memory regions,
//! searching for bounded chains of pointers that reach a target address, and
//! the binary and text codecs for the artifacts those steps exchange.

pub mod cache;
pub mod codec;
pub mod error;
pub mod index;
pub mod parse;
pub mod region;
pub mod search;
pub mod sorted;
pub mod text;

use vstd::prelude::*;

use crate::cache::{cache_maps, is_anchor, AddressValueCache};
use crate::codec::{enc_body, enc_catalog, records_view};
use crate::error::{Error, ErrorKind};
use crate::index::{index_maps, ReverseIndex};
use crate::region::{catalog_view, regions_disjoint, regions_wf, MemoryRegion};
use crate::search::{records_complete, records_distinct, records_sound, PathFindEngine, PathRecord};

verus! {

/// A location in the captured 64-bit virtual address space.
pub type Address = u64;

/// The whole scan pipeline over an already-loaded cache: selects the
/// anchors from the chosen regions, inverts the cache into the reverse
/// index, runs the depth-bounded search, and serializes the scan
/// artifact: the encoded catalog of the selected regions followed by the
/// record stream of every discovered chain.
pub fn perform_scan(
    cache: &AddressValueCache,
    selected_regions: &Vec<MemoryRegion>,
    target: u64,
    depth: usize,
    offset: (usize, usize),
) -> (r: Result<Vec<u8>, Error>)
    requires
        cache.wf(),
        regions_wf(selected_regions@),
        regions_disjoint(selected_regions@),
    ensures
        r is Ok <==> (1 <= depth && depth <= 255 && offset.0 <= 32768 && offset.1 <= 32767),
        depth == 0 ==> r == Err::<Vec<u8>, Error>(Error(ErrorKind::ZeroDepth)),
        depth > 255 ==> r == Err::<Vec<u8>, Error>(Error(ErrorKind::DepthTooLarge)),
        1 <= depth <= 255 && (offset.0 > 32768 || offset.1 > 32767) ==> r == Err::<
            Vec<u8>,
            Error,
        >(Error(ErrorKind::WindowTooWide)),
        match r {
            Ok(bytes) => exists|iseq: Seq<(u64, u64)>, anchors: Seq<u64>, recs: Seq<PathRecord>|
                {
                    &&& #[trigger] records_sound(
                        iseq,
                        anchors,
                        offset.0 as u64,
                        offset.1 as u64,
                        target,
                        depth as int,
                        recs,
                    )
                    &&& records_complete(
                        iseq,
                        anchors,
                        offset.0 as u64,
                        offset.1 as u64,
                        target,
                        depth as int,
                        recs,
                    )
                    &&& records_distinct(recs)
                    &&& (forall|v: u64, a: u64|
                        index_maps(iseq, v, a) <==> cache_maps(cache@, a, v))
                    &&& (forall|a: u64|
                        anchors.contains(a) <==> is_anchor(cache@, selected_regions@, a))
                    &&& bytes@ == enc_catalog(catalog_view(selected_regions@)) + enc_body(
                        depth as int,
                        records_view(recs),
                    )
                },
            Err(_) => true,
        },
{
    let startpoints = cache.select_anchors(selected_regions);
    let index = ReverseIndex::build(cache);
    let engine = PathFindEngine { target, depth, offset, startpoints, engine: index };
    let ghost geng = engine;
    let body = match engine.find_pointer_path() {
        Ok(b) => b,
        Err(e) => {
            return Err(e);
        },
    };
    let mut out = crate::codec::encode_regions(selected_regions);
    let mut body = body;
    let ghost bodyv = body@;
    out.append(&mut body);
    proof {
        let recs = choose|recs: Seq<PathRecord>|
            {
                &&& #[trigger] records_sound(
                    geng.engine@,
                    geng.startpoints@,
                    geng.offset.0 as u64,
                    geng.offset.1 as u64,
                    geng.target,
                    geng.depth as int,
                    recs,
                )
                &&& records_complete(
                    geng.engine@,
                    geng.startpoints@,
                    geng.offset.0 as u64,
                    geng.offset.1 as u64,
                    geng.target,
                    geng.depth as int,
                    recs,
                )
                &&& records_distinct(recs)
                &&& bodyv == enc_body(geng.depth as int, records_view(recs))
            };
        assert(records_sound(
            geng.engine@,
            geng.startpoints@,
            offset.0 as u64,
            offset.1 as u64,
            target,
            depth as int,
            recs,
        ));
    }
    Ok(out)
}

} // verus!
