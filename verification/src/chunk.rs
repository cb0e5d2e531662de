//! Top-level orchestration: chunk boundary walking and per-chunk decoding.
//!
//! A file is a run of chunks whose only structural anchor is the chain of
//! self-reported chunk sizes. For each chunk the driver parses the header,
//! decodes the metadata section first (string table and type registry), the
//! constant-pool section second, and only then the event region: the byte
//! range before the earlier of the two section offsets. Chunks are
//! independent: nothing a chunk holds refers to another chunk, so callers
//! may also walk the header chain with `scan_chunk_ranges` and decode each
//! range separately (or stop early, which is how cancellation is done).

use vstd::prelude::*;

use crate::constpool::dec_pools;
use crate::constpool::decode_pool_section;
use crate::constpool::resolve_pools;
use crate::constpool::resolved_arena;
use crate::cursor::copy_range;
use crate::error::JfrError;
use crate::error::Warning;
use crate::events::dec_events;
use crate::events::decode_event_section;
use crate::events::event_models;
use crate::events::Event;
use crate::constpool::arena_unresolved;
use crate::error::unknown_warns;
use crate::error::unresolved_warns;
use crate::events::events_unresolved;
use crate::header::be16;
use crate::header::be32;
use crate::header::be64;
use crate::header::header_fields_match;
use crate::header::header_parse_err;
use crate::header::header_parse_ok;
use crate::header::parse_header;
use crate::header::Header;
use crate::header::HEADER_LENGTH;
use crate::metadata::dec_section;
use crate::metadata::decode_metadata_section;
use crate::metadata::elem_model;
use crate::metadata::MetadataElement;
use crate::metadata::Metadata;
use crate::metadata::MetadataSection;
use crate::registry::build_registry;
use crate::registry::reg_models;
use crate::registry::registry_of;
use crate::registry::TypeDef;
use crate::value::pool_models;
use crate::value::PoolEntry;

verus! {

/// One decoded chunk: its header, string table, metadata summary and tree,
/// type registry, fully resolved constant pools, and event records.
#[derive(Debug)]
pub struct Chunk {
    pub header: Header,
    pub metadata: Metadata,
    pub strings: Vec<Vec<u8>>,
    pub root: MetadataElement,
    pub registry: Vec<TypeDef>,
    pub pools: Vec<PoolEntry>,
    pub events: Vec<Event>,
}

/// The end of the chunk that starts at `start`: its declared size is
/// self-inclusive.
pub open spec fn chunk_end(h: Header, start: int) -> int {
    start + h.size
}

/// A chunk's section offsets are usable: both point past the header and
/// they differ, so the two sections do not overlap.
pub open spec fn offsets_ok(h: Header) -> bool {
    &&& h.metadata_offset >= HEADER_LENGTH as u64
    &&& h.constant_pool_offset >= HEADER_LENGTH as u64
    &&& h.metadata_offset != h.constant_pool_offset
}

/// The byte range of the metadata section: from its offset to the start of
/// the constant-pool section or the chunk end, whichever comes first after
/// it.
pub open spec fn meta_lo(h: Header, start: int) -> int {
    start + h.metadata_offset
}

pub open spec fn meta_hi(h: Header, start: int) -> int {
    if h.metadata_offset < h.constant_pool_offset {
        start + h.constant_pool_offset
    } else {
        chunk_end(h, start)
    }
}

/// The byte range of the constant-pool section.
pub open spec fn cp_lo(h: Header, start: int) -> int {
    start + h.constant_pool_offset
}

pub open spec fn cp_hi(h: Header, start: int) -> int {
    if h.constant_pool_offset < h.metadata_offset {
        start + h.metadata_offset
    } else {
        chunk_end(h, start)
    }
}

/// The byte range of the event region: everything between the header and
/// the earlier section offset.
pub open spec fn events_lo(h: Header, start: int) -> int {
    start + HEADER_LENGTH
}

pub open spec fn events_hi(h: Header, start: int) -> int {
    if h.metadata_offset < h.constant_pool_offset {
        start + h.metadata_offset
    } else {
        start + h.constant_pool_offset
    }
}

/// Everything `decode_chunk_at` promises of a decoded chunk: the header
/// fields are the bytes' big-endian values, the metadata section decodes to
/// the chunk's string table and tree, the registry is the tree's, the pools
/// are the decoded arena fully resolved, and the events are the event
/// region's records under that registry and those pools.
#[verifier::opaque]
pub open spec fn chunk_ok(c: Chunk, s: Seq<u8>, start: int) -> bool {
    &&& header_parse_ok(s, start)
    &&& header_fields_match(c.header, s, start)
    &&& chunk_end(c.header, start) <= s.len()
    &&& offsets_ok(c.header)
    &&& dec_section(s.subrange(meta_lo(c.header, start), meta_hi(c.header, start)))
        == Some((c.metadata, c.strings.deep_view(), elem_model(c.root)))
    &&& reg_models(c.registry@) == registry_of(elem_model(c.root), c.strings.deep_view())
    &&& (dec_pools(
        s.subrange(cp_lo(c.header, start), cp_hi(c.header, start)),
        reg_models(c.registry@),
    ) matches Some(pr) && pool_models(c.pools@) == resolved_arena(pr.0))
    &&& (dec_events(
        s.subrange(events_lo(c.header, start), events_hi(c.header, start)),
        reg_models(c.registry@),
        pool_models(c.pools@),
    ) matches Some(er) && event_models(c.events@) == er.0)
}

/// The header whose fields are the big-endian values at their canonical
/// offsets from `i`: what any successful parse at `i` returns.
pub open spec fn spec_header(s: Seq<u8>, i: int) -> Header {
    Header {
        major_version: be16(s, i + 4) as u16,
        minor_version: be16(s, i + 6) as u16,
        size: be64(s, i + 8) as u64,
        constant_pool_offset: be64(s, i + 16) as u64,
        metadata_offset: be64(s, i + 24) as u64,
        start_nanos: be64(s, i + 32) as u64,
        duration_nanos: be64(s, i + 40) as u64,
        start_ticks: be64(s, i + 48) as u64,
        ticks_per_second: be64(s, i + 56) as u64,
        features: be32(s, i + 64) as u32,
    }
}

/// The chunk at `start` decodes in full: its header parses and stays inside
/// the data, its offsets are usable, and its metadata, constant-pool and
/// event sections all decode under the registry the metadata declares.
/// This is the condition under which `decode_chunk_at` owes success.
#[verifier::opaque]
pub open spec fn chunk_decodes(s: Seq<u8>, start: int) -> bool {
    let h = spec_header(s, start);
    &&& header_parse_ok(s, start)
    &&& chunk_end(h, start) <= s.len()
    &&& offsets_ok(h)
    &&& (dec_section(s.subrange(meta_lo(h, start), meta_hi(h, start))) matches Some(sec)
        && (dec_pools(s.subrange(cp_lo(h, start), cp_hi(h, start)), registry_of(sec.2, sec.1))
        matches Some(pr) && dec_events(
        s.subrange(events_lo(h, start), events_hi(h, start)),
        registry_of(sec.2, sec.1),
        resolved_arena(pr.0),
    ) is Some))
}

/// The warnings a decoded chunk reports, in order: the skipped pool record
/// types, the sentinels left in the resolved pools, the skipped event
/// record types, and the sentinels left in the decoded events.
#[verifier::opaque]
pub open spec fn chunk_warns(c: Chunk, s: Seq<u8>, start: int) -> Seq<Warning> {
    let pr = dec_pools(
        s.subrange(cp_lo(c.header, start), cp_hi(c.header, start)),
        reg_models(c.registry@),
    )->0;
    let er = dec_events(
        s.subrange(events_lo(c.header, start), events_hi(c.header, start)),
        reg_models(c.registry@),
        pool_models(c.pools@),
    )->0;
    unknown_warns(pr.1) + unresolved_warns(arena_unresolved(pool_models(c.pools@)))
        + unknown_warns(er.1) + unresolved_warns(events_unresolved(er.0))
}

/// Decodes the one chunk that starts at `start`: header, then metadata,
/// then constant pools, then events. Success is owed whenever the chunk
/// decodes (`chunk_decodes`); a header failure reports the header parser's
/// error, and a declared size or section offset that leaves the data is
/// `Corrupt`.
#[verifier::rlimit(100)]
#[verifier::spinoff_prover]
pub fn decode_chunk_at(data: &Vec<u8>, start: usize) -> (r: Result<
    (Chunk, Vec<Warning>),
    JfrError,
>)
    requires
        start <= data.len(),
    ensures
        match r {
            Ok(p) => chunk_ok(p.0, data@, start as int) && p.1@ == chunk_warns(
                p.0,
                data@,
                start as int,
            ),
            Err(e) => {
                &&& !chunk_decodes(data@, start as int)
                &&& (!header_parse_ok(data@, start as int) ==> e == header_parse_err(
                    data@,
                    start as int,
                ))
                &&& (header_parse_ok(data@, start as int) && chunk_end(
                    spec_header(data@, start as int),
                    start as int,
                ) > data.len() ==> e == JfrError::Corrupt)
                &&& (header_parse_ok(data@, start as int) && chunk_end(
                    spec_header(data@, start as int),
                    start as int,
                ) <= data.len() && !offsets_ok(spec_header(data@, start as int)) ==> e
                    == JfrError::Corrupt)
            },
        },
{
    let header = match parse_header(data, start) {
        Ok(h) => h,
        Err(e) => {
            proof {
                assert(!chunk_decodes(data@, start as int)) by {
                    reveal(chunk_decodes);
                }
            }
            return Err(e);
        },
    };
    proof {
        assert(header == spec_header(data@, start as int));
    }
    if header.size > (data.len() - start) as u64 {
        proof {
            assert(!chunk_decodes(data@, start as int)) by {
                reveal(chunk_decodes);
            }
        }
        return Err(JfrError::Corrupt);
    }
    let cend = start + header.size as usize;
    if header.metadata_offset < HEADER_LENGTH as u64 || header.constant_pool_offset < (
    HEADER_LENGTH as u64) || header.metadata_offset == header.constant_pool_offset {
        proof {
            assert(!chunk_decodes(data@, start as int)) by {
                reveal(chunk_decodes);
            }
        }
        return Err(JfrError::Corrupt);
    }
    decode_chunk_body(data, start, header)
}

/// A chunk whose metadata section does not decode does not decode.
proof fn lemma_chunk_meta_fails(s: Seq<u8>, start: int)
    requires
        dec_section(
            s.subrange(
                meta_lo(spec_header(s, start), start),
                meta_hi(spec_header(s, start), start),
            ),
        ) is None,
    ensures
        !chunk_decodes(s, start),
{
    reveal(chunk_decodes);
}

/// A chunk whose constant-pool section does not decode under its declared
/// registry does not decode.
proof fn lemma_chunk_pools_fail(s: Seq<u8>, start: int)
    requires
        ({
            let h = spec_header(s, start);
            dec_section(s.subrange(meta_lo(h, start), meta_hi(h, start))) matches Some(sec)
                && dec_pools(
                s.subrange(cp_lo(h, start), cp_hi(h, start)),
                registry_of(sec.2, sec.1),
            ) is None
        }),
    ensures
        !chunk_decodes(s, start),
{
    reveal(chunk_decodes);
}

/// A chunk whose event region does not decode under its declared registry
/// and resolved pools does not decode.
proof fn lemma_chunk_events_fail(s: Seq<u8>, start: int)
    requires
        ({
            let h = spec_header(s, start);
            dec_section(s.subrange(meta_lo(h, start), meta_hi(h, start))) matches Some(sec)
                && (dec_pools(
                s.subrange(cp_lo(h, start), cp_hi(h, start)),
                registry_of(sec.2, sec.1),
            ) matches Some(pr) && dec_events(
                s.subrange(events_lo(h, start), events_hi(h, start)),
                registry_of(sec.2, sec.1),
                resolved_arena(pr.0),
            ) is None)
        }),
    ensures
        !chunk_decodes(s, start),
{
    reveal(chunk_decodes);
}

/// A chunk assembled from sections that all decoded satisfies `chunk_ok`,
/// and its gathered warnings are exactly `chunk_warns`.
proof fn lemma_chunk_assembles(c: Chunk, s: Seq<u8>, start: int, ws: Seq<Warning>)
    requires
        header_parse_ok(s, start),
        header_fields_match(c.header, s, start),
        chunk_end(c.header, start) <= s.len(),
        offsets_ok(c.header),
        dec_section(s.subrange(meta_lo(c.header, start), meta_hi(c.header, start))) == Some(
            (c.metadata, c.strings.deep_view(), elem_model(c.root)),
        ),
        reg_models(c.registry@) == registry_of(elem_model(c.root), c.strings.deep_view()),
        dec_pools(
            s.subrange(cp_lo(c.header, start), cp_hi(c.header, start)),
            reg_models(c.registry@),
        ) is Some,
        pool_models(c.pools@) == resolved_arena(
            (dec_pools(
                s.subrange(cp_lo(c.header, start), cp_hi(c.header, start)),
                reg_models(c.registry@),
            )->0).0,
        ),
        dec_events(
            s.subrange(events_lo(c.header, start), events_hi(c.header, start)),
            reg_models(c.registry@),
            pool_models(c.pools@),
        ) is Some,
        event_models(c.events@) == (dec_events(
            s.subrange(events_lo(c.header, start), events_hi(c.header, start)),
            reg_models(c.registry@),
            pool_models(c.pools@),
        )->0).0,
        ws == unknown_warns(
            (dec_pools(
                s.subrange(cp_lo(c.header, start), cp_hi(c.header, start)),
                reg_models(c.registry@),
            )->0).1,
        ) + unresolved_warns(arena_unresolved(pool_models(c.pools@))) + (unknown_warns(
            (dec_events(
                s.subrange(events_lo(c.header, start), events_hi(c.header, start)),
                reg_models(c.registry@),
                pool_models(c.pools@),
            )->0).1,
        ) + unresolved_warns(
            events_unresolved(
                (dec_events(
                    s.subrange(events_lo(c.header, start), events_hi(c.header, start)),
                    reg_models(c.registry@),
                    pool_models(c.pools@),
                )->0).0,
            ),
        )),
    ensures
        chunk_ok(c, s, start),
        ws == chunk_warns(c, s, start),
{
    reveal(chunk_ok);
    reveal(chunk_warns);
    assert(ws =~= chunk_warns(c, s, start));
}

/// Decodes the sections of the chunk whose validated header is `header`:
/// metadata, then constant pools, then events.
#[verifier::rlimit(100)]
#[verifier::spinoff_prover]
fn decode_chunk_body(data: &Vec<u8>, start: usize, header: Header) -> (r: Result<
    (Chunk, Vec<Warning>),
    JfrError,
>)
    requires
        start <= data.len(),
        header_parse_ok(data@, start as int),
        header_fields_match(header, data@, start as int),
        header == spec_header(data@, start as int),
        chunk_end(header, start as int) <= data.len(),
        offsets_ok(header),
    ensures
        match r {
            Ok(p) => chunk_ok(p.0, data@, start as int) && p.1@ == chunk_warns(
                p.0,
                data@,
                start as int,
            ),
            Err(e) => !chunk_decodes(data@, start as int),
        },
{
    let cend = start + header.size as usize;
    let me = start + header.metadata_offset as usize;
    let cp = start + header.constant_pool_offset as usize;
    // Metadata first: registry and strings must exist before pools resolve.
    let (mlo, mhi) = if header.metadata_offset < header.constant_pool_offset {
        (me, cp)
    } else {
        (me, cend)
    };
    proof {
        assert(mlo as int == meta_lo(header, start as int));
        assert(mhi as int == meta_hi(header, start as int));
        assert(mlo <= mhi <= data.len());
    }
    let msec = copy_range(data, mlo, mhi - mlo);
    let section = match decode_metadata_section(&msec) {
        Ok(sec) => sec,
        Err(e) => {
            proof {
                lemma_chunk_meta_fails(data@, start as int);
            }
            return Err(e);
        },
    };
    let registry = build_registry(&section.root, &section.strings);
    decode_chunk_tail(data, start, header, section, registry)
}

/// Decodes the constant pools and events of a chunk whose metadata section
/// already decoded, resolves the pools, and assembles the chunk.
#[verifier::rlimit(100)]
#[verifier::spinoff_prover]
fn decode_chunk_tail(
    data: &Vec<u8>,
    start: usize,
    header: Header,
    section: MetadataSection,
    registry: Vec<TypeDef>,
) -> (r: Result<(Chunk, Vec<Warning>), JfrError>)
    requires
        start <= data.len(),
        header_parse_ok(data@, start as int),
        header_fields_match(header, data@, start as int),
        header == spec_header(data@, start as int),
        chunk_end(header, start as int) <= data.len(),
        offsets_ok(header),
        dec_section(
            data@.subrange(meta_lo(header, start as int), meta_hi(header, start as int)),
        ) == Some(
            (section.info, section.strings.deep_view(), elem_model(section.root)),
        ),
        reg_models(registry@) == registry_of(
            elem_model(section.root),
            section.strings.deep_view(),
        ),
    ensures
        match r {
            Ok(p) => chunk_ok(p.0, data@, start as int) && p.1@ == chunk_warns(
                p.0,
                data@,
                start as int,
            ),
            Err(e) => !chunk_decodes(data@, start as int),
        },
{
    let cend = start + header.size as usize;
    let me = start + header.metadata_offset as usize;
    let cp = start + header.constant_pool_offset as usize;
    // Constant pools second: raw decode, then full resolution.
    let (plo, phi) = if header.constant_pool_offset < header.metadata_offset {
        (cp, me)
    } else {
        (cp, cend)
    };
    proof {
        assert(plo as int == cp_lo(header, start as int));
        assert(phi as int == cp_hi(header, start as int));
        assert(plo <= phi <= data.len());
    }
    let psec = copy_range(data, plo, phi - plo);
    let (arena, mut warns) = match decode_pool_section(&psec, &registry) {
        Ok(p) => p,
        Err(e) => {
            proof {
                lemma_chunk_pools_fail(data@, start as int);
            }
            return Err(e);
        },
    };
    let pools = resolve_pools(&arena);
    let mut uwarns = crate::constpool::unresolved_warnings(&pools);
    append_warnings(&mut warns, &mut uwarns);
    // Events last: the region before the earlier of the two offsets.
    let elo = start + HEADER_LENGTH;
    let ehi = if header.metadata_offset < header.constant_pool_offset {
        me
    } else {
        cp
    };
    proof {
        assert(elo as int == events_lo(header, start as int));
        assert(ehi as int == events_hi(header, start as int));
        assert(elo <= ehi <= data.len());
    }
    let esec = copy_range(data, elo, ehi - elo);
    let (events, mut ewarns) = match decode_event_section(&esec, &registry, &pools) {
        Ok(p) => p,
        Err(e) => {
            proof {
                lemma_chunk_events_fail(data@, start as int);
            }
            return Err(e);
        },
    };
    append_warnings(&mut warns, &mut ewarns);
    let chunk = Chunk {
        header,
        metadata: section.info,
        strings: section.strings,
        root: section.root,
        registry,
        pools,
        events,
    };
    proof {
        lemma_chunk_assembles(chunk, data@, start as int, warns@);
    }
    Ok((chunk, warns))
}

/// Moves every warning of `src` to the end of `dst`, in order.
fn append_warnings(dst: &mut Vec<Warning>, src: &mut Vec<Warning>)
    ensures
        final(dst)@ == old(dst)@ + old(src)@,
{
    let ghost srcv = src@;
    let mut k: usize = 0;
    let n = src.len();
    while k < n
        invariant
            0 <= k <= n,
            n == srcv.len(),
            src@ == srcv.skip(k as int),
            dst@ == old(dst)@ + srcv.take(k as int),
        decreases n - k,
    {
        let e = src.remove(0);
        proof {
            assert(srcv.skip(k as int).remove(0) =~= srcv.skip(k + 1));
            assert(e == srcv.skip(k as int)[0]);
            assert(srcv.skip(k as int)[0] == srcv[k as int]);
            assert((old(dst)@ + srcv.take(k as int)).push(srcv[k as int]) =~= old(dst)@
                + srcv.take(k + 1));
        }
        dst.push(e);
        k = k + 1;
    }
    proof {
        assert(srcv.take(n as int) =~= srcv);
    }
}

/// Every chunk from `pos` to the end of `s` decodes, and the declared
/// sizes land exactly on the end: the condition under which `decode_file`
/// owes success.
pub open spec fn file_decodes(s: Seq<u8>, pos: int) -> bool
    decreases s.len() - pos,
    via file_decodes_decreases
{
    if !(0 <= pos <= s.len()) {
        false
    } else if pos == s.len() {
        true
    } else if chunk_decodes(s, pos) {
        file_decodes(s, pos + spec_header(s, pos).size)
    } else {
        false
    }
}

#[via_fn]
proof fn file_decodes_decreases(s: Seq<u8>, pos: int) {
    reveal(chunk_decodes);
    if 0 <= pos <= s.len() && pos != s.len() && chunk_decodes(s, pos) {
        crate::header::lemma_be_bounds(s, pos + 8);
        assert(spec_header(s, pos).size >= HEADER_LENGTH as u64);
        assert(pos + spec_header(s, pos).size <= s.len());
    }
}

/// The declared header chain from `pos` tiles `s` exactly: each header
/// parses and its declared size stays inside the source, landing on the
/// end. The condition under which `scan_chunk_ranges` owes success.
pub open spec fn headers_chain(s: Seq<u8>, pos: int) -> bool
    decreases s.len() - pos,
    via headers_chain_decreases
{
    if !(0 <= pos <= s.len()) {
        false
    } else if pos == s.len() {
        true
    } else if header_parse_ok(s, pos) && chunk_end(spec_header(s, pos), pos) <= s.len() {
        headers_chain(s, pos + spec_header(s, pos).size)
    } else {
        false
    }
}

#[via_fn]
proof fn headers_chain_decreases(s: Seq<u8>, pos: int) {
    if 0 <= pos <= s.len() && pos != s.len() && header_parse_ok(s, pos) {
        crate::header::lemma_be_bounds(s, pos + 8);
        assert(spec_header(s, pos).size >= HEADER_LENGTH as u64);
    }
}

/// The total declared size of a run of chunks.
pub open spec fn sizes_sum(cs: Seq<Chunk>) -> int
    decreases cs,
{
    if cs.len() == 0 {
        0int
    } else {
        sizes_sum(cs.drop_last()) + cs.last().header.size
    }
}

/// Walks the header chain only, returning each chunk's byte range. The
/// ranges partition the file exactly: the first starts at 0, each starts
/// where the one before it ends, and the last ends at the file's end.
pub fn scan_chunk_ranges(data: &Vec<u8>) -> (r: Result<Vec<(usize, usize)>, JfrError>)
    ensures
        data.len() > 0 && headers_chain(data@, 0) ==> r is Ok,
        match r {
            Ok(rs) => {
                &&& data.len() > 0
                &&& rs.len() >= 1
                &&& rs@[0].0 == 0
                &&& rs@[rs@.len() - 1].1 == data.len()
                &&& forall|i: int|
                    0 <= i < rs@.len() ==> (#[trigger] rs@[i]).0 < rs@[i].1 <= data.len()
                        && header_parse_ok(data@, rs@[i].0 as int) && rs@[i].1 - rs@[i].0
                        == be64(data@, rs@[i].0 + 8)
                &&& forall|i: int| 0 < i < rs@.len() ==> (#[trigger] rs@[i]).0 == rs@[
                    i - 1
                ].1
            },
            Err(e) => (data.len() == 0 ==> e == JfrError::EmptyOrInvalidFile) && (data.len()
                > 0 ==> !headers_chain(data@, 0)),
        },
{
    if data.len() == 0 {
        return Err(JfrError::EmptyOrInvalidFile);
    }
    let mut rs: Vec<(usize, usize)> = Vec::new();
    let mut cursor: usize = 0;
    while cursor < data.len()
        invariant
            0 <= cursor <= data.len(),
            data@.len() > 0,
            cursor == 0 ==> rs@.len() == 0,
            cursor > 0 ==> rs@.len() >= 1 && rs@[rs@.len() - 1].1 == cursor && rs@[0].0
                == 0,
            headers_chain(data@, 0) ==> headers_chain(data@, cursor as int),
            forall|i: int|
                0 <= i < rs@.len() ==> (#[trigger] rs@[i]).0 < rs@[i].1 <= data.len()
                    && header_parse_ok(data@, rs@[i].0 as int) && rs@[i].1 - rs@[i].0
                    == be64(data@, rs@[i].0 + 8),
            forall|i: int| 0 < i < rs@.len() ==> (#[trigger] rs@[i]).0 == rs@[i - 1].1,
        decreases data.len() - cursor,
    {
        let h = match parse_header(data, cursor) {
            Ok(h) => h,
            Err(e) => {
                proof {
                    if headers_chain(data@, 0) {
                        assert(headers_chain(data@, cursor as int));
                        assert(false);
                    }
                }
                return Err(e);
            },
        };
        proof {
            crate::header::lemma_be_bounds(data@, cursor + 8);
        }
        if h.size > (data.len() - cursor) as u64 {
            // The declared chain overshoots the source.
            proof {
                if headers_chain(data@, 0) {
                    assert(headers_chain(data@, cursor as int));
                    assert(chunk_end(spec_header(data@, cursor as int), cursor as int)
                        <= data@.len());
                    assert(false);
                }
            }
            return Err(JfrError::Corrupt);
        }
        let cend = cursor + h.size as usize;
        rs.push((cursor, cend));
        proof {
            if headers_chain(data@, 0) {
                assert(headers_chain(data@, cursor as int));
                assert(spec_header(data@, cursor as int).size == h.size);
                assert(headers_chain(data@, cend as int));
            }
        }
        cursor = cend;
    }
    Ok(rs)
}

/// Decodes a whole file strictly: every chunk in order, with all warnings
/// gathered, failing outright on the first fatal chunk. A zero-length
/// input is `EmptyOrInvalidFile` and never a read out of bounds; on
/// success the file held at least one chunk and the declared chunk sizes
/// sum to exactly the file length, with no residual bytes. Success is owed
/// whenever every chunk decodes (`file_decodes`). To keep the chunks
/// decoded before a failure, use `decode_file_resilient`.
#[verifier::rlimit(100)]
#[verifier::spinoff_prover]
pub fn decode_file(data: &Vec<u8>) -> (r: Result<(Vec<Chunk>, Vec<Warning>), JfrError>)
    ensures
        data.len() == 0 ==> r == Result::<(Vec<Chunk>, Vec<Warning>), JfrError>::Err(
            JfrError::EmptyOrInvalidFile,
        ),
        data.len() > 0 && !header_parse_ok(data@, 0) ==> r == Result::<
            (Vec<Chunk>, Vec<Warning>),
            JfrError,
        >::Err(header_parse_err(data@, 0)),
        data.len() > 0 && file_decodes(data@, 0) ==> r is Ok,
        match r {
            Ok(p) => {
                &&& data.len() > 0
                &&& p.0.len() >= 1
                &&& sizes_sum(p.0@) == data.len()
                &&& forall|i: int|
                    0 <= i < p.0@.len() ==> chunk_ok(
                        #[trigger] p.0@[i],
                        data@,
                        chunk_start(p.0@, i),
                    )
            },
            Err(e) => true,
        },
{
    if data.len() == 0 {
        return Err(JfrError::EmptyOrInvalidFile);
    }
    let mut chunks: Vec<Chunk> = Vec::new();
    let mut warns: Vec<Warning> = Vec::new();
    let mut cursor: usize = 0;
    while cursor < data.len()
        invariant
            0 <= cursor <= data.len(),
            data@.len() > 0,
            sizes_sum(chunks@) == cursor,
            cursor == 0 ==> chunks@.len() == 0,
            file_decodes(data@, 0) ==> file_decodes(data@, cursor as int),
            forall|i: int|
                0 <= i < chunks@.len() ==> chunk_ok(
                    #[trigger] chunks@[i],
                    data@,
                    chunk_start(chunks@, i),
                ),
        decreases data.len() - cursor,
    {
        let (chunk, mut cwarns) = match decode_chunk_at(data, cursor) {
            Ok(p) => p,
            Err(e) => {
                proof {
                    if cursor > 0 {
                        assert(chunks@.len() > 0);
                        assert(chunk_ok(chunks@[0], data@, chunk_start(chunks@, 0)));
                        assert(chunks@.take(0) =~= Seq::<Chunk>::empty());
                        assert(header_parse_ok(data@, 0)) by {
                            reveal(chunk_ok);
                        }
                    }
                    if file_decodes(data@, 0) {
                        assert(file_decodes(data@, cursor as int));
                        assert(chunk_decodes(data@, cursor as int));
                        assert(false);
                    }
                }
                return Err(e);
            },
        };
        let sz = chunk.header.size as usize;
        proof {
            reveal(chunk_ok);
            assert(chunk_end(chunk.header, cursor as int) <= data@.len());
            assert(chunk.header.size >= HEADER_LENGTH as u64);
            assert(chunks@.push(chunk).drop_last() =~= chunks@);
            lemma_chunk_start_push(chunks@, chunk, cursor as int);
            if file_decodes(data@, 0) {
                assert(file_decodes(data@, cursor as int));
                assert(spec_header(data@, cursor as int).size == chunk.header.size) by {
                    crate::header::lemma_be_bounds(data@, cursor + 8);
                }
                assert(file_decodes(data@, cursor + chunk.header.size));
            }
        }
        append_warnings(&mut warns, &mut cwarns);
        chunks.push(chunk);
        cursor = cursor + sz;
    }
    proof {
        assert(sizes_sum(chunks@) == data.len());
        assert(chunks@.len() >= 1) by {
            if chunks@.len() == 0 {
                assert(sizes_sum(chunks@) == 0);
            }
        }
        assert(chunk_ok(chunks@[0], data@, chunk_start(chunks@, 0)));
        assert(chunks@.take(0) =~= Seq::<Chunk>::empty());
        assert(header_parse_ok(data@, 0)) by {
            reveal(chunk_ok);
        }
    }
    Ok((chunks, warns))
}

/// The chunk decodes from `s` at some start offset: what a resilient walk
/// guarantees of every chunk it returns.
pub open spec fn chunk_ok_somewhere(c: Chunk, s: Seq<u8>) -> bool {
    exists|st: int| chunk_ok(c, s, st)
}

/// The outcome of a resilient whole-file walk: everything decoded before
/// any failure, surfaced alongside the failures themselves.
pub struct FileScan {
    /// Every chunk that decoded, in file order.
    pub chunks: Vec<Chunk>,
    /// The decoded chunks' warnings, in order.
    pub warnings: Vec<Warning>,
    /// One error per chunk whose body failed after its header was read;
    /// the walk resynced at that chunk's declared boundary and went on.
    pub chunk_errors: Vec<JfrError>,
    /// The error that ended the walk early, when framing itself was lost
    /// (a header that does not parse, or a declared size past the end).
    pub fatal: Option<JfrError>,
}

/// Decodes a whole file but never discards partial results: fatal errors
/// abort exactly the chunk they occur in. A chunk whose header was read but
/// whose body fails is skipped by its declared size (the iterator resyncs
/// at the next declared boundary) and its error is recorded; only a lost
/// frame — an unreadable header or a size overshooting the source — ends
/// the walk, with the chunks already produced still returned.
#[verifier::rlimit(100)]
#[verifier::spinoff_prover]
pub fn decode_file_resilient(data: &Vec<u8>) -> (r: FileScan)
    ensures
        data.len() == 0 ==> r.chunks@.len() == 0 && r.fatal == Some(
            JfrError::EmptyOrInvalidFile,
        ),
        data.len() > 0 && file_decodes(data@, 0) ==> r.fatal is None && r.chunk_errors@.len()
            == 0 && r.chunks@.len() >= 1 && sizes_sum(r.chunks@) == data.len(),
        forall|i: int|
            0 <= i < r.chunks@.len() ==> chunk_ok_somewhere(#[trigger] r.chunks@[i], data@),
{
    if data.len() == 0 {
        return FileScan {
            chunks: Vec::new(),
            warnings: Vec::new(),
            chunk_errors: Vec::new(),
            fatal: Some(JfrError::EmptyOrInvalidFile),
        };
    }
    let mut chunks: Vec<Chunk> = Vec::new();
    let mut warns: Vec<Warning> = Vec::new();
    let mut chunk_errors: Vec<JfrError> = Vec::new();
    let mut fatal: Option<JfrError> = None;
    let mut cursor: usize = 0;
    while cursor < data.len() && fatal.is_none()
        invariant
            0 <= cursor <= data.len(),
            data@.len() > 0,
            file_decodes(data@, 0) ==> file_decodes(data@, cursor as int) && fatal is None
                && chunk_errors@.len() == 0 && sizes_sum(chunks@) == cursor,
            forall|i: int|
                0 <= i < chunks@.len() ==> chunk_ok_somewhere(#[trigger] chunks@[i], data@),
        decreases data.len() - cursor, (if fatal is None {
            1int
        } else {
            0int
        }),
    {
        match decode_chunk_at(data, cursor) {
            Ok((chunk, mut cwarns)) => {
                proof {
                    reveal(chunk_ok);
                    assert(chunk_end(chunk.header, cursor as int) <= data@.len());
                    assert(chunk.header.size >= HEADER_LENGTH as u64);
                    assert(chunk_ok(chunk, data@, cursor as int));
                    if file_decodes(data@, 0) {
                        assert(file_decodes(data@, cursor as int));
                        assert(spec_header(data@, cursor as int).size == chunk.header.size)
                            by {
                            crate::header::lemma_be_bounds(data@, cursor + 8);
                        }
                        assert(file_decodes(data@, cursor + chunk.header.size));
                    }
                    assert(chunks@.push(chunk).drop_last() =~= chunks@);
                }
                let sz = chunk.header.size as usize;
                append_warnings(&mut warns, &mut cwarns);
                let ghost prev = chunks@;
                let ghost at = cursor as int;
                chunks.push(chunk);
                proof {
                    assert forall|i: int| 0 <= i < chunks@.len() implies chunk_ok_somewhere(
                        #[trigger] chunks@[i],
                        data@,
                    ) by {
                        if i < prev.len() {
                            assert(chunks@[i] == prev[i]);
                            assert(chunk_ok_somewhere(prev[i], data@));
                        } else {
                            assert(chunks@[i] == chunks@.last());
                            assert(chunk_ok(chunks@[i], data@, at));
                        }
                    }
                }
                cursor = cursor + sz;
            },
            Err(e) => {
                proof {
                    if file_decodes(data@, 0) {
                        assert(file_decodes(data@, cursor as int));
                        assert(chunk_decodes(data@, cursor as int));
                        assert(false);
                    }
                }
                match parse_header(data, cursor) {
                    Ok(h) => {
                        if h.size <= (data.len() - cursor) as u64 {
                            // The frame itself is sound: skip this chunk by
                            // its declared size and go on.
                            chunk_errors.push(e);
                            cursor = cursor + h.size as usize;
                        } else {
                            fatal = Some(JfrError::Corrupt);
                        }
                    },
                    Err(he) => {
                        fatal = Some(he);
                    },
                }
            },
        }
    }
    proof {
        if data@.len() > 0 && file_decodes(data@, 0) {
            assert(fatal is None);
            assert(cursor == data.len());
            assert(sizes_sum(chunks@) == data.len());
            assert(chunks@.len() >= 1) by {
                if chunks@.len() == 0 {
                    assert(sizes_sum(chunks@) == 0);
                }
            }
        }
    }
    FileScan { chunks, warnings: warns, chunk_errors, fatal }
}

/// The byte offset at which chunk `i` of a run starts: the declared sizes
/// of the chunks before it.
pub open spec fn chunk_start(cs: Seq<Chunk>, i: int) -> int {
    sizes_sum(cs.take(i))
}

/// Pushing a chunk leaves earlier chunk starts alone and places the new one
/// at the run's total size.
proof fn lemma_chunk_start_push(cs: Seq<Chunk>, c: Chunk, at: int)
    requires
        sizes_sum(cs) == at,
    ensures
        chunk_start(cs.push(c), cs.len() as int) == at,
        forall|i: int|
            0 <= i < cs.len() ==> chunk_start(cs.push(c), i) == #[trigger] chunk_start(cs, i),
        sizes_sum(cs.push(c)) == at + c.header.size,
{
    assert(cs.push(c).take(cs.len() as int) =~= cs);
    assert(cs.push(c).drop_last() =~= cs);
    assert forall|i: int| 0 <= i < cs.len() implies chunk_start(cs.push(c), i)
        == #[trigger] chunk_start(cs, i) by {
        assert(cs.push(c).take(i) =~= cs.take(i));
    }
}

} // verus!
