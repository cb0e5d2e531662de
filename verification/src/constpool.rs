//! Constant-pool section decoding and two-phase resolution.
//!
//! The section is a run of self-framing pool records: size, type id,
//! timestamp, entry count, then (constant id, value) entries decoded by the
//! owning type's rules with references left weak. Forward and self
//! references are legal, so resolution is a second pass over the finished
//! arena. A record whose type id is not registered is skipped by its
//! declared size and recorded as a warning.

use vstd::prelude::*;

use crate::error::JfrError;
use crate::error::Warning;
use crate::events::dec_value;
use crate::events::decode_value;
use crate::events::MAX_NESTING;
use crate::metadata::vint_head;
use crate::registry::FieldDef;
use crate::registry::TypeDef;
use crate::registry::TypeModel;
use crate::registry::reg_find;
use crate::registry::reg_models;
use crate::value::resolve_model;
use crate::value::resolve_value;
use crate::value::pool_models;
use crate::value::val_model;
use crate::value::PoolEntry;
use crate::value::VModel;
use crate::value::Value;
use crate::varint;

verus! {

/// The field rule a pool entry of type `tid` is decoded by: the bare type,
/// no array and no reference indirection.
pub open spec fn entry_rule(tid: u64) -> FieldDef {
    FieldDef { name: 0, type_id: tid, is_array: false, cp_ref: false }
}

/// `n` pool entries of type `tid` at the head of `s`: (constant id, raw
/// value) pairs, references left weak.
pub open spec fn dec_pool_entries(
    s: Seq<u8>,
    reg: Seq<TypeModel>,
    tid: u64,
    n: nat,
) -> Option<(Seq<(u64, u64, VModel)>, nat)>
    decreases s.len(), n,
{
    if n == 0 {
        Some((Seq::empty(), 0))
    } else {
        match vint_head(s) {
            None => None,
            Some(h) => match dec_value(
                s.skip(h.1 as int),
                reg,
                Seq::empty(),
                false,
                entry_rule(tid),
                MAX_NESTING as nat,
            ) {
                None => None,
                Some(v) => if h.1 + v.1 <= s.len() {
                    match dec_pool_entries(
                        s.skip((h.1 + v.1) as int),
                        reg,
                        tid,
                        (n - 1) as nat,
                    ) {
                        None => None,
                        Some(rest) => Some((
                            seq![(tid, h.0 as u64, v.0)] + rest.0,
                            (h.1 + v.1 + rest.1) as nat,
                        )),
                    }
                } else {
                    None
                },
            },
        }
    }
}

/// The raw arena a constant-pool section declares, together with the type
/// ids of records that were skipped because they are not registered.
pub open spec fn dec_pools(s: Seq<u8>, reg: Seq<TypeModel>) -> Option<(
    Seq<(u64, u64, VModel)>,
    Seq<u64>,
)>
    decreases s.len(),
{
    if s.len() == 0 {
        Some((Seq::empty(), Seq::empty()))
    } else {
        match vint_head(s) {
            None => None,
            Some(h0) => if 1 <= h0.0 <= s.len() {
                match vint_head(s.skip(h0.1 as int)) {
                    None => None,
                    Some(h1) => match dec_pools(s.skip(h0.0 as int), reg) {
                        None => None,
                        Some(rest) => {
                            let tid = h1.0 as u64;
                            if reg_find(reg, tid) is None {
                                Some((rest.0, seq![tid] + rest.1))
                            } else {
                                match vint_head(s.skip((h0.1 + h1.1) as int)) {
                                    None => None,
                                    Some(h2) => match vint_head(
                                        s.skip((h0.1 + h1.1 + h2.1) as int),
                                    ) {
                                        None => None,
                                        Some(h3) => match dec_pool_entries(
                                            s.skip((h0.1 + h1.1 + h2.1 + h3.1) as int),
                                            reg,
                                            tid,
                                            h3.0,
                                        ) {
                                            None => None,
                                            Some(es) => if h0.1 + h1.1 + h2.1 + h3.1 + es.1
                                                <= h0.0 {
                                                Some((es.0 + rest.0, rest.1))
                                            } else {
                                                None
                                            },
                                        },
                                    },
                                }
                            }
                        },
                    },
                }
            } else {
                None
            },
        }
    }
}

/// Decodes `n` pool entries of type `tid` starting at `pos`.
fn decode_pool_entries(
    sec: &Vec<u8>,
    pos: usize,
    reg: &Vec<TypeDef>,
    tid: u64,
    n: u64,
) -> (r: Result<(Vec<PoolEntry>, usize), JfrError>)
    requires
        pos <= sec.len(),
    ensures
        match r {
            Ok(p) => pos <= p.1 <= sec.len() && dec_pool_entries(
                sec@.skip(pos as int),
                reg_models(reg@),
                tid,
                n as nat,
            ) == Some((pool_models(p.0@), (p.1 - pos) as nat)),
            Err(e) => dec_pool_entries(
                sec@.skip(pos as int),
                reg_models(reg@),
                tid,
                n as nat,
            ) is None && (e == JfrError::Truncated || e == JfrError::IntegerOverflow || e
                == JfrError::Corrupt),
        },
{
    let ghost tail = sec@.skip(pos as int);
    let ghost regm = reg_models(reg@);
    let empty_pools: Vec<PoolEntry> = Vec::new();
    let mut out: Vec<PoolEntry> = Vec::new();
    let mut cur = pos;
    let mut k: u64 = 0;
    while k < n
        invariant
            pos <= cur <= sec.len(),
            0 <= k <= n,
            tail == sec@.skip(pos as int),
            regm == reg_models(reg@),
            empty_pools@.len() == 0,
            dec_pool_entries(sec@.skip(cur as int), regm, tid, (n - k) as nat) is None
                ==> dec_pool_entries(tail, regm, tid, n as nat) is None,
            dec_pool_entries(sec@.skip(cur as int), regm, tid, (n - k) as nat) matches Some(
                r0,
            ) ==> dec_pool_entries(tail, regm, tid, n as nat) == Some((
                pool_models(out@) + r0.0,
                ((cur - pos) + r0.1) as nat,
            )),
        decreases n - k,
    {
        let ghost tcur = sec@.skip(cur as int);
        let (cid, p1) = match varint::decode_at(sec, cur) {
            Ok(p) => p,
            Err(e) => {
                proof {
                    varint::lemma_vint_dec_len(tcur);
                    assert(vint_head(tcur) is None);
                }
                return Err(e);
            },
        };
        proof {
            assert(vint_head(tcur) == Some((cid as nat, (p1 - cur) as nat)));
            assert(tcur.skip(p1 - cur) =~= sec@.skip(p1 as int));
        }
        let rule = FieldDef { name: 0, type_id: tid, is_array: false, cp_ref: false };
        proof {
            assert(rule == entry_rule(tid));
            assert(pool_models(empty_pools@) =~= Seq::<(u64, u64, VModel)>::empty());
        }
        let (v, p2) = match decode_value(sec, p1, reg, &empty_pools, false, rule, MAX_NESTING)
            {
            Ok(p) => p,
            Err(e) => {
                proof {
                    assert(dec_pool_entries(tcur, regm, tid, (n - k) as nat) is None);
                }
                return Err(e);
            },
        };
        let entry = PoolEntry { type_id: tid, constant_id: cid, value: v };
        proof {
            assert(tcur.skip(p2 - cur) =~= sec@.skip(p2 as int));
            if dec_pool_entries(sec@.skip(p2 as int), regm, tid, (n - k - 1) as nat)
                is Some {
                let r1 = dec_pool_entries(
                    sec@.skip(p2 as int),
                    regm,
                    tid,
                    (n - k - 1) as nat,
                ).unwrap();
                assert(dec_pool_entries(tcur, regm, tid, (n - k) as nat) == Some((
                    seq![(tid, cid, val_model(v))] + r1.0,
                    (((p1 - cur) + (p2 - p1)) + r1.1) as nat,
                )));
                crate::value::lemma_pool_models_push(out@, entry);
                assert(pool_models(out@) + (seq![(tid, cid, val_model(v))] + r1.0)
                    =~= pool_models(out@.push(entry)) + r1.0);
            }
        }
        out.push(entry);
        cur = p2;
        k = k + 1;
    }
    proof {
        assert(dec_pool_entries(sec@.skip(cur as int), regm, tid, 0) == Some((
            Seq::<(u64, u64, VModel)>::empty(),
            0nat,
        )));
        assert(pool_models(out@) + Seq::<(u64, u64, VModel)>::empty() =~= pool_models(out@));
    }
    Ok((out, cur))
}

/// Decodes one pool record at `pos`: its entries, or the type id it was
/// skipped under when that id is not registered.
#[verifier::rlimit(100)]
fn decode_pool_record(sec: &Vec<u8>, pos: usize, reg: &Vec<TypeDef>) -> (r: Result<
    ((Vec<PoolEntry>, Option<Warning>), usize),
    JfrError,
>)
    requires
        pos < sec.len(),
    ensures
        match r {
            Ok(p) => {
                &&& pos < p.1 <= sec.len()
                &&& (dec_pools(sec@.skip(p.1 as int), reg_models(reg@)) is None
                    ==> dec_pools(sec@.skip(pos as int), reg_models(reg@)) is None)
                &&& (dec_pools(sec@.skip(p.1 as int), reg_models(reg@)) matches Some(r1)
                    ==> dec_pools(sec@.skip(pos as int), reg_models(reg@)) == (match p.0.1 {
                    Some(w) => Some((r1.0, seq![w->UnknownType_0] + r1.1)),
                    None => Some((pool_models(p.0.0@) + r1.0, r1.1)),
                }))
                &&& (p.0.1 is Some ==> p.0.0@.len() == 0 && p.0.1->0 matches
                    Warning::UnknownType(t))
            },
            Err(e) => dec_pools(sec@.skip(pos as int), reg_models(reg@)) is None && (e
                == JfrError::Truncated || e == JfrError::IntegerOverflow || e
                == JfrError::Corrupt),
        },
{
    let ghost tcur = sec@.skip(pos as int);
    let ghost regm = reg_models(reg@);
    let (size, p1) = match varint::decode_at(sec, pos) {
        Ok(p) => p,
        Err(e) => {
            proof {
                varint::lemma_vint_dec_len(tcur);
                assert(vint_head(tcur) is None);
            }
            return Err(e);
        },
    };
    proof {
        assert(vint_head(tcur) == Some((size as nat, (p1 - pos) as nat)));
    }
    if size < 1 || size > (sec.len() - pos) as u64 {
        return Err(JfrError::Corrupt);
    }
    let rec_end = pos + size as usize;
    let (tid, p2) = match varint::decode_at(sec, p1) {
        Ok(p) => p,
        Err(e) => {
            proof {
                varint::lemma_vint_dec_len(sec@.skip(p1 as int));
                assert(tcur.skip(p1 - pos) =~= sec@.skip(p1 as int));
                assert(vint_head(tcur.skip(p1 - pos)) is None);
            }
            return Err(e);
        },
    };
    proof {
        assert(tcur.skip(p1 - pos) =~= sec@.skip(p1 as int));
        assert(vint_head(tcur.skip(p1 - pos)) == Some((tid as nat, (p2 - p1) as nat)));
        assert(tcur.skip(size as int) =~= sec@.skip(rec_end as int));
    }
    match crate::registry::find_type(reg, tid) {
        None => {
            // Unregistered pool type: skip the whole record.
            let es: Vec<PoolEntry> = Vec::new();
            Ok(((es, Some(Warning::UnknownType(tid))), rec_end))
        },
        Some(_i) => {
            let (_ts, p3) = match varint::decode_at(sec, p2) {
                Ok(p) => p,
                Err(e) => {
                    proof {
                        varint::lemma_vint_dec_len(sec@.skip(p2 as int));
                        assert(tcur.skip(p2 - pos) =~= sec@.skip(p2 as int));
                    }
                    return Err(e);
                },
            };
            proof {
                assert(tcur.skip(p2 - pos) =~= sec@.skip(p2 as int));
            }
            let (count, p4) = match varint::decode_at(sec, p3) {
                Ok(p) => p,
                Err(e) => {
                    proof {
                        varint::lemma_vint_dec_len(sec@.skip(p3 as int));
                        assert(tcur.skip(p3 - pos) =~= sec@.skip(p3 as int));
                    }
                    return Err(e);
                },
            };
            proof {
                assert(tcur.skip(p3 - pos) =~= sec@.skip(p3 as int));
            }
            let (es, p5) = match decode_pool_entries(sec, p4, reg, tid, count) {
                Ok(p) => p,
                Err(e) => {
                    proof {
                        assert(tcur.skip(p4 - pos) =~= sec@.skip(p4 as int));
                    }
                    return Err(e);
                },
            };
            proof {
                assert(tcur.skip(p4 - pos) =~= sec@.skip(p4 as int));
            }
            if p5 > rec_end {
                // The record's entries spill past its declared size.
                return Err(JfrError::Corrupt);
            }
            Ok(((es, None), rec_end))
        },
    }
}

/// Decodes a whole constant-pool section into a raw arena (first pass):
/// references stay weak. Records of unregistered types are skipped by their
/// declared size, one `UnknownType` warning each.
pub fn decode_pool_section(sec: &Vec<u8>, reg: &Vec<TypeDef>) -> (r: Result<
    (Vec<PoolEntry>, Vec<Warning>),
    JfrError,
>)
    ensures
        match r {
            Ok(p) => dec_pools(sec@, reg_models(reg@)) matches Some(r0) && pool_models(p.0@)
                == r0.0 && p.1@ == crate::error::unknown_warns(r0.1),
            Err(e) => dec_pools(sec@, reg_models(reg@)) is None && (e == JfrError::Truncated
                || e == JfrError::IntegerOverflow || e == JfrError::Corrupt),
        },
{
    let ghost regm = reg_models(reg@);
    let mut out: Vec<PoolEntry> = Vec::new();
    let mut warns: Vec<Warning> = Vec::new();
    let mut cur: usize = 0;
    proof {
        assert(sec@.skip(0) =~= sec@);
    }
    while cur < sec.len()
        invariant
            0 <= cur <= sec.len(),
            regm == reg_models(reg@),
            dec_pools(sec@.skip(cur as int), regm) is None ==> dec_pools(sec@, regm)
                is None,
            warns@ == crate::error::unknown_warns(crate::error::warn_tids(warns@)),
            dec_pools(sec@.skip(cur as int), regm) matches Some(r0) ==> dec_pools(sec@, regm)
                matches Some(full) && full.0 == pool_models(out@) + r0.0 && full.1
                == crate::error::warn_tids(warns@) + r0.1,
        decreases sec.len() - cur,
    {
        let ((mut es, warn), rec_end) = match decode_pool_record(sec, cur, reg) {
            Ok(p) => p,
            Err(e) => {
                return Err(e);
            },
        };
        match warn {
            Some(w) => {
                proof {
                    assert(pool_models(es@) =~= Seq::<(u64, u64, VModel)>::empty());
                    crate::error::lemma_warn_tids_push(warns@, w);
                    if dec_pools(sec@.skip(rec_end as int), regm) is Some {
                        let r1 = dec_pools(sec@.skip(rec_end as int), regm).unwrap();
                        assert(pool_models(out@) + (Seq::<(u64, u64, VModel)>::empty()
                            + r1.0) =~= pool_models(out@) + r1.0);
                        assert(crate::error::warn_tids(warns@) + (seq![w->UnknownType_0]
                            + r1.1) =~= crate::error::warn_tids(warns@).push(
                            w->UnknownType_0,
                        ) + r1.1);
                    }
                    assert(warns@.push(w) =~= crate::error::unknown_warns(
                        crate::error::warn_tids(warns@).push(w->UnknownType_0),
                    ));
                }
                warns.push(w);
            },
            None => {
                let ghost prevout = out@;
                let ghost esv = es@;
                append_entries(&mut out, &mut es);
                proof {
                    lemma_pool_models_concat(prevout, esv);
                    if dec_pools(sec@.skip(rec_end as int), regm) is Some {
                        let r1 = dec_pools(sec@.skip(rec_end as int), regm).unwrap();
                        assert(pool_models(prevout) + (pool_models(esv) + r1.0)
                            =~= pool_models(out@) + r1.0);
                    }
                }
            },
        }
        cur = rec_end;
    }
    proof {
        assert(sec@.skip(sec@.len() as int) =~= Seq::<u8>::empty());
        assert(dec_pools(Seq::<u8>::empty(), regm) == Some((
            Seq::<(u64, u64, VModel)>::empty(),
            Seq::<u64>::empty(),
        )));
        assert(pool_models(out@) + Seq::<(u64, u64, VModel)>::empty() =~= pool_models(out@));
        assert(crate::error::warn_tids(warns@) + Seq::<u64>::empty() =~= crate::error::warn_tids(
            warns@,
        ));
    }
    Ok((out, warns))
}

/// Moves every entry of `src` to the end of `dst`, in order.
fn append_entries(dst: &mut Vec<PoolEntry>, src: &mut Vec<PoolEntry>)
    ensures
        final(dst)@ == old(dst)@ + old(src)@,
{
    let ghost srcv = src@;
    let mut k: usize = 0;
    let n = src.len();
    while k < n
        invariant
            0 <= k <= n,
            n == srcv.len(),
            src@ == srcv.skip(k as int),
            dst@ == old(dst)@ + srcv.take(k as int),
        decreases n - k,
    {
        let e = src.remove(0);
        proof {
            assert(srcv.skip(k as int).remove(0) =~= srcv.skip(k + 1));
            assert(e == srcv.skip(k as int)[0]);
            assert(srcv.skip(k as int)[0] == srcv[k as int]);
            assert((old(dst)@ + srcv.take(k as int)).push(srcv[k as int]) =~= old(dst)@
                + srcv.take(k + 1));
        }
        dst.push(e);
        k = k + 1;
    }
    proof {
        assert(srcv.take(n as int) =~= srcv);
    }
}

/// Concatenating arenas concatenates their models.
proof fn lemma_pool_models_concat(a: Seq<PoolEntry>, b: Seq<PoolEntry>)
    ensures
        pool_models(a + b) == pool_models(a) + pool_models(b),
    decreases b.len(),
{
    if b.len() == 0 {
        assert(a + b =~= a);
        assert(pool_models(a) + pool_models(b) =~= pool_models(a));
    } else {
        lemma_pool_models_concat(a, b.take(b.len() - 1));
        crate::value::lemma_pool_models_push(a + b.take(b.len() - 1), b.last());
        crate::value::lemma_pool_models_push(b.take(b.len() - 1), b.last());
        assert((a + b.take(b.len() - 1)).push(b.last()) =~= a + b);
        assert(b.take(b.len() - 1).push(b.last()) =~= b);
        assert(pool_models(a) + pool_models(b.take(b.len() - 1)).push(
            (b.last().type_id, b.last().constant_id, val_model(b.last().value)),
        ) =~= (pool_models(a) + pool_models(b.take(b.len() - 1))).push(
            (b.last().type_id, b.last().constant_id, val_model(b.last().value)),
        ));
    }
}

/// The elementwise full resolution of an arena against itself, with one
/// lookup of budget per arena entry.
pub open spec fn resolved_arena(arena: Seq<(u64, u64, VModel)>) -> Seq<(u64, u64, VModel)> {
    arena.map_values(|e: (u64, u64, VModel)| (e.0, e.1, resolve_model(e.2, arena, arena.len())))
}

/// Second pass: resolves every entry of the raw arena against the whole
/// arena, replacing weak references by the values they lead to, or by the
/// `Unresolved` sentinel for missing ids and cycles.
pub fn resolve_pools(arena: &Vec<PoolEntry>) -> (r: Vec<PoolEntry>)
    ensures
        pool_models(r@) == resolved_arena(pool_models(arena@)),
{
    let mut out: Vec<PoolEntry> = Vec::new();
    let mut k: usize = 0;
    let ghost am = pool_models(arena@);
    proof {
        lemma_pool_models_len(arena@);
    }
    let fuel = arena.len() as u64;
    while k < arena.len()
        invariant
            0 <= k <= arena.len(),
            am == pool_models(arena@),
            am.len() == arena@.len(),
            fuel == arena.len() as u64,
            pool_models(out@) == resolved_arena(am).take(k as int),
        decreases arena.len() - k,
    {
        let e = &arena[k];
        let rv = resolve_value(&e.value, arena, fuel);
        let entry = PoolEntry { type_id: e.type_id, constant_id: e.constant_id, value: rv };
        proof {
            lemma_pool_models_index(arena@, k as int);
            crate::value::lemma_pool_models_push(out@, entry);
            assert(resolved_arena(am)[k as int] == (
                am[k as int].0,
                am[k as int].1,
                resolve_model(am[k as int].2, am, am.len()),
            ));
            assert(resolved_arena(am).take(k + 1) =~= resolved_arena(am).take(k as int).push(
                resolved_arena(am)[k as int],
            ));
        }
        out.push(entry);
        k = k + 1;
    }
    proof {
        assert(resolved_arena(am).take(am.len() as int) =~= resolved_arena(am));
    }
    out
}

/// The model at `i` is the model of the entry at `i`.
proof fn lemma_pool_models_index(es: Seq<PoolEntry>, i: int)
    requires
        0 <= i < es.len(),
    ensures
        pool_models(es).len() == es.len(),
        pool_models(es)[i] == (es[i].type_id, es[i].constant_id, val_model(es[i].value)),
    decreases es,
{
    lemma_pool_models_len(es);
    if i > 0 {
        lemma_pool_models_index(es.skip(1), i - 1);
    } else {
        lemma_pool_models_len(es.skip(1));
    }
}

/// The models of an arena have the arena's length.
proof fn lemma_pool_models_len(es: Seq<PoolEntry>)
    ensures
        pool_models(es).len() == es.len(),
    decreases es,
{
    if es.len() > 0 {
        lemma_pool_models_len(es.skip(1));
    }
}

/// The sentinels of a whole arena, entry by entry in order.
pub open spec fn arena_unresolved(es: Seq<(u64, u64, VModel)>) -> Seq<(u64, u64)>
    decreases es,
{
    if es.len() == 0 {
        Seq::empty()
    } else {
        crate::value::unresolved_of(es[0].2) + arena_unresolved(es.skip(1))
    }
}

/// Appending an entry appends its sentinels.
proof fn lemma_arena_unresolved_push(es: Seq<(u64, u64, VModel)>, e: (u64, u64, VModel))
    ensures
        arena_unresolved(es.push(e)) == arena_unresolved(es) + crate::value::unresolved_of(
            e.2,
        ),
    decreases es,
{
    let s1 = es.push(e);
    if es.len() == 0 {
        assert(s1[0] == e);
        assert(s1.skip(1) =~= Seq::<(u64, u64, VModel)>::empty());
        assert(arena_unresolved(s1.skip(1)) == arena_unresolved(
            Seq::<(u64, u64, VModel)>::empty(),
        ));
        assert(arena_unresolved(s1) =~= arena_unresolved(es) + crate::value::unresolved_of(
            e.2,
        ));
    } else {
        assert(s1[0] == es[0]);
        assert(s1.skip(1) =~= es.skip(1).push(e));
        lemma_arena_unresolved_push(es.skip(1), e);
        assert(arena_unresolved(s1) =~= arena_unresolved(es) + crate::value::unresolved_of(
            e.2,
        ));
    }
}

/// One `UnresolvedConstant` warning per sentinel left anywhere in the
/// resolved pools, in order of appearance.
pub fn unresolved_warnings(pools: &Vec<PoolEntry>) -> (w: Vec<Warning>)
    ensures
        w@ == crate::error::unresolved_warns(arena_unresolved(pool_models(pools@))),
{
    let ghost am = pool_models(pools@);
    let mut pairs: Vec<(u64, u64)> = Vec::new();
    let mut k: usize = 0;
    proof {
        lemma_pool_models_len(pools@);
    }
    while k < pools.len()
        invariant
            0 <= k <= pools.len(),
            am == pool_models(pools@),
            am.len() == pools@.len(),
            pairs@ == arena_unresolved(am.take(k as int)),
        decreases pools.len() - k,
    {
        proof {
            lemma_pool_models_index(pools@, k as int);
            assert(am.take(k + 1) =~= am.take(k as int).push(am[k as int]));
            lemma_arena_unresolved_push(am.take(k as int), am[k as int]);
        }
        crate::value::collect_unresolved(&pools[k].value, &mut pairs);
        k = k + 1;
    }
    proof {
        assert(am.take(am.len() as int) =~= am);
    }
    let mut w: Vec<Warning> = Vec::new();
    let mut j: usize = 0;
    while j < pairs.len()
        invariant
            0 <= j <= pairs.len(),
            pairs@ == arena_unresolved(am),
            am == pool_models(pools@),
            w@ == crate::error::unresolved_warns(pairs@.take(j as int)),
        decreases pairs.len() - j,
    {
        proof {
            assert(pairs@.take(j + 1) =~= pairs@.take(j as int).push(pairs@[j as int]));
            assert(w@.push(Warning::UnresolvedConstant(pairs@[j as int].0, pairs@[
                j as int
            ].1)) =~= crate::error::unresolved_warns(pairs@.take(j + 1)));
        }
        w.push(Warning::UnresolvedConstant(pairs[j].0, pairs[j].1));
        j = j + 1;
    }
    proof {
        assert(pairs@.take(pairs@.len() as int) =~= pairs@);
    }
    w
}

} // verus!
