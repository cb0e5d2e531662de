//! Schema-driven decoding of field values and event records.
//!
//! A field's bytes are decoded by the rules its declared type carries:
//! integers as varints (zigzag when signed), floats as fixed-width
//! big-endian bytes, booleans as one byte, strings as a string-table index,
//! arrays as a count followed by that many element values, composites as
//! their fields in declaration order, and constant-pool references as a
//! varint id. References are resolved eagerly against the already-resolved
//! pools when decoding events, and left weak when decoding the pools
//! themselves. Every record is self-framing: a record with an unregistered
//! type id is skipped by its declared size and recorded as a warning, never
//! an error.

use vstd::prelude::*;

use crate::error::JfrError;
use crate::error::Warning;
use crate::header::be32;
use crate::header::be64;
use crate::header::u8_to_u32;
use crate::header::u8_to_u64;
use crate::metadata::vint_head;
use crate::registry::FieldDef;
use crate::registry::TypeDef;
use crate::registry::TypeModel;
use crate::registry::find_type;
use crate::registry::reg_find;
use crate::registry::reg_models;
use crate::value::PoolEntry;
use crate::value::VModel;
use crate::value::Value;
use crate::value::pool_find;
use crate::value::pool_models;
use crate::value::val_model;
use crate::value::val_models;
use crate::value::lemma_val_models_push;
use crate::value::lemma_val_models_len;
use crate::value::lemma_val_models_index;
use crate::varint;
use crate::varint::zigzag_dec;

verus! {

/// Reserved type id that frames the metadata section.
pub const METADATA_TYPE_ID: u64 = 0;

/// Reserved type id that frames a constant-pool section.
pub const CONSTANT_POOL_TYPE_ID: u64 = 1;

/// Composite nesting budget: deeper schemas are rejected as corrupt.
pub const MAX_NESTING: u64 = 16;

/// The scalar version of a field: the element rule of an array field.
pub open spec fn scalar_of(f: FieldDef) -> FieldDef {
    FieldDef { name: f.name, type_id: f.type_id, is_array: false, cp_ref: false }
}

/// One field value at the head of `s`, by the field's declared rules.
/// `eager` resolves constant references against `pools`; otherwise they stay
/// weak. `None` when the bytes are exhausted or malformed, the referenced
/// type is unregistered, or the nesting budget runs out.
pub open spec fn dec_value(
    s: Seq<u8>,
    reg: Seq<TypeModel>,
    pools: Seq<(u64, u64, VModel)>,
    eager: bool,
    f: FieldDef,
    fuel: nat,
) -> Option<(VModel, nat)>
    decreases s.len(), fuel, 0int, 0int,
{
    if f.cp_ref {
        match vint_head(s) {
            None => None,
            Some(h) => Some(
                (
                    if eager {
                        match pool_find(pools, f.type_id, h.0 as u64) {
                            None => VModel::Unresolved(f.type_id, h.0 as u64),
                            Some(w) => w,
                        }
                    } else {
                        VModel::ConstantRef(f.type_id, h.0 as u64)
                    },
                    h.1,
                ),
            ),
        }
    } else if f.is_array {
        match vint_head(s) {
            None => None,
            Some(h) => match dec_value_run(
                s.skip(h.1 as int),
                reg,
                pools,
                eager,
                scalar_of(f),
                fuel,
                h.0,
            ) {
                None => None,
                Some(r) => Some((VModel::Array(r.0), (h.1 + r.1) as nat)),
            },
        }
    } else {
        match reg_find(reg, f.type_id) {
            None => None,
            Some(t) => match t.kind {
                crate::registry::TypeKind::UnsignedInt => match vint_head(s) {
                    None => None,
                    Some(h) => Some((VModel::Unsigned(h.0 as u64), h.1)),
                },
                crate::registry::TypeKind::SignedInt => match vint_head(s) {
                    None => None,
                    Some(h) => Some((VModel::Integer(zigzag_dec(h.0) as i64), h.1)),
                },
                crate::registry::TypeKind::Boolean => if s.len() >= 1 {
                    Some((VModel::Boolean(s[0] != 0), 1))
                } else {
                    None
                },
                crate::registry::TypeKind::Float32 => if s.len() >= 4 {
                    Some((VModel::FloatBits(be32(s, 0) as u64), 4))
                } else {
                    None
                },
                crate::registry::TypeKind::Float64 => if s.len() >= 8 {
                    Some((VModel::FloatBits(be64(s, 0) as u64), 8))
                } else {
                    None
                },
                crate::registry::TypeKind::StringIndex => match vint_head(s) {
                    None => None,
                    Some(h) => Some((VModel::Str(h.0 as u64), h.1)),
                },
                crate::registry::TypeKind::Composite => if fuel == 0 {
                    None
                } else {
                    match dec_field_vals(s, reg, pools, eager, t.fields, (fuel - 1) as nat) {
                        None => None,
                        Some(r) => Some((VModel::Array(r.0), r.1)),
                    }
                },
            },
        }
    }
}

/// `n` consecutive values of one field rule at the head of `s`.
pub open spec fn dec_value_run(
    s: Seq<u8>,
    reg: Seq<TypeModel>,
    pools: Seq<(u64, u64, VModel)>,
    eager: bool,
    f: FieldDef,
    fuel: nat,
    n: nat,
) -> Option<(Seq<VModel>, nat)>
    decreases s.len(), fuel, 1int, n,
{
    if n == 0 {
        Some((Seq::empty(), 0))
    } else {
        match dec_value(s, reg, pools, eager, f, fuel) {
            None => None,
            Some(v) => if v.1 <= s.len() {
                match dec_value_run(
                    s.skip(v.1 as int),
                    reg,
                    pools,
                    eager,
                    f,
                    fuel,
                    (n - 1) as nat,
                ) {
                    None => None,
                    Some(rest) => Some((seq![v.0] + rest.0, (v.1 + rest.1) as nat)),
                }
            } else {
                None
            },
        }
    }
}

/// The values of a run of declared fields, in declaration order, at the
/// head of `s`.
pub open spec fn dec_field_vals(
    s: Seq<u8>,
    reg: Seq<TypeModel>,
    pools: Seq<(u64, u64, VModel)>,
    eager: bool,
    flds: Seq<FieldDef>,
    fuel: nat,
) -> Option<(Seq<VModel>, nat)>
    decreases s.len(), fuel, 1int, flds.len(),
{
    if flds.len() == 0 {
        Some((Seq::empty(), 0))
    } else {
        match dec_value(s, reg, pools, eager, flds[0], fuel) {
            None => None,
            Some(v) => if v.1 <= s.len() {
                match dec_field_vals(
                    s.skip(v.1 as int),
                    reg,
                    pools,
                    eager,
                    flds.skip(1),
                    fuel,
                ) {
                    None => None,
                    Some(rest) => Some((seq![v.0] + rest.0, (v.1 + rest.1) as nat)),
                }
            } else {
                None
            },
        }
    }
}

/// Decodes one field value at `pos` by its declared rules.
#[verifier::rlimit(100)]
pub fn decode_value(
    data: &Vec<u8>,
    pos: usize,
    reg: &Vec<TypeDef>,
    pools: &Vec<PoolEntry>,
    eager: bool,
    f: FieldDef,
    fuel: u64,
) -> (r: Result<(Value, usize), JfrError>)
    requires
        pos <= data.len(),
    ensures
        match r {
            Ok(p) => pos <= p.1 <= data.len() && dec_value(
                data@.skip(pos as int),
                reg_models(reg@),
                pool_models(pools@),
                eager,
                f,
                fuel as nat,
            ) == Some((val_model(p.0), (p.1 - pos) as nat)),
            Err(e) => dec_value(
                data@.skip(pos as int),
                reg_models(reg@),
                pool_models(pools@),
                eager,
                f,
                fuel as nat,
            ) is None && (e == JfrError::Truncated || e == JfrError::IntegerOverflow || e
                == JfrError::Corrupt),
        },
    decreases data.len() - pos, fuel as nat, 0int, 0int,
{
    let ghost tail = data@.skip(pos as int);
    if f.cp_ref {
        let (id, end) = match varint::decode_at(data, pos) {
            Ok(p) => p,
            Err(e) => {
                proof {
                    varint::lemma_vint_dec_len(tail);
                    assert(vint_head(tail) is None);
                }
                return Err(e);
            },
        };
        proof {
            assert(vint_head(tail) == Some((id as nat, (end - pos) as nat)));
        }
        if eager {
            match crate::value::find_entry(pools, f.type_id, id) {
                None => Ok((Value::Unresolved(f.type_id, id), end)),
                Some(i) => {
                    let w = crate::value::copy_value(&pools[i].value);
                    Ok((w, end))
                },
            }
        } else {
            Ok((Value::ConstantRef(f.type_id, id), end))
        }
    } else if f.is_array {
        let (count, end) = match varint::decode_at(data, pos) {
            Ok(p) => p,
            Err(e) => {
                proof {
                    varint::lemma_vint_dec_len(tail);
                    assert(vint_head(tail) is None);
                }
                return Err(e);
            },
        };
        proof {
            assert(vint_head(tail) == Some((count as nat, (end - pos) as nat)));
            assert(tail.skip(end - pos) =~= data@.skip(end as int));
        }
        let f2 = FieldDef { name: f.name, type_id: f.type_id, is_array: false, cp_ref: false };
        proof {
            assert(f2 == scalar_of(f));
        }
        match decode_value_run(data, end, reg, pools, eager, f2, fuel, count) {
            Ok((vs, end2)) => Ok((Value::Array(vs), end2)),
            Err(e) => Err(e),
        }
    } else {
        let ti = match find_type(reg, f.type_id) {
            None => {
                return Err(JfrError::Corrupt);
            },
            Some(i) => i,
        };
        let kind = reg[ti].kind;
        match kind {
            crate::registry::TypeKind::UnsignedInt => {
                let (v, end) = match varint::decode_at(data, pos) {
                    Ok(p) => p,
                    Err(e) => {
                        proof {
                            varint::lemma_vint_dec_len(tail);
                            assert(vint_head(tail) is None);
                        }
                        return Err(e);
                    },
                };
                proof {
                    assert(vint_head(tail) == Some((v as nat, (end - pos) as nat)));
                }
                Ok((Value::Unsigned(v), end))
            },
            crate::registry::TypeKind::SignedInt => {
                let (v, end) = match varint::decode_signed_at(data, pos) {
                    Ok(p) => p,
                    Err(e) => {
                        proof {
                            varint::lemma_vint_dec_len(tail);
                            assert(vint_head(tail) is None);
                        }
                        return Err(e);
                    },
                };
                proof {
                    varint::lemma_vint_dec_len(tail);
                    let w = crate::varint::vint_dec(tail).unwrap();
                    assert(vint_head(tail) == Some((w.0, w.1 as nat)));
                    assert(v as int == zigzag_dec(w.0));
                    assert(v == zigzag_dec(w.0) as i64);
                }
                Ok((Value::Integer(v), end))
            },
            crate::registry::TypeKind::Boolean => {
                if data.len() - pos < 1 {
                    return Err(JfrError::Truncated);
                }
                let b = data[pos];
                proof {
                    assert(tail[0] == data@[pos as int]);
                }
                Ok((Value::Boolean(b != 0), pos + 1))
            },
            crate::registry::TypeKind::Float32 => {
                if data.len() - pos < 4 {
                    return Err(JfrError::Truncated);
                }
                let bits = u8_to_u32(data, pos);
                proof {
                    lemma_be_tail(data@, pos as int, 4);
                }
                Ok((Value::FloatBits(bits as u64), pos + 4))
            },
            crate::registry::TypeKind::Float64 => {
                if data.len() - pos < 8 {
                    return Err(JfrError::Truncated);
                }
                let bits = u8_to_u64(data, pos);
                proof {
                    lemma_be_tail(data@, pos as int, 8);
                }
                Ok((Value::FloatBits(bits), pos + 8))
            },
            crate::registry::TypeKind::StringIndex => {
                let (v, end) = match varint::decode_at(data, pos) {
                    Ok(p) => p,
                    Err(e) => {
                        proof {
                            varint::lemma_vint_dec_len(tail);
                            assert(vint_head(tail) is None);
                        }
                        return Err(e);
                    },
                };
                proof {
                    assert(vint_head(tail) == Some((v as nat, (end - pos) as nat)));
                }
                Ok((Value::Str(v), end))
            },
            crate::registry::TypeKind::Composite => {
                if fuel == 0 {
                    return Err(JfrError::Corrupt);
                }
                let flds = &reg[ti].fields;
                match decode_field_vals(data, pos, reg, pools, eager, flds, fuel - 1) {
                    Ok((vs, end)) => Ok((Value::Array(vs), end)),
                    Err(e) => Err(e),
                }
            },
        }
    }
}

/// Big-endian reads at the head of a suffix agree with reads in the source.
proof fn lemma_be_tail(s: Seq<u8>, pos: int, n: int)
    requires
        0 <= pos,
        pos + n <= s.len(),
        n == 4 || n == 8,
    ensures
        n == 4 ==> be32(s.skip(pos), 0) == be32(s, pos),
        n == 8 ==> be64(s.skip(pos), 0) == be64(s, pos),
{
    let t = s.skip(pos);
    assert(forall|j: int| 0 <= j < n ==> t[j] == s[pos + j]);
}

/// Decodes `n` consecutive values of one field rule starting at `pos`.
pub fn decode_value_run(
    data: &Vec<u8>,
    pos: usize,
    reg: &Vec<TypeDef>,
    pools: &Vec<PoolEntry>,
    eager: bool,
    f: FieldDef,
    fuel: u64,
    n: u64,
) -> (r: Result<(Vec<Value>, usize), JfrError>)
    requires
        pos <= data.len(),
    ensures
        match r {
            Ok(p) => pos <= p.1 <= data.len() && dec_value_run(
                data@.skip(pos as int),
                reg_models(reg@),
                pool_models(pools@),
                eager,
                f,
                fuel as nat,
                n as nat,
            ) == Some((val_models(p.0@), (p.1 - pos) as nat)),
            Err(e) => dec_value_run(
                data@.skip(pos as int),
                reg_models(reg@),
                pool_models(pools@),
                eager,
                f,
                fuel as nat,
                n as nat,
            ) is None && (e == JfrError::Truncated || e == JfrError::IntegerOverflow || e
                == JfrError::Corrupt),
        },
    decreases data.len() - pos, fuel as nat, 1int, n as nat,
{
    let ghost tail = data@.skip(pos as int);
    let ghost regm = reg_models(reg@);
    let ghost poolm = pool_models(pools@);
    let mut out: Vec<Value> = Vec::new();
    let mut cur = pos;
    let mut k: u64 = 0;
    while k < n
        invariant
            pos <= cur <= data.len(),
            0 <= k <= n,
            tail == data@.skip(pos as int),
            regm == reg_models(reg@),
            poolm == pool_models(pools@),
            dec_value_run(data@.skip(cur as int), regm, poolm, eager, f, fuel as nat, (n
                - k) as nat) is None ==> dec_value_run(
                tail,
                regm,
                poolm,
                eager,
                f,
                fuel as nat,
                n as nat,
            ) is None,
            dec_value_run(data@.skip(cur as int), regm, poolm, eager, f, fuel as nat, (n
                - k) as nat) matches Some(r0) ==> dec_value_run(
                tail,
                regm,
                poolm,
                eager,
                f,
                fuel as nat,
                n as nat,
            ) == Some((val_models(out@) + r0.0, ((cur - pos) + r0.1) as nat)),
        decreases n - k,
    {
        let ghost tcur = data@.skip(cur as int);
        let (v, end) = match decode_value(data, cur, reg, pools, eager, f, fuel) {
            Ok(p) => p,
            Err(e) => {
                proof {
                    assert(dec_value_run(tcur, regm, poolm, eager, f, fuel as nat, (n
                        - k) as nat) is None);
                }
                return Err(e);
            },
        };
        proof {
            assert(tcur.skip(end - cur) =~= data@.skip(end as int));
            if dec_value_run(data@.skip(end as int), regm, poolm, eager, f, fuel as nat, (n
                - k - 1) as nat) is Some {
                let r1 = dec_value_run(
                    data@.skip(end as int),
                    regm,
                    poolm,
                    eager,
                    f,
                    fuel as nat,
                    (n - k - 1) as nat,
                ).unwrap();
                assert(dec_value_run(tcur, regm, poolm, eager, f, fuel as nat, (n - k) as nat)
                    == Some((seq![val_model(v)] + r1.0, ((end - cur) + r1.1) as nat)));
                lemma_val_models_push(out@, v);
                assert(val_models(out@) + (seq![val_model(v)] + r1.0) =~= val_models(
                    out@.push(v),
                ) + r1.0);
            }
        }
        out.push(v);
        cur = end;
        k = k + 1;
    }
    proof {
        assert(dec_value_run(data@.skip(cur as int), regm, poolm, eager, f, fuel as nat, 0)
            == Some((Seq::<VModel>::empty(), 0nat)));
        assert(val_models(out@) + Seq::<VModel>::empty() =~= val_models(out@));
    }
    Ok((out, cur))
}

/// Decodes the values of a run of declared fields starting at `pos`.
pub fn decode_field_vals(
    data: &Vec<u8>,
    pos: usize,
    reg: &Vec<TypeDef>,
    pools: &Vec<PoolEntry>,
    eager: bool,
    flds: &Vec<FieldDef>,
    fuel: u64,
) -> (r: Result<(Vec<Value>, usize), JfrError>)
    requires
        pos <= data.len(),
    ensures
        match r {
            Ok(p) => pos <= p.1 <= data.len() && p.0.len() == flds.len() && dec_field_vals(
                data@.skip(pos as int),
                reg_models(reg@),
                pool_models(pools@),
                eager,
                flds@,
                fuel as nat,
            ) == Some((val_models(p.0@), (p.1 - pos) as nat)),
            Err(e) => dec_field_vals(
                data@.skip(pos as int),
                reg_models(reg@),
                pool_models(pools@),
                eager,
                flds@,
                fuel as nat,
            ) is None && (e == JfrError::Truncated || e == JfrError::IntegerOverflow || e
                == JfrError::Corrupt),
        },
    decreases data.len() - pos, fuel as nat, 1int, flds.len(),
{
    let ghost regm = reg_models(reg@);
    let ghost poolm = pool_models(pools@);
    let ghost tail = data@.skip(pos as int);
    let mut out: Vec<Value> = Vec::new();
    let mut cur = pos;
    let mut k: usize = 0;
    proof {
        assert(flds@.skip(0) =~= flds@);
    }
    while k < flds.len()
        invariant
            pos <= cur <= data.len(),
            0 <= k <= flds.len(),
            out.len() == k,
            tail == data@.skip(pos as int),
            regm == reg_models(reg@),
            poolm == pool_models(pools@),
            dec_field_vals(data@.skip(cur as int), regm, poolm, eager, flds@.skip(
                k as int,
            ), fuel as nat) is None ==> dec_field_vals(
                tail,
                regm,
                poolm,
                eager,
                flds@,
                fuel as nat,
            ) is None,
            dec_field_vals(data@.skip(cur as int), regm, poolm, eager, flds@.skip(
                k as int,
            ), fuel as nat) matches Some(r0) ==> dec_field_vals(
                tail,
                regm,
                poolm,
                eager,
                flds@,
                fuel as nat,
            ) == Some((val_models(out@) + r0.0, ((cur - pos) + r0.1) as nat)),
        decreases flds.len() - k,
    {
        let ghost tcur = data@.skip(cur as int);
        let ghost fsk = flds@.skip(k as int);
        proof {
            assert(fsk[0] == flds@[k as int]);
            assert(fsk.skip(1) =~= flds@.skip(k + 1));
        }
        let (v, end) = match decode_value(data, cur, reg, pools, eager, flds[k], fuel) {
            Ok(p) => p,
            Err(e) => {
                proof {
                    assert(dec_field_vals(tcur, regm, poolm, eager, fsk, fuel as nat)
                        is None);
                }
                return Err(e);
            },
        };
        proof {
            assert(tcur.skip(end - cur) =~= data@.skip(end as int));
            if dec_field_vals(data@.skip(end as int), regm, poolm, eager, flds@.skip(k + 1),
                fuel as nat) is Some {
                let r1 = dec_field_vals(
                    data@.skip(end as int),
                    regm,
                    poolm,
                    eager,
                    flds@.skip(k + 1),
                    fuel as nat,
                ).unwrap();
                assert(dec_field_vals(tcur, regm, poolm, eager, fsk, fuel as nat) == Some((
                    seq![val_model(v)] + r1.0,
                    ((end - cur) + r1.1) as nat,
                )));
                lemma_val_models_push(out@, v);
                assert(val_models(out@) + (seq![val_model(v)] + r1.0) =~= val_models(
                    out@.push(v),
                ) + r1.0);
            }
        }
        out.push(v);
        cur = end;
        k = k + 1;
    }
    proof {
        assert(flds@.skip(flds@.len() as int) =~= Seq::<FieldDef>::empty());
        assert(dec_field_vals(data@.skip(cur as int), regm, poolm, eager, flds@.skip(
            flds@.len() as int,
        ), fuel as nat) == Some((Seq::<VModel>::empty(), 0nat)));
        assert(val_models(out@) + Seq::<VModel>::empty() =~= val_models(out@));
    }
    Ok((out, cur))
}

/// One decoded event record: its type id, its timestamp, and one
/// (field-name index, value) pair per declared field, in order.
#[derive(Debug, PartialEq, Eq)]
pub struct Event {
    pub type_id: u64,
    pub timestamp: u64,
    pub fields: Vec<(u64, Value)>,
}

impl Event {
    /// An event record with no fields yet.
    pub fn new(type_id: u64, timestamp: u64) -> (e: Event)
        ensures
            e.type_id == type_id,
            e.timestamp == timestamp,
            e.fields@ == Seq::<(u64, Value)>::empty(),
    {
        Event { type_id, timestamp, fields: Vec::new() }
    }
}

/// The timestamp an event reports: the value of its first field when that
/// field decoded to an integer, and 0 otherwise. The wire format does not
/// name a timestamp field; this library's convention follows the usual
/// layout, where a record's first field carries its start time.
pub open spec fn ts_of(vals: Seq<VModel>) -> u64 {
    if vals.len() > 0 {
        match vals[0] {
            VModel::Unsigned(x) => x,
            VModel::Integer(x) => x as u64,
            _ => 0u64,
        }
    } else {
        0u64
    }
}

/// The models of a run of (name, value) pairs.
pub open spec fn pair_models(ps: Seq<(u64, Value)>) -> Seq<(u64, VModel)>
    decreases ps,
{
    if ps.len() == 0 {
        Seq::empty()
    } else {
        seq![(ps[0].0, val_model(ps[0].1))] + pair_models(ps.skip(1))
    }
}

/// Field names zipped with decoded values, in declaration order.
pub open spec fn zip_names(flds: Seq<FieldDef>, vals: Seq<VModel>) -> Seq<(u64, VModel)>
    decreases flds.len(),
{
    if flds.len() == 0 || vals.len() == 0 {
        Seq::empty()
    } else {
        seq![(flds[0].name, vals[0])] + zip_names(flds.skip(1), vals.skip(1))
    }
}

/// The model of one event record.
pub open spec fn event_model(e: Event) -> (u64, u64, Seq<(u64, VModel)>) {
    (e.type_id, e.timestamp, pair_models(e.fields@))
}

/// The models of a run of event records.
pub open spec fn event_models(es: Seq<Event>) -> Seq<(u64, u64, Seq<(u64, VModel)>)>
    decreases es,
{
    if es.len() == 0 {
        Seq::empty()
    } else {
        seq![event_model(es[0])] + event_models(es.skip(1))
    }
}

/// The events and skipped type ids an event section declares, walking its
/// self-framing records: reserved markers are passed over silently,
/// unregistered type ids are skipped and reported, registered records are
/// decoded by their schema with references resolved against `pools`.
pub open spec fn dec_events(
    s: Seq<u8>,
    reg: Seq<TypeModel>,
    pools: Seq<(u64, u64, VModel)>,
) -> Option<(Seq<(u64, u64, Seq<(u64, VModel)>)>, Seq<u64>)>
    decreases s.len(),
{
    if s.len() == 0 {
        Some((Seq::empty(), Seq::empty()))
    } else {
        match vint_head(s) {
            None => None,
            Some(h0) => if 1 <= h0.0 <= s.len() {
                match vint_head(s.skip(h0.1 as int)) {
                    None => None,
                    Some(h1) => match dec_events(s.skip(h0.0 as int), reg, pools) {
                        None => None,
                        Some(rest) => {
                            let tid = h1.0 as u64;
                            if tid == METADATA_TYPE_ID || tid == CONSTANT_POOL_TYPE_ID {
                                Some(rest)
                            } else {
                                match reg_find(reg, tid) {
                                    None => Some((rest.0, seq![tid] + rest.1)),
                                    Some(t) => match dec_field_vals(
                                        s.skip((h0.1 + h1.1) as int),
                                        reg,
                                        pools,
                                        true,
                                        t.fields,
                                        MAX_NESTING as nat,
                                    ) {
                                        None => None,
                                        Some(fv) => if h0.1 + h1.1 + fv.1 <= h0.0 {
                                            Some((
                                                seq![
                                                    (
                                                        tid,
                                                        ts_of(fv.0),
                                                        zip_names(t.fields, fv.0),
                                                    ),
                                                ] + rest.0,
                                                rest.1,
                                            ))
                                        } else {
                                            None
                                        },
                                    },
                                }
                            }
                        },
                    },
                }
            } else {
                None
            },
        }
    }
}

/// Pairs field names with their decoded values.
fn zip_fields(flds: &Vec<FieldDef>, vals: Vec<Value>) -> (r: Vec<(u64, Value)>)
    requires
        flds.len() == vals.len(),
    ensures
        pair_models(r@) == zip_names(flds@, val_models(vals@)),
{
    let ghost vm = val_models(vals@);
    let ghost valsv = vals@;
    let mut vals = vals;
    let mut out: Vec<(u64, Value)> = Vec::new();
    let mut k: usize = 0;
    proof {
        lemma_val_models_len(valsv);
        assert(flds@.skip(0) =~= flds@);
        assert(vm.skip(0) =~= vm);
        assert(valsv.skip(0) =~= valsv);
    }
    while k < flds.len()
        invariant
            0 <= k <= flds.len(),
            flds@.len() == valsv.len(),
            vm == val_models(valsv),
            vm.len() == valsv.len(),
            vals@ == valsv.skip(k as int),
            pair_models(out@) + zip_names(flds@.skip(k as int), vm.skip(k as int))
                == zip_names(flds@, vm),
        decreases flds.len() - k,
    {
        let v = vals.remove(0);
        proof {
            assert(valsv.skip(k as int).remove(0) =~= valsv.skip(k + 1));
            assert(v == valsv.skip(k as int)[0]);
            assert(valsv.skip(k as int)[0] == valsv[k as int]);
            lemma_val_models_index(valsv, k as int);
            assert(vm.skip(k as int)[0] == vm[k as int]);
            assert(vm.skip(k as int).skip(1) =~= vm.skip(k + 1));
            assert(flds@.skip(k as int)[0] == flds@[k as int]);
            assert(flds@.skip(k as int).skip(1) =~= flds@.skip(k + 1));
            assert(zip_names(flds@.skip(k as int), vm.skip(k as int)) == seq![
                (flds@[k as int].name, vm[k as int]),
            ] + zip_names(flds@.skip(k + 1), vm.skip(k + 1)));
            lemma_pair_models_push(out@, (flds@[k as int].name, valsv[k as int]));
            assert(pair_models(out@.push((flds@[k as int].name, valsv[k as int])))
                =~= pair_models(out@).push((flds@[k as int].name, vm[k as int])));
            assert((pair_models(out@) + (seq![(flds@[k as int].name, vm[k as int])]
                + zip_names(flds@.skip(k + 1), vm.skip(k + 1)))) =~= (pair_models(
                out@,
            ).push((flds@[k as int].name, vm[k as int])) + zip_names(
                flds@.skip(k + 1),
                vm.skip(k + 1),
            )));
        }
        out.push((flds[k].name, v));
        k = k + 1;
    }
    proof {
        assert(flds@.skip(flds@.len() as int) =~= Seq::<FieldDef>::empty());
        assert(zip_names(Seq::<FieldDef>::empty(), vm.skip(flds@.len() as int))
            == Seq::<(u64, VModel)>::empty());
        assert(pair_models(out@) + Seq::<(u64, VModel)>::empty() =~= pair_models(out@));
    }
    out
}

/// Appending a pair appends its model.
proof fn lemma_pair_models_push(ps: Seq<(u64, Value)>, p: (u64, Value))
    ensures
        pair_models(ps.push(p)) == pair_models(ps).push((p.0, val_model(p.1))),
    decreases ps,
{
    let s1 = ps.push(p);
    if ps.len() == 0 {
        assert(s1[0] == p);
        assert(s1.skip(1) =~= Seq::<(u64, Value)>::empty());
        assert(pair_models(s1.skip(1)) == pair_models(Seq::<(u64, Value)>::empty()));
        assert(pair_models(s1) =~= pair_models(ps).push((p.0, val_model(p.1))));
    } else {
        assert(s1[0] == ps[0]);
        assert(s1.skip(1) =~= ps.skip(1).push(p));
        lemma_pair_models_push(ps.skip(1), p);
        assert(pair_models(s1) =~= pair_models(ps).push((p.0, val_model(p.1))));
    }
}

/// Decodes one event record at `pos`: the event, or the type id it was
/// skipped under, or neither for the reserved section markers. This is the
/// lazy, on-demand entry: a caller holding the section bytes may pull one
/// record at a time from any reached offset, in increasing offset order,
/// and stop whenever it likes, instead of materializing the whole run.
#[verifier::rlimit(100)]
pub fn decode_event_record(
    sec: &Vec<u8>,
    pos: usize,
    reg: &Vec<TypeDef>,
    pools: &Vec<PoolEntry>,
) -> (r: Result<((Option<Event>, Option<Warning>), usize), JfrError>)
    requires
        pos < sec.len(),
    ensures
        match r {
            Ok(p) => {
                &&& pos < p.1 <= sec.len()
                &&& (dec_events(sec@.skip(p.1 as int), reg_models(reg@), pool_models(
                    pools@,
                )) is None ==> dec_events(
                    sec@.skip(pos as int),
                    reg_models(reg@),
                    pool_models(pools@),
                ) is None)
                &&& (dec_events(sec@.skip(p.1 as int), reg_models(reg@), pool_models(
                    pools@,
                )) matches Some(r1) ==> dec_events(
                    sec@.skip(pos as int),
                    reg_models(reg@),
                    pool_models(pools@),
                ) == (match (p.0.0, p.0.1) {
                    (Some(e), None) => Some((seq![event_model(e)] + r1.0, r1.1)),
                    (None, Some(w)) => Some((r1.0, seq![w->UnknownType_0] + r1.1)),
                    _ => Some(r1),
                }))
                &&& !(p.0.0 is Some && p.0.1 is Some)
                &&& (p.0.1 is Some ==> p.0.1->0 matches Warning::UnknownType(t))
            },
            Err(e) => dec_events(
                sec@.skip(pos as int),
                reg_models(reg@),
                pool_models(pools@),
            ) is None && (e == JfrError::Truncated || e == JfrError::IntegerOverflow || e
                == JfrError::Corrupt),
        },
{
    let ghost tcur = sec@.skip(pos as int);
    let ghost regm = reg_models(reg@);
    let ghost poolm = pool_models(pools@);
    let (size, p1) = match varint::decode_at(sec, pos) {
        Ok(p) => p,
        Err(e) => {
            proof {
                varint::lemma_vint_dec_len(tcur);
                assert(vint_head(tcur) is None);
            }
            return Err(e);
        },
    };
    proof {
        assert(vint_head(tcur) == Some((size as nat, (p1 - pos) as nat)));
    }
    if size < 1 || size > (sec.len() - pos) as u64 {
        return Err(JfrError::Corrupt);
    }
    let rec_end = pos + size as usize;
    let (tid, p2) = match varint::decode_at(sec, p1) {
        Ok(p) => p,
        Err(e) => {
            proof {
                varint::lemma_vint_dec_len(sec@.skip(p1 as int));
                assert(tcur.skip(p1 - pos) =~= sec@.skip(p1 as int));
                assert(vint_head(tcur.skip(p1 - pos)) is None);
            }
            return Err(e);
        },
    };
    proof {
        assert(tcur.skip(p1 - pos) =~= sec@.skip(p1 as int));
        assert(vint_head(tcur.skip(p1 - pos)) == Some((tid as nat, (p2 - p1) as nat)));
        assert(tcur.skip(size as int) =~= sec@.skip(rec_end as int));
    }
    if tid == METADATA_TYPE_ID || tid == CONSTANT_POOL_TYPE_ID {
        // An already-parsed section record: skip its remaining bytes.
        return Ok(((None, None), rec_end));
    }
    let ti = match find_type(reg, tid) {
        None => {
            return Ok(((None, Some(Warning::UnknownType(tid))), rec_end));
        },
        Some(i) => i,
    };
    let flds = &reg[ti].fields;
    let (vals, p3) = match decode_field_vals(sec, p2, reg, pools, true, flds, MAX_NESTING) {
        Ok(p) => p,
        Err(e) => {
            proof {
                assert(tcur.skip(p2 - pos) =~= sec@.skip(p2 as int));
            }
            return Err(e);
        },
    };
    proof {
        assert(tcur.skip(p2 - pos) =~= sec@.skip(p2 as int));
    }
    if p3 > rec_end {
        // The record's fields spill past its declared self-inclusive size.
        return Err(JfrError::Corrupt);
    }
    let ghost valsv = val_models(vals@);
    let timestamp: u64 = if vals.len() > 0 {
        match &vals[0] {
            Value::Unsigned(x) => *x,
            Value::Integer(x) => *x as u64,
            _ => 0u64,
        }
    } else {
        0u64
    };
    proof {
        lemma_val_models_len(vals@);
        if vals@.len() > 0 {
            lemma_val_models_index(vals@, 0);
        }
        assert(timestamp == ts_of(valsv));
    }
    let pairs = zip_fields(flds, vals);
    let e = Event { type_id: tid, timestamp, fields: pairs };
    Ok(((Some(e), None), rec_end))
}

/// Decodes a whole event section: an order-preserving run of records,
/// skipping reserved markers silently and unregistered type ids with one
/// `UnknownType` warning each; every `Unresolved` sentinel substituted
/// during eager reference resolution is reported as an
/// `UnresolvedConstant` warning after the walk. Any malformed record is
/// fatal for the chunk.
pub fn decode_event_section(
    sec: &Vec<u8>,
    reg: &Vec<TypeDef>,
    pools: &Vec<PoolEntry>,
) -> (r: Result<(Vec<Event>, Vec<Warning>), JfrError>)
    ensures
        match r {
            Ok(p) => dec_events(sec@, reg_models(reg@), pool_models(pools@)) matches Some(
                r0,
            ) && event_models(p.0@) == r0.0 && p.1@ == crate::error::unknown_warns(r0.1)
                + crate::error::unresolved_warns(events_unresolved(r0.0)),
            Err(e) => dec_events(sec@, reg_models(reg@), pool_models(pools@)) is None && (e
                == JfrError::Truncated || e == JfrError::IntegerOverflow || e
                == JfrError::Corrupt),
        },
{
    let ghost regm = reg_models(reg@);
    let ghost poolm = pool_models(pools@);
    let mut evts: Vec<Event> = Vec::new();
    let mut warns: Vec<Warning> = Vec::new();
    let mut cur: usize = 0;
    proof {
        assert(sec@.skip(0) =~= sec@);
    }
    while cur < sec.len()
        invariant
            0 <= cur <= sec.len(),
            regm == reg_models(reg@),
            poolm == pool_models(pools@),
            dec_events(sec@.skip(cur as int), regm, poolm) is None ==> dec_events(
                sec@,
                regm,
                poolm,
            ) is None,
            warns@ == crate::error::unknown_warns(crate::error::warn_tids(warns@)),
            dec_events(sec@.skip(cur as int), regm, poolm) matches Some(r0) ==> dec_events(
                sec@,
                regm,
                poolm,
            ) matches Some(full) && full.0 == event_models(evts@) + r0.0 && full.1
                == crate::error::warn_tids(warns@) + r0.1,
        decreases sec.len() - cur,
    {
        let ((evt, warn), rec_end) = match decode_event_record(sec, cur, reg, pools) {
            Ok(p) => p,
            Err(e) => {
                return Err(e);
            },
        };
        match evt {
            Some(e) => {
                proof {
                    lemma_event_models_push(evts@, e);
                    if dec_events(sec@.skip(rec_end as int), regm, poolm) is Some {
                        let r1 = dec_events(sec@.skip(rec_end as int), regm, poolm).unwrap();
                        assert(event_models(evts@) + (seq![event_model(e)] + r1.0)
                            =~= event_models(evts@.push(e)) + r1.0);
                    }
                }
                evts.push(e);
            },
            None => {
                match warn {
                    Some(w) => {
                        proof {
                            crate::error::lemma_warn_tids_push(warns@, w);
                            if dec_events(sec@.skip(rec_end as int), regm, poolm) is Some {
                                let r1 = dec_events(
                                    sec@.skip(rec_end as int),
                                    regm,
                                    poolm,
                                ).unwrap();
                                assert(crate::error::warn_tids(warns@) + (seq![
                                    w->UnknownType_0,
                                ] + r1.1) =~= crate::error::warn_tids(warns@).push(
                                    w->UnknownType_0,
                                ) + r1.1);
                            }
                            assert(warns@.push(w) =~= crate::error::unknown_warns(
                                crate::error::warn_tids(warns@).push(w->UnknownType_0),
                            ));
                        }
                        warns.push(w);
                    },
                    None => {
                    },
                }
            },
        }
        cur = rec_end;
    }
    proof {
        assert(sec@.skip(sec@.len() as int) =~= Seq::<u8>::empty());
        assert(dec_events(Seq::<u8>::empty(), regm, poolm) == Some((
            Seq::<(u64, u64, Seq<(u64, VModel)>)>::empty(),
            Seq::<u64>::empty(),
        )));
        assert(event_models(evts@) + Seq::<(u64, u64, Seq<(u64, VModel)>)>::empty()
            =~= event_models(evts@));
        assert(crate::error::warn_tids(warns@) + Seq::<u64>::empty() =~= crate::error::warn_tids(
            warns@,
        ));
    }
    let pairs = event_unresolved_pairs(&evts);
    let ghost prevw = warns@;
    let mut j: usize = 0;
    while j < pairs.len()
        invariant
            0 <= j <= pairs.len(),
            prevw == warns@.take(prevw.len() as int) && prevw.len() <= warns@.len(),
            warns@ == prevw + crate::error::unresolved_warns(pairs@.take(j as int)),
        decreases pairs.len() - j,
    {
        proof {
            assert(pairs@.take(j + 1) =~= pairs@.take(j as int).push(pairs@[j as int]));
            assert(warns@.push(Warning::UnresolvedConstant(pairs@[j as int].0, pairs@[
                j as int
            ].1)) =~= prevw + crate::error::unresolved_warns(pairs@.take(j + 1)));
        }
        warns.push(Warning::UnresolvedConstant(pairs[j].0, pairs[j].1));
        j = j + 1;
    }
    proof {
        assert(pairs@.take(pairs@.len() as int) =~= pairs@);
    }
    Ok((evts, warns))
}

/// The (type id, constant id) pairs of every sentinel left in a run of
/// field pairs, in order.
pub open spec fn pairs_unresolved(ps: Seq<(u64, VModel)>) -> Seq<(u64, u64)>
    decreases ps,
{
    if ps.len() == 0 {
        Seq::empty()
    } else {
        crate::value::unresolved_of(ps[0].1) + pairs_unresolved(ps.skip(1))
    }
}

/// Appending a pair appends its sentinels.
proof fn lemma_pairs_unresolved_push(ps: Seq<(u64, VModel)>, p: (u64, VModel))
    ensures
        pairs_unresolved(ps.push(p)) == pairs_unresolved(ps) + crate::value::unresolved_of(
            p.1,
        ),
    decreases ps,
{
    let s1 = ps.push(p);
    if ps.len() == 0 {
        assert(s1[0] == p);
        assert(s1.skip(1) =~= Seq::<(u64, VModel)>::empty());
        assert(pairs_unresolved(s1.skip(1)) == pairs_unresolved(
            Seq::<(u64, VModel)>::empty(),
        ));
        assert(pairs_unresolved(s1) =~= pairs_unresolved(ps) + crate::value::unresolved_of(
            p.1,
        ));
    } else {
        assert(s1[0] == ps[0]);
        assert(s1.skip(1) =~= ps.skip(1).push(p));
        lemma_pairs_unresolved_push(ps.skip(1), p);
        assert(pairs_unresolved(s1) =~= pairs_unresolved(ps) + crate::value::unresolved_of(
            p.1,
        ));
    }
}

/// The sentinels of a run of event records, record by record in order.
pub open spec fn events_unresolved(ems: Seq<(u64, u64, Seq<(u64, VModel)>)>) -> Seq<
    (u64, u64),
>
    decreases ems,
{
    if ems.len() == 0 {
        Seq::empty()
    } else {
        pairs_unresolved(ems[0].2) + events_unresolved(ems.skip(1))
    }
}

/// Appending an event appends its sentinels.
proof fn lemma_events_unresolved_push(
    ems: Seq<(u64, u64, Seq<(u64, VModel)>)>,
    e: (u64, u64, Seq<(u64, VModel)>),
)
    ensures
        events_unresolved(ems.push(e)) == events_unresolved(ems) + pairs_unresolved(e.2),
    decreases ems,
{
    let s1 = ems.push(e);
    if ems.len() == 0 {
        assert(s1[0] == e);
        assert(s1.skip(1) =~= Seq::<(u64, u64, Seq<(u64, VModel)>)>::empty());
        assert(events_unresolved(s1.skip(1)) == events_unresolved(
            Seq::<(u64, u64, Seq<(u64, VModel)>)>::empty(),
        ));
        assert(events_unresolved(s1) =~= events_unresolved(ems) + pairs_unresolved(e.2));
    } else {
        assert(s1[0] == ems[0]);
        assert(s1.skip(1) =~= ems.skip(1).push(e));
        lemma_events_unresolved_push(ems.skip(1), e);
        assert(events_unresolved(s1) =~= events_unresolved(ems) + pairs_unresolved(e.2));
    }
}

/// The models of a run of event records have the run's length, and the
/// model at `i` is the model of the record at `i`.
proof fn lemma_event_models_index(es: Seq<Event>, i: int)
    requires
        0 <= i < es.len(),
    ensures
        event_models(es).len() == es.len(),
        event_models(es)[i] == event_model(es[i]),
    decreases es,
{
    lemma_event_models_len(es);
    if i > 0 {
        lemma_event_models_index(es.skip(1), i - 1);
    } else {
        lemma_event_models_len(es.skip(1));
    }
}

/// The models of a run of event records have the run's length.
proof fn lemma_event_models_len(es: Seq<Event>)
    ensures
        event_models(es).len() == es.len(),
    decreases es,
{
    if es.len() > 0 {
        lemma_event_models_len(es.skip(1));
    }
}

/// The models of a run of pairs have the run's length, and the model at
/// `i` is the model of the pair at `i`.
proof fn lemma_pair_models_index(ps: Seq<(u64, Value)>, i: int)
    requires
        0 <= i < ps.len(),
    ensures
        pair_models(ps).len() == ps.len(),
        pair_models(ps)[i] == (ps[i].0, val_model(ps[i].1)),
    decreases ps,
{
    lemma_pair_models_len(ps);
    if i > 0 {
        lemma_pair_models_index(ps.skip(1), i - 1);
    } else {
        lemma_pair_models_len(ps.skip(1));
    }
}

/// The models of a run of pairs have the run's length.
proof fn lemma_pair_models_len(ps: Seq<(u64, Value)>)
    ensures
        pair_models(ps).len() == ps.len(),
    decreases ps,
{
    if ps.len() > 0 {
        lemma_pair_models_len(ps.skip(1));
    }
}

/// Every sentinel left in one record's field values, in field order.
fn record_unresolved_pairs(e: &Event, out: &mut Vec<(u64, u64)>)
    ensures
        final(out)@ == old(out)@ + pairs_unresolved(pair_models(e.fields@)),
{
    let mut k: usize = 0;
    proof {
        lemma_pair_models_len(e.fields@);
    }
    while k < e.fields.len()
        invariant
            0 <= k <= e.fields.len(),
            out@ == old(out)@ + pairs_unresolved(pair_models(e.fields@).take(k as int)),
        decreases e.fields.len() - k,
    {
        proof {
            lemma_pair_models_index(e.fields@, k as int);
            let pm = pair_models(e.fields@);
            assert(pm.take(k + 1) =~= pm.take(k as int).push(pm[k as int]));
            lemma_pairs_unresolved_push(pm.take(k as int), pm[k as int]);
        }
        crate::value::collect_unresolved(&e.fields[k].1, out);
        proof {
            let pm = pair_models(e.fields@);
            assert(old(out)@ + pairs_unresolved(pm.take(k as int))
                + crate::value::unresolved_of(pm[k as int].1) =~= old(out)@
                + pairs_unresolved(pm.take(k + 1)));
        }
        k = k + 1;
    }
    proof {
        let pm = pair_models(e.fields@);
        assert(pm.take(pm.len() as int) =~= pm);
    }
}

/// Every sentinel left in a run of decoded events, in order.
fn event_unresolved_pairs(evts: &Vec<Event>) -> (r: Vec<(u64, u64)>)
    ensures
        r@ == events_unresolved(event_models(evts@)),
{
    let mut out: Vec<(u64, u64)> = Vec::new();
    let mut k: usize = 0;
    proof {
        lemma_event_models_len(evts@);
    }
    while k < evts.len()
        invariant
            0 <= k <= evts.len(),
            out@ == events_unresolved(event_models(evts@).take(k as int)),
        decreases evts.len() - k,
    {
        proof {
            lemma_event_models_index(evts@, k as int);
            let em = event_models(evts@);
            assert(em.take(k + 1) =~= em.take(k as int).push(em[k as int]));
            lemma_events_unresolved_push(em.take(k as int), em[k as int]);
        }
        record_unresolved_pairs(&evts[k], &mut out);
        k = k + 1;
    }
    proof {
        let em = event_models(evts@);
        assert(em.take(em.len() as int) =~= em);
    }
    out
}

/// Appending an event appends its model.
proof fn lemma_event_models_push(es: Seq<Event>, e: Event)
    ensures
        event_models(es.push(e)) == event_models(es).push(event_model(e)),
    decreases es,
{
    let s1 = es.push(e);
    if es.len() == 0 {
        assert(s1[0] == e);
        assert(s1.skip(1) =~= Seq::<Event>::empty());
        assert(event_models(s1.skip(1)) == event_models(Seq::<Event>::empty()));
        assert(event_models(s1) =~= event_models(es).push(event_model(e)));
    } else {
        assert(s1[0] == es[0]);
        assert(s1.skip(1) =~= es.skip(1).push(e));
        lemma_event_models_push(es.skip(1), e);
        assert(event_models(s1) =~= event_models(es).push(event_model(e)));
    }
}

} // verus!
