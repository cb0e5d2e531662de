//! Metadata section decoding: string table and recursive element tree.
//!
//! The metadata section is one self-framing record: a prologue of six
//! varints (size, type id, start time, duration, metadata id, string count),
//! then the string table (each entry prefixed by a varint byte length), then
//! one recursive element tree. Each element is a name index, a run of
//! attribute pairs (name index, value index), and a run of child elements.
//! The spec functions below define the wire format byte by byte; the
//! executable decoders are proved to agree with them, and the encoder is
//! proved to invert them.

use vstd::prelude::*;

use crate::error::JfrError;
use crate::varint;
use crate::varint::u64_bound;
use crate::varint::vint_dec;
use crate::varint::vint_enc;

verus! {

/// One node of the metadata tree: a name index into the string table,
/// ordered attribute pairs of (name index, value index), and child nodes.
#[derive(Debug, PartialEq, Eq)]
pub struct MetadataElement {
    pub name: u64,
    pub attributes: Vec<(u64, u64)>,
    pub children: Vec<MetadataElement>,
}

/// Mathematical model of a metadata element.
pub struct ElemModel {
    pub name: u64,
    pub attributes: Seq<(u64, u64)>,
    pub children: Seq<ElemModel>,
}

/// The model of an element: its attribute and child vectors abstracted to
/// sequences.
pub open spec fn elem_model(e: MetadataElement) -> ElemModel
    decreases e,
{
    ElemModel { name: e.name, attributes: e.attributes@, children: models(e.children@) }
}

/// The models of a sequence of elements, in order.
pub open spec fn models(es: Seq<MetadataElement>) -> Seq<ElemModel>
    decreases es,
{
    if es.len() == 0 {
        Seq::empty()
    } else {
        seq![elem_model(es[0])] + models(es.skip(1))
    }
}

/// A model the encoder can frame: every count fits in a varint's 64 bits.
pub open spec fn wf_elem(m: ElemModel) -> bool
    decreases m,
{
    &&& m.attributes.len() < u64_bound()
    &&& m.children.len() < u64_bound()
    &&& wf_elems(m.children)
}

/// Every element of `ms` is well-formed.
pub open spec fn wf_elems(ms: Seq<ElemModel>) -> bool
    decreases ms,
{
    if ms.len() == 0 {
        true
    } else {
        wf_elem(ms[0]) && wf_elems(ms.skip(1))
    }
}

/// The varint at the head of `s`, as (value, bytes consumed), or `None` when
/// no varint with a 64-bit value starts there.
pub open spec fn vint_head(s: Seq<u8>) -> Option<(nat, nat)> {
    match vint_dec(s) {
        Some(r) => if 1 <= r.1 <= 10 && r.0 < u64_bound() && r.1 <= s.len() {
            Some((r.0, r.1 as nat))
        } else {
            None
        },
        None => None,
    }
}

/// `n` consecutive varints at the head of `s`: their values and the bytes
/// they span together.
pub open spec fn dec_vints(s: Seq<u8>, n: nat) -> Option<(Seq<u64>, nat)>
    decreases s.len(), n,
{
    if n == 0 {
        Some((Seq::empty(), 0))
    } else {
        match vint_head(s) {
            None => None,
            Some(h) => match dec_vints(s.skip(h.1 as int), (n - 1) as nat) {
                None => None,
                Some(rest) => Some((seq![h.0 as u64] + rest.0, h.1 + rest.1)),
            },
        }
    }
}

/// `n` length-prefixed string-table entries at the head of `s`.
pub open spec fn dec_strings(s: Seq<u8>, n: nat) -> Option<(Seq<Seq<u8>>, nat)>
    decreases s.len(), n,
{
    if n == 0 {
        Some((Seq::empty(), 0))
    } else {
        match vint_head(s) {
            None => None,
            Some(h) => if h.1 + h.0 <= s.len() {
                match dec_strings(s.skip((h.1 + h.0) as int), (n - 1) as nat) {
                    None => None,
                    Some(rest) => Some((
                        seq![s.subrange(h.1 as int, (h.1 + h.0) as int)] + rest.0,
                        h.1 + h.0 + rest.1,
                    )),
                }
            } else {
                None
            },
        }
    }
}

/// `n` attribute pairs at the head of `s`: each is a name-index varint
/// followed by a value-index varint.
pub open spec fn dec_attrs(s: Seq<u8>, n: nat) -> Option<(Seq<(u64, u64)>, nat)>
    decreases s.len(), n,
{
    if n == 0 {
        Some((Seq::empty(), 0))
    } else {
        match vint_head(s) {
            None => None,
            Some(k) => match vint_head(s.skip(k.1 as int)) {
                None => None,
                Some(v) => match dec_attrs(
                    s.skip((k.1 + v.1) as int),
                    (n - 1) as nat,
                ) {
                    None => None,
                    Some(rest) => Some((
                        seq![(k.0 as u64, v.0 as u64)] + rest.0,
                        k.1 + v.1 + rest.1,
                    )),
                },
            },
        }
    }
}

/// One element at the head of `s`: name index, attribute count and pairs,
/// child count and children.
pub open spec fn dec_elem(s: Seq<u8>) -> Option<(ElemModel, nat)>
    decreases s.len(), 0int, 0int,
{
    match vint_head(s) {
        None => None,
        Some(nm) => match vint_head(s.skip(nm.1 as int)) {
            None => None,
            Some(na) => match dec_attrs(s.skip((nm.1 + na.1) as int), na.0) {
                None => None,
                Some(ats) => {
                    let q = nm.1 + na.1 + ats.1;
                    if q <= s.len() {
                        match vint_head(s.skip(q as int)) {
                            None => None,
                            Some(nc) => match dec_elems(s.skip((q + nc.1) as int), nc.0) {
                                None => None,
                                Some(kids) => Some((
                                    ElemModel {
                                        name: nm.0 as u64,
                                        attributes: ats.0,
                                        children: kids.0,
                                    },
                                    q + nc.1 + kids.1,
                                )),
                            },
                        }
                    } else {
                        None
                    }
                },
            },
        },
    }
}

/// `n` consecutive elements at the head of `s`.
pub open spec fn dec_elems(s: Seq<u8>, n: nat) -> Option<(Seq<ElemModel>, nat)>
    decreases s.len(), 1int, n,
{
    if n == 0 {
        Some((Seq::empty(), 0))
    } else {
        match dec_elem(s) {
            None => None,
            Some(e) => if e.1 <= s.len() {
                match dec_elems(s.skip(e.1 as int), (n - 1) as nat) {
                    None => None,
                    Some(rest) => Some((seq![e.0] + rest.0, e.1 + rest.1)),
                }
            } else {
                None
            },
        }
    }
}

/// The encoding of a run of attribute pairs.
pub open spec fn enc_attrs(ats: Seq<(u64, u64)>) -> Seq<u8>
    decreases ats.len(),
{
    if ats.len() == 0 {
        Seq::empty()
    } else {
        vint_enc(ats[0].0 as nat) + vint_enc(ats[0].1 as nat) + enc_attrs(ats.skip(1))
    }
}

/// The encoding of one element: name, attribute count, attribute pairs,
/// child count, children.
pub open spec fn enc_elem(m: ElemModel) -> Seq<u8>
    decreases m,
{
    vint_enc(m.name as nat) + vint_enc(m.attributes.len()) + enc_attrs(m.attributes)
        + vint_enc(m.children.len()) + enc_elems(m.children)
}

/// The encoding of a run of elements.
pub open spec fn enc_elems(ms: Seq<ElemModel>) -> Seq<u8>
    decreases ms,
{
    if ms.len() == 0 {
        Seq::empty()
    } else {
        enc_elem(ms[0]) + enc_elems(ms.skip(1))
    }
}

/// Summary fields of the metadata section's prologue, in wire order.
#[derive(Clone, Copy, Debug, PartialEq, Eq, Structural)]
pub struct Metadata {
    /// Declared byte size of the whole section, itself included.
    pub size: u64,
    /// The reserved type id the section is framed under.
    pub event_type: u64,
    /// Start time of the section record.
    pub start: u64,
    /// Duration of the section record.
    pub duration: u64,
    /// Identifier of this metadata snapshot.
    pub metadata_id: u64,
    /// Number of string-table entries that follow.
    pub string_count: u64,
}

/// The prologue: six varints in wire order.
pub open spec fn dec_prologue(s: Seq<u8>) -> Option<(Metadata, nat)> {
    match dec_vints(s, 6) {
        None => None,
        Some(r) => Some((
            Metadata {
                size: r.0[0],
                event_type: r.0[1],
                start: r.0[2],
                duration: r.0[3],
                metadata_id: r.0[4],
                string_count: r.0[5],
            },
            r.1,
        )),
    }
}

/// Reads `n` consecutive unsigned varints starting at `pos`.
pub fn read_vints(data: &Vec<u8>, pos: usize, n: usize) -> (r: Result<
    (Vec<u64>, usize),
    JfrError,
>)
    requires
        pos <= data.len(),
    ensures
        match r {
            Ok(p) => pos <= p.1 <= data.len() && p.0.len() == n && dec_vints(
                data@.skip(pos as int),
                n as nat,
            ) == Some((p.0@, (p.1 - pos) as nat)),
            Err(e) => dec_vints(data@.skip(pos as int), n as nat) is None && (e
                == JfrError::Truncated || e == JfrError::IntegerOverflow),
        },
{
    let ghost tail = data@.skip(pos as int);
    let mut out: Vec<u64> = Vec::new();
    let mut cur = pos;
    let mut k: usize = 0;
    while k < n
        invariant
            pos <= cur <= data.len(),
            0 <= k <= n,
            out.len() == k,
            tail == data@.skip(pos as int),
            dec_vints(data@.skip(cur as int), (n - k) as nat) is None ==> dec_vints(
                tail,
                n as nat,
            ) is None,
            dec_vints(data@.skip(cur as int), (n - k) as nat) matches Some(r0) ==> dec_vints(
                tail,
                n as nat,
            ) == Some((out@ + r0.0, ((cur - pos) + r0.1) as nat)),
        decreases n - k,
    {
        let ghost tcur = data@.skip(cur as int);
        let (v, end) = match varint::decode_at(data, cur) {
            Ok(p) => p,
            Err(e) => {
                proof {
                    varint::lemma_vint_dec_len(tcur);
                    assert(vint_head(tcur) is None);
                    assert(dec_vints(tcur, (n - k) as nat) is None);
                }
                return Err(e);
            },
        };
        proof {
            assert(vint_head(tcur) == Some((v as nat, (end - cur) as nat)));
            assert(tcur.skip(end - cur) =~= data@.skip(end as int));
            assert(out@ + seq![v] =~= out@.push(v));
            if dec_vints(data@.skip(end as int), (n - k - 1) as nat) is Some {
                let r1 = dec_vints(data@.skip(end as int), (n - k - 1) as nat).unwrap();
                assert(dec_vints(tcur, (n - k) as nat) == Some((
                    seq![v] + r1.0,
                    ((end - cur) + r1.1) as nat,
                )));
                assert(out@ + (seq![v] + r1.0) =~= out@.push(v) + r1.0);
            }
        }
        out.push(v);
        cur = end;
        k = k + 1;
    }
    proof {
        assert(dec_vints(data@.skip(cur as int), 0) == Some((Seq::<u64>::empty(), 0nat)));
        assert(out@ + Seq::<u64>::empty() =~= out@);
    }
    Ok((out, cur))
}

impl Metadata {
    /// Parses the six prologue varints at the head of `source`.
    pub fn new(source: &Vec<u8>) -> (r: Result<(Metadata, usize), JfrError>)
        ensures
            match r {
                Ok(p) => dec_prologue(source@) == Some((p.0, (p.1) as nat)) && p.1
                    <= source.len(),
                Err(e) => dec_prologue(source@) is None && (e == JfrError::Truncated || e
                    == JfrError::IntegerOverflow),
            },
    {
        let (vals, end) = match read_vints(source, 0, 6) {
            Ok(p) => p,
            Err(e) => {
                proof {
                    assert(source@.skip(0) =~= source@);
                }
                return Err(e);
            },
        };
        proof {
            assert(source@.skip(0) =~= source@);
        }
        let m = Metadata {
            size: vals[0],
            event_type: vals[1],
            start: vals[2],
            duration: vals[3],
            metadata_id: vals[4],
            string_count: vals[5],
        };
        Ok((m, end))
    }
}

/// Reads `count` length-prefixed string-table entries starting at `pos`.
/// Entry bytes are returned as stored; index 0 is reserved by the format and
/// denotes "no value", which consumers must special-case.
pub fn decode_string_table(data: &Vec<u8>, pos: usize, count: u64) -> (r: Result<
    (Vec<Vec<u8>>, usize),
    JfrError,
>)
    requires
        pos <= data.len(),
    ensures
        match r {
            Ok(p) => pos <= p.1 <= data.len() && dec_strings(
                data@.skip(pos as int),
                count as nat,
            ) == Some((p.0.deep_view(), (p.1 - pos) as nat)),
            Err(e) => dec_strings(data@.skip(pos as int), count as nat) is None && (e
                == JfrError::Truncated || e == JfrError::IntegerOverflow),
        },
{
    let ghost tail = data@.skip(pos as int);
    let mut out: Vec<Vec<u8>> = Vec::new();
    let mut cur = pos;
    let mut k: u64 = 0;
    while k < count
        invariant
            pos <= cur <= data.len(),
            0 <= k <= count,
            tail == data@.skip(pos as int),
            dec_strings(data@.skip(cur as int), (count - k) as nat) is None ==> dec_strings(
                tail,
                count as nat,
            ) is None,
            dec_strings(data@.skip(cur as int), (count - k) as nat) matches Some(r0)
                ==> dec_strings(tail, count as nat) == Some((
                out.deep_view() + r0.0,
                ((cur - pos) + r0.1) as nat,
            )),
        decreases count - k,
    {
        let ghost tcur = data@.skip(cur as int);
        let (len, end) = match varint::decode_at(data, cur) {
            Ok(p) => p,
            Err(e) => {
                proof {
                    varint::lemma_vint_dec_len(tcur);
                    assert(vint_head(tcur) is None);
                }
                return Err(e);
            },
        };
        proof {
            assert(vint_head(tcur) == Some((len as nat, (end - cur) as nat)));
        }
        if len > (data.len() - end) as u64 {
            proof {
                assert(dec_strings(tcur, (count - k) as nat) is None);
            }
            return Err(JfrError::Truncated);
        }
        let entry = crate::cursor::copy_range(data, end, len as usize);
        let end2 = end + len as usize;
        let ghost prev = out.deep_view();
        proof {
            assert(tcur.skip(end2 - cur) =~= data@.skip(end2 as int));
            assert(tcur.subrange(end - cur, end2 - cur) =~= data@.subrange(
                end as int,
                end2 as int,
            ));
            assert(entry@ == tcur.subrange(end - cur, end2 - cur));
        }
        out.push(entry);
        proof {
            assert(out.deep_view() =~~= prev.push(
                tcur.subrange(end - cur, end2 - cur),
            ));
            if dec_strings(data@.skip(end2 as int), (count - k - 1) as nat) is Some {
                let r1 = dec_strings(data@.skip(end2 as int), (count - k - 1) as nat).unwrap();
                assert(dec_strings(tcur, (count - k) as nat) == Some((
                    seq![tcur.subrange(end - cur, end2 - cur)] + r1.0,
                    ((end2 - cur) + r1.1) as nat,
                )));
                assert(prev + (seq![tcur.subrange(end - cur, end2 - cur)] + r1.0) =~= out.deep_view() + r1.0);
            }
        }
        cur = end2;
        k = k + 1;
    }
    proof {
        assert(dec_strings(data@.skip(cur as int), 0) == Some((Seq::<Seq<u8>>::empty(), 0nat)));
        assert(out.deep_view() + Seq::<Seq<u8>>::empty() =~= out.deep_view());
    }
    Ok((out, cur))
}

/// Reads `n` attribute pairs starting at `pos`.
pub fn decode_attrs(data: &Vec<u8>, pos: usize, n: u64) -> (r: Result<
    (Vec<(u64, u64)>, usize),
    JfrError,
>)
    requires
        pos <= data.len(),
    ensures
        match r {
            Ok(p) => pos <= p.1 <= data.len() && dec_attrs(data@.skip(pos as int), n as nat)
                == Some((p.0@, (p.1 - pos) as nat)),
            Err(e) => dec_attrs(data@.skip(pos as int), n as nat) is None && (e
                == JfrError::Truncated || e == JfrError::IntegerOverflow),
        },
{
    let ghost tail = data@.skip(pos as int);
    let mut out: Vec<(u64, u64)> = Vec::new();
    let mut cur = pos;
    let mut k: u64 = 0;
    while k < n
        invariant
            pos <= cur <= data.len(),
            0 <= k <= n,
            tail == data@.skip(pos as int),
            dec_attrs(data@.skip(cur as int), (n - k) as nat) is None ==> dec_attrs(
                tail,
                n as nat,
            ) is None,
            dec_attrs(data@.skip(cur as int), (n - k) as nat) matches Some(r0) ==> dec_attrs(
                tail,
                n as nat,
            ) == Some((out@ + r0.0, ((cur - pos) + r0.1) as nat)),
        decreases n - k,
    {
        let ghost tcur = data@.skip(cur as int);
        let (nameidx, end) = match varint::decode_at(data, cur) {
            Ok(p) => p,
            Err(e) => {
                proof {
                    varint::lemma_vint_dec_len(tcur);
                    assert(vint_head(tcur) is None);
                }
                return Err(e);
            },
        };
        let ghost tmid = data@.skip(end as int);
        proof {
            assert(vint_head(tcur) == Some((nameidx as nat, (end - cur) as nat)));
            assert(tcur.skip(end - cur) =~= tmid);
        }
        let (validx, end2) = match varint::decode_at(data, end) {
            Ok(p) => p,
            Err(e) => {
                proof {
                    varint::lemma_vint_dec_len(tmid);
                    assert(vint_head(tmid) is None);
                }
                return Err(e);
            },
        };
        proof {
            assert(vint_head(tmid) == Some((validx as nat, (end2 - end) as nat)));
            assert(tcur.skip(end2 - cur) =~= data@.skip(end2 as int));
            if dec_attrs(data@.skip(end2 as int), (n - k - 1) as nat) is Some {
                let r1 = dec_attrs(data@.skip(end2 as int), (n - k - 1) as nat).unwrap();
                assert(dec_attrs(tcur, (n - k) as nat) == Some((
                    seq![(nameidx, validx)] + r1.0,
                    ((end2 - cur) + r1.1) as nat,
                )));
                assert(out@ + (seq![(nameidx, validx)] + r1.0) =~= out@.push(
                    (nameidx, validx),
                ) + r1.0);
            }
        }
        out.push((nameidx, validx));
        cur = end2;
        k = k + 1;
    }
    proof {
        assert(dec_attrs(data@.skip(cur as int), 0) == Some((
            Seq::<(u64, u64)>::empty(),
            0nat,
        )));
        assert(out@ + Seq::<(u64, u64)>::empty() =~= out@);
    }
    Ok((out, cur))
}

/// Reads one metadata element starting at `pos`, returning it and the
/// position just past its last child.
#[verifier::rlimit(60)]
pub fn decode_element(data: &Vec<u8>, pos: usize) -> (r: Result<
    (MetadataElement, usize),
    JfrError,
>)
    requires
        pos <= data.len(),
    ensures
        match r {
            Ok(p) => pos < p.1 <= data.len() && dec_elem(data@.skip(pos as int)) == Some((
                elem_model(p.0),
                (p.1 - pos) as nat,
            )),
            Err(e) => dec_elem(data@.skip(pos as int)) is None && (e == JfrError::Truncated
                || e == JfrError::IntegerOverflow),
        },
    decreases data.len() - pos,
{
    let ghost tail = data@.skip(pos as int);
    let (name, p1) = match varint::decode_at(data, pos) {
        Ok(p) => p,
        Err(e) => {
            proof {
                varint::lemma_vint_dec_len(tail);
                assert(vint_head(tail) is None);
            }
            return Err(e);
        },
    };
    let ghost t1 = data@.skip(p1 as int);
    proof {
        assert(vint_head(tail) == Some((name as nat, (p1 - pos) as nat)));
        assert(tail.skip(p1 - pos) =~= t1);
    }
    let (acount, p2) = match varint::decode_at(data, p1) {
        Ok(p) => p,
        Err(e) => {
            proof {
                varint::lemma_vint_dec_len(t1);
                assert(vint_head(t1) is None);
                assert(dec_elem(tail) is None);
            }
            return Err(e);
        },
    };
    let ghost t2 = data@.skip(p2 as int);
    proof {
        assert(vint_head(t1) == Some((acount as nat, (p2 - p1) as nat)));
        assert(tail.skip(p2 - pos) =~= t2);
    }
    let (attributes, p3) = match decode_attrs(data, p2, acount) {
        Ok(p) => p,
        Err(e) => {
            proof {
                assert(dec_attrs(t2, acount as nat) is None);
                assert(dec_elem(tail) is None);
            }
            return Err(e);
        },
    };
    let ghost t3 = data@.skip(p3 as int);
    proof {
        assert(tail.skip(p3 - pos) =~= t3);
    }
    let (ccount, p4) = match varint::decode_at(data, p3) {
        Ok(p) => p,
        Err(e) => {
            proof {
                varint::lemma_vint_dec_len(t3);
                assert(vint_head(t3) is None);
                assert(dec_elem(tail) is None);
            }
            return Err(e);
        },
    };
    let ghost t4 = data@.skip(p4 as int);
    proof {
        assert(vint_head(t3) == Some((ccount as nat, (p4 - p3) as nat)));
        assert(tail.skip(p4 - pos) =~= t4);
        if dec_elems(t4, ccount as nat) is Some {
            let rk = dec_elems(t4, ccount as nat).unwrap();
            assert(dec_elem(tail) == Some((
                ElemModel { name: name, attributes: attributes@, children: rk.0 },
                ((p4 - pos) + rk.1) as nat,
            )));
        } else {
            assert(dec_elem(tail) is None);
        }
    }
    // Children: one recursive decode per declared child.
    let mut children: Vec<MetadataElement> = Vec::new();
    let mut cur = p4;
    let mut k: u64 = 0;
    while k < ccount
        invariant
            pos < p4 <= cur <= data.len(),
            0 <= k <= ccount,
            tail == data@.skip(pos as int),
            t4 == data@.skip(p4 as int),
            dec_elems(data@.skip(cur as int), (ccount - k) as nat) is None ==> dec_elems(
                t4,
                ccount as nat,
            ) is None,
            dec_elems(data@.skip(cur as int), (ccount - k) as nat) matches Some(r0)
                ==> dec_elems(t4, ccount as nat) == Some((
                models(children@) + r0.0,
                ((cur - p4) + r0.1) as nat,
            )),
            dec_elems(t4, ccount as nat) is None ==> dec_elem(tail) is None,
            dec_elems(t4, ccount as nat) matches Some(rk) ==> dec_elem(tail) == Some((
                ElemModel { name: name, attributes: attributes@, children: rk.0 },
                ((p4 - pos) + rk.1) as nat,
            )),
        decreases ccount - k,
    {
        let ghost tcur = data@.skip(cur as int);
        let (child, cend) = match decode_element(data, cur) {
            Ok(p) => p,
            Err(e) => {
                proof {
                    assert(dec_elems(tcur, (ccount - k) as nat) is None);
                    assert(dec_elems(t4, ccount as nat) is None);
                    assert(dec_elem(tail) is None);
                }
                return Err(e);
            },
        };
        proof {
            assert(tcur.skip(cend - cur) =~= data@.skip(cend as int));
            if dec_elems(data@.skip(cend as int), (ccount - k - 1) as nat) is Some {
                let r1 = dec_elems(data@.skip(cend as int), (ccount - k - 1) as nat).unwrap();
                assert(dec_elems(tcur, (ccount - k) as nat) == Some((
                    seq![elem_model(child)] + r1.0,
                    ((cend - cur) + r1.1) as nat,
                )));
                lemma_models_push(children@, child);
                assert(models(children@) + (seq![elem_model(child)] + r1.0) =~= models(
                    children@.push(child),
                ) + r1.0);
            }
        }
        children.push(child);
        cur = cend;
        k = k + 1;
    }
    proof {
        assert(dec_elems(data@.skip(cur as int), 0) == Some((Seq::<ElemModel>::empty(), 0nat)));
        lemma_models_push_empty(children@);
        assert(models(children@) + Seq::<ElemModel>::empty() =~= models(children@));
    }
    let e = MetadataElement { name, attributes, children };
    proof {
        assert(elem_model(e).attributes == e.attributes@);
        assert(dec_elem(tail) == Some((elem_model(e), (cur - pos) as nat)));
    }
    Ok((e, cur))
}

/// Appending one element to a run appends its model to the run's models.
pub proof fn lemma_models_push(es: Seq<MetadataElement>, e: MetadataElement)
    ensures
        models(es.push(e)) == models(es).push(elem_model(e)),
    decreases es,
{
    let s1 = es.push(e);
    if es.len() == 0 {
        assert(s1[0] == e);
        assert(s1.skip(1) =~= Seq::<MetadataElement>::empty());
        assert(models(s1.skip(1)) == models(Seq::<MetadataElement>::empty()));
        assert(models(Seq::<MetadataElement>::empty()) =~= Seq::<ElemModel>::empty());
        assert(models(s1) == seq![elem_model(e)] + models(s1.skip(1)));
        assert(models(s1) =~= models(es).push(elem_model(e)));
    } else {
        assert(s1[0] == es[0]);
        assert(s1.skip(1) =~= es.skip(1).push(e));
        lemma_models_push(es.skip(1), e);
        assert(models(s1.skip(1)) == models(es.skip(1)).push(elem_model(e)));
        assert(models(s1) == seq![elem_model(es[0])] + models(s1.skip(1)));
        assert(models(s1) =~= models(es).push(elem_model(e)));
    }
}

/// Helper: models of an empty run.
proof fn lemma_models_push_empty(es: Seq<MetadataElement>)
    ensures
        models(es).len() == es.len(),
    decreases es,
{
    if es.len() > 0 {
        lemma_models_push_empty(es.skip(1));
    }
}

/// Appends `src` to `out` byte by byte.
pub fn append_bytes(out: &mut Vec<u8>, src: &Vec<u8>)
    ensures
        final(out)@ == old(out)@ + src@,
{
    let mut j: usize = 0;
    while j < src.len()
        invariant
            0 <= j <= src.len(),
            out@ == old(out)@ + src@.take(j as int),
        decreases src.len() - j,
    {
        out.push(src[j]);
        proof {
            assert(old(out)@ + src@.take(j + 1) =~= (old(out)@ + src@.take(j as int)).push(
                src@[j as int],
            ));
        }
        j = j + 1;
    }
    proof {
        assert(src@.take(src@.len() as int) =~= src@);
    }
}

/// Appending one pair to a run appends its encoding.
proof fn lemma_enc_attrs_push(ats: Seq<(u64, u64)>, a: (u64, u64))
    ensures
        enc_attrs(ats.push(a)) == enc_attrs(ats) + vint_enc(a.0 as nat) + vint_enc(a.1 as nat),
    decreases ats.len(),
{
    let s1 = ats.push(a);
    if ats.len() == 0 {
        assert(s1[0] == a);
        assert(s1.skip(1) =~= Seq::<(u64, u64)>::empty());
        assert(enc_attrs(s1.skip(1)) == enc_attrs(Seq::<(u64, u64)>::empty()));
        assert(enc_attrs(s1) =~= enc_attrs(ats) + vint_enc(a.0 as nat) + vint_enc(a.1 as nat));
    } else {
        assert(s1[0] == ats[0]);
        assert(s1.skip(1) =~= ats.skip(1).push(a));
        lemma_enc_attrs_push(ats.skip(1), a);
        assert(enc_attrs(s1.skip(1)) == enc_attrs(ats.skip(1).push(a)));
        assert(enc_attrs(s1) =~= enc_attrs(ats) + vint_enc(a.0 as nat) + vint_enc(a.1 as nat));
    }
}

/// Appending one element to a run appends its encoding.
proof fn lemma_enc_elems_push(ms: Seq<ElemModel>, m: ElemModel)
    ensures
        enc_elems(ms.push(m)) == enc_elems(ms) + enc_elem(m),
    decreases ms,
{
    let s1 = ms.push(m);
    if ms.len() == 0 {
        assert(s1[0] == m);
        assert(s1.skip(1) =~= Seq::<ElemModel>::empty());
        assert(enc_elems(s1.skip(1)) == enc_elems(Seq::<ElemModel>::empty()));
        assert(enc_elems(s1) =~= enc_elems(ms) + enc_elem(m));
    } else {
        assert(s1[0] == ms[0]);
        assert(s1.skip(1) =~= ms.skip(1).push(m));
        lemma_enc_elems_push(ms.skip(1), m);
        assert(enc_elems(s1) =~= enc_elems(ms) + enc_elem(m));
    }
}

/// Appends the wire encoding of `e` to `out`: the synthetic-fixture side of
/// the metadata codec.
#[verifier::rlimit(60)]
pub fn encode_element(e: &MetadataElement, out: &mut Vec<u8>)
    ensures
        final(out)@ == old(out)@ + enc_elem(elem_model(*e)),
    decreases *e,
{
    let ghost base = out@;
    let nb = varint::encode(e.name);
    append_bytes(out, &nb);
    let ac = varint::encode(e.attributes.len() as u64);
    append_bytes(out, &ac);
    let ghost base_attrs = out@;
    let mut k: usize = 0;
    while k < e.attributes.len()
        invariant
            0 <= k <= e.attributes.len(),
            base_attrs == base + vint_enc(e.name as nat) + vint_enc(e.attributes@.len()),
            out@ == base_attrs + enc_attrs(e.attributes@.take(k as int)),
        decreases e.attributes.len() - k,
    {
        let (an, av) = (e.attributes[k].0, e.attributes[k].1);
        let nb1 = varint::encode(an);
        append_bytes(out, &nb1);
        let nb2 = varint::encode(av);
        append_bytes(out, &nb2);
        proof {
            assert(e.attributes@.take(k + 1) =~= e.attributes@.take(k as int).push(
                e.attributes@[k as int],
            ));
            lemma_enc_attrs_push(e.attributes@.take(k as int), e.attributes@[k as int]);
            assert(out@ =~= base_attrs + enc_attrs(e.attributes@.take(k + 1)));
        }
        k = k + 1;
    }
    proof {
        assert(e.attributes@.take(e.attributes@.len() as int) =~= e.attributes@);
    }
    let cc = varint::encode(e.children.len() as u64);
    append_bytes(out, &cc);
    let ghost base_kids = out@;
    let mut j: usize = 0;
    while j < e.children.len()
        invariant
            0 <= j <= e.children.len(),
            base_kids == base + vint_enc(e.name as nat) + vint_enc(e.attributes@.len())
                + enc_attrs(e.attributes@) + vint_enc(e.children@.len()),
            out@ == base_kids + enc_elems(models(e.children@).take(j as int)),
        decreases e.children.len() - j,
    {
        let ghost mods = models(e.children@);
        encode_element(&e.children[j], out);
        proof {
            lemma_models_index(e.children@, j as int);
            assert(mods.take(j + 1) =~= mods.take(j as int).push(mods[j as int]));
            lemma_enc_elems_push(mods.take(j as int), mods[j as int]);
            assert(out@ =~= base_kids + enc_elems(mods.take(j + 1)));
        }
        j = j + 1;
    }
    proof {
        lemma_models_len(e.children@);
        assert(models(e.children@).take(models(e.children@).len() as int) =~= models(
            e.children@,
        ));
        assert(out@ =~= base + enc_elem(elem_model(*e)));
    }
}

/// The models of a run have the run's length.
pub proof fn lemma_models_len(es: Seq<MetadataElement>)
    ensures
        models(es).len() == es.len(),
    decreases es,
{
    if es.len() > 0 {
        lemma_models_len(es.skip(1));
    }
}

/// The model at `i` is the model of the element at `i`.
pub proof fn lemma_models_index(es: Seq<MetadataElement>, i: int)
    requires
        0 <= i < es.len(),
    ensures
        models(es).len() == es.len(),
        models(es)[i] == elem_model(es[i]),
    decreases es,
{
    lemma_models_len(es);
    if i > 0 {
        lemma_models_index(es.skip(1), i - 1);
    } else {
        lemma_models_len(es.skip(1));
    }
}

/// Law: a run of attribute pairs round-trips through the codec, whatever
/// bytes follow it.
pub proof fn lemma_attrs_round_trip(ats: Seq<(u64, u64)>, rest: Seq<u8>)
    ensures
        dec_attrs(enc_attrs(ats) + rest, ats.len()) == Some((ats, enc_attrs(ats).len())),
    decreases ats.len(),
{
    let s = enc_attrs(ats) + rest;
    if ats.len() == 0 {
        assert(s =~= rest);
        assert(ats =~= Seq::<(u64, u64)>::empty());
    } else {
        let a = ats[0];
        let e0 = vint_enc(a.0 as nat);
        let e1 = vint_enc(a.1 as nat);
        let er = enc_attrs(ats.skip(1));
        assert(s =~= e0 + (e1 + (er + rest)));
        varint::lemma_varint_round_trip(a.0, e1 + (er + rest));
        assert(vint_head(s) == Some((a.0 as nat, e0.len())));
        assert(s.skip(e0.len() as int) =~= e1 + (er + rest));
        varint::lemma_varint_round_trip(a.1, er + rest);
        assert(vint_head(s.skip(e0.len() as int)) == Some((a.1 as nat, e1.len())));
        assert(s.skip((e0.len() + e1.len()) as int) =~= er + rest);
        lemma_attrs_round_trip(ats.skip(1), rest);
        assert(seq![(a.0, a.1)] + ats.skip(1) =~= ats);
        assert(dec_attrs(s, ats.len()) == Some((ats, enc_attrs(ats).len())));
    }
}

/// Law: a well-formed metadata element round-trips through the codec: the
/// decoder applied to its encoding returns exactly the element and consumes
/// exactly its bytes, whatever bytes follow.
#[verifier::rlimit(100)]
#[verifier::spinoff_prover]
pub proof fn lemma_element_round_trip(m: ElemModel, rest: Seq<u8>)
    requires
        wf_elem(m),
    ensures
        dec_elem(enc_elem(m) + rest) == Some((m, enc_elem(m).len())),
    decreases m,
{
    let s = enc_elem(m) + rest;
    let en = vint_enc(m.name as nat);
    let ea = vint_enc(m.attributes.len());
    let eat = enc_attrs(m.attributes);
    let ec = vint_enc(m.children.len());
    let ek = enc_elems(m.children);
    assert(s =~= en + (ea + (eat + (ec + (ek + rest)))));
    varint::lemma_varint_round_trip(m.name, ea + (eat + (ec + (ek + rest))));
    assert(vint_head(s) == Some((m.name as nat, en.len())));
    assert(s.skip(en.len() as int) =~= ea + (eat + (ec + (ek + rest))));
    varint::lemma_varint_round_trip(m.attributes.len() as u64, eat + (ec + (ek + rest)));
    assert(vint_enc((m.attributes.len() as u64) as nat) == ea);
    assert(vint_head(s.skip(en.len() as int)) == Some((m.attributes.len(), ea.len())));
    assert(s.skip((en.len() + ea.len()) as int) =~= eat + (ec + (ek + rest)));
    lemma_attrs_round_trip(m.attributes, ec + (ek + rest));
    assert(eat + (ec + (ek + rest)) =~= enc_attrs(m.attributes) + (ec + (ek + rest)));
    assert(dec_attrs(s.skip((en.len() + ea.len()) as int), m.attributes.len()) == Some((
        m.attributes,
        eat.len(),
    )));
    let q = en.len() + ea.len() + eat.len();
    assert(q <= s.len());
    assert(s.skip(q as int) =~= ec + (ek + rest));
    varint::lemma_varint_round_trip(m.children.len() as u64, ek + rest);
    assert(vint_enc((m.children.len() as u64) as nat) == ec);
    assert(vint_head(s.skip(q as int)) == Some((m.children.len(), ec.len())));
    assert(s.skip((q + ec.len()) as int) =~= ek + rest);
    lemma_elements_round_trip(m.children, rest);
    assert(dec_elems(s.skip((q + ec.len()) as int), m.children.len()) == Some((m.children, ek.len())));
    assert(dec_elem(s) == Some((
        ElemModel { name: m.name, attributes: m.attributes, children: m.children },
        q + ec.len() + ek.len(),
    )));
    assert(ElemModel { name: m.name, attributes: m.attributes, children: m.children } == m);
}

/// Law: a run of well-formed elements round-trips through the codec.
pub proof fn lemma_elements_round_trip(ms: Seq<ElemModel>, rest: Seq<u8>)
    requires
        wf_elems(ms),
    ensures
        dec_elems(enc_elems(ms) + rest, ms.len()) == Some((ms, enc_elems(ms).len())),
    decreases ms,
{
    let s = enc_elems(ms) + rest;
    if ms.len() == 0 {
        assert(s =~= rest);
        assert(ms =~= Seq::<ElemModel>::empty());
    } else {
        let e0 = enc_elem(ms[0]);
        let er = enc_elems(ms.skip(1));
        assert(s =~= e0 + (er + rest));
        lemma_element_round_trip(ms[0], er + rest);
        assert(dec_elem(s) == Some((ms[0], e0.len())));
        assert(s.skip(e0.len() as int) =~= er + rest);
        lemma_elements_round_trip(ms.skip(1), rest);
        assert(seq![ms[0]] + ms.skip(1) =~= ms);
        assert(dec_elems(s, ms.len()) == Some((ms, enc_elems(ms).len())));
    }
}

/// The decoded metadata section: prologue summary, string table, and the
/// root of the element tree.
pub struct MetadataSection {
    pub info: Metadata,
    pub strings: Vec<Vec<u8>>,
    pub root: MetadataElement,
}

/// The whole metadata section at the head of `s`: prologue, string table
/// with the declared count, then one element tree. The record is
/// self-framing: its declared size (which includes its own encoding) must
/// cover everything decoded and must not leave the section.
pub open spec fn dec_section(s: Seq<u8>) -> Option<(Metadata, Seq<Seq<u8>>, ElemModel)> {
    match dec_prologue(s) {
        None => None,
        Some(pr) => if pr.1 <= s.len() {
            match dec_strings(s.skip(pr.1 as int), pr.0.string_count as nat) {
                None => None,
                Some(st) => if pr.1 + st.1 <= s.len() {
                    match dec_elem(s.skip((pr.1 + st.1) as int)) {
                        None => None,
                        Some(el) => if pr.1 + st.1 + el.1 <= pr.0.size && pr.0.size
                            <= s.len() {
                            Some((pr.0, st.0, el.0))
                        } else {
                            None
                        },
                    }
                } else {
                    None
                },
            }
        } else {
            None
        },
    }
}

/// Decodes a whole metadata section: the six-varint prologue, the string
/// table, and the element tree. Fails with `Corrupt` when the record's
/// self-inclusive declared size does not cover what was decoded or leaves
/// the section.
pub fn decode_metadata_section(sec: &Vec<u8>) -> (r: Result<MetadataSection, JfrError>)
    ensures
        match r {
            Ok(m) => dec_section(sec@) == Some((
                m.info,
                m.strings.deep_view(),
                elem_model(m.root),
            )),
            Err(e) => dec_section(sec@) is None && (e == JfrError::Truncated || e
                == JfrError::IntegerOverflow || e == JfrError::Corrupt),
        },
{
    let (info, p1) = match Metadata::new(sec) {
        Ok(p) => p,
        Err(e) => {
            return Err(e);
        },
    };
    let (strings, p2) = match decode_string_table(sec, p1, info.string_count) {
        Ok(p) => p,
        Err(e) => {
            return Err(e);
        },
    };
    let (root, p3) = match decode_element(sec, p2) {
        Ok(p) => p,
        Err(e) => {
            return Err(e);
        },
    };
    if (p3 as u64) > info.size || info.size > sec.len() as u64 {
        return Err(JfrError::Corrupt);
    }
    Ok(MetadataSection { info, strings, root })
}

} // verus!
