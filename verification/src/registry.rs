//! Type registry: the per-chunk mapping from type id to field schema.
//!
//! The registry is built from the decoded metadata tree. The root element's
//! children that carry the `class` tag each contribute one entry, keyed by
//! the numeric value of their `id` attribute; their `field` children carry
//! the field schema: referenced type id, array flag, constant-pool flag.
//! Attribute values are string-table indices, so numeric attributes go
//! through a decimal parse of the referenced string. Unrecognized elements
//! are preserved in the tree but contribute nothing: the format is
//! forward-extensible and the builder never fails.

use vstd::prelude::*;

use crate::metadata::ElemModel;
use crate::metadata::MetadataElement;
use crate::metadata::elem_model;
use crate::metadata::lemma_models_index;
use crate::metadata::lemma_models_len;
use crate::metadata::models;
use crate::varint::u64_bound;

verus! {

/// How a field's bytes are decoded, derived from the referenced type's name.
#[derive(Clone, Copy, Debug, PartialEq, Eq, Structural)]
pub enum TypeKind {
    /// Plain varint.
    UnsignedInt,
    /// Zigzag varint.
    SignedInt,
    /// One byte, zero meaning false.
    Boolean,
    /// Four big-endian bytes of raw float bits.
    Float32,
    /// Eight big-endian bytes of raw float bits.
    Float64,
    /// Varint index into the string table.
    StringIndex,
    /// Fields decoded in declaration order.
    Composite,
}

/// One declared field: name index, referenced type id, and flags.
#[derive(Clone, Copy, Debug, PartialEq, Eq, Structural)]
pub struct FieldDef {
    /// String-table index of the field name; 0 when absent.
    pub name: u64,
    /// The referenced type id.
    pub type_id: u64,
    /// The field holds a count followed by that many elements.
    pub is_array: bool,
    /// The field holds a constant-pool id instead of an inline value.
    pub cp_ref: bool,
}

/// One registered type: id, name index, decode kind, ordered fields.
#[derive(Debug, PartialEq, Eq)]
pub struct TypeDef {
    pub id: u64,
    /// String-table index of the type name; 0 when absent.
    pub name: u64,
    pub kind: TypeKind,
    pub fields: Vec<FieldDef>,
}

/// Mathematical model of a registered type.
pub struct TypeModel {
    pub id: u64,
    pub name: u64,
    pub kind: TypeKind,
    pub fields: Seq<FieldDef>,
}

/// The model of one type definition.
pub open spec fn type_model(t: TypeDef) -> TypeModel {
    TypeModel { id: t.id, name: t.name, kind: t.kind, fields: t.fields@ }
}

/// The models of a registry, in order.
pub open spec fn reg_models(ts: Seq<TypeDef>) -> Seq<TypeModel>
    decreases ts,
{
    if ts.len() == 0 {
        Seq::empty()
    } else {
        seq![type_model(ts[0])] + reg_models(ts.skip(1))
    }
}

/// The first registry entry with type id `id`, if any.
pub open spec fn reg_find(reg: Seq<TypeModel>, id: u64) -> Option<TypeModel>
    decreases reg.len(),
{
    if reg.len() == 0 {
        None
    } else if reg[0].id == id {
        Some(reg[0])
    } else {
        reg_find(reg.skip(1), id)
    }
}

/// The byte spelling of each recognized tag or type name.
pub open spec fn tag_class() -> Seq<u8> {
    seq![99u8, 108u8, 97u8, 115u8, 115u8]
}

pub open spec fn tag_field() -> Seq<u8> {
    seq![102u8, 105u8, 101u8, 108u8, 100u8]
}

pub open spec fn tag_id() -> Seq<u8> {
    seq![105u8, 100u8]
}

pub open spec fn tag_name() -> Seq<u8> {
    seq![110u8, 97u8, 109u8, 101u8]
}

pub open spec fn tag_dimension() -> Seq<u8> {
    seq![100u8, 105u8, 109u8, 101u8, 110u8, 115u8, 105u8, 111u8, 110u8]
}

pub open spec fn tag_constant_pool() -> Seq<u8> {
    seq![99u8, 111u8, 110u8, 115u8, 116u8, 97u8, 110u8, 116u8, 80u8, 111u8, 111u8, 108u8]
}

pub open spec fn tag_true() -> Seq<u8> {
    seq![116u8, 114u8, 117u8, 101u8]
}

pub open spec fn tag_one() -> Seq<u8> {
    seq![49u8]
}

pub open spec fn name_byte() -> Seq<u8> {
    seq![98u8, 121u8, 116u8, 101u8]
}

pub open spec fn name_short() -> Seq<u8> {
    seq![115u8, 104u8, 111u8, 114u8, 116u8]
}

pub open spec fn name_int() -> Seq<u8> {
    seq![105u8, 110u8, 116u8]
}

pub open spec fn name_long() -> Seq<u8> {
    seq![108u8, 111u8, 110u8, 103u8]
}

pub open spec fn name_char() -> Seq<u8> {
    seq![99u8, 104u8, 97u8, 114u8]
}

pub open spec fn name_boolean() -> Seq<u8> {
    seq![98u8, 111u8, 111u8, 108u8, 101u8, 97u8, 110u8]
}

pub open spec fn name_float() -> Seq<u8> {
    seq![102u8, 108u8, 111u8, 97u8, 116u8]
}

pub open spec fn name_double() -> Seq<u8> {
    seq![100u8, 111u8, 117u8, 98u8, 108u8, 101u8]
}

pub open spec fn name_string() -> Seq<u8> {
    seq![
        106u8, 97u8, 118u8, 97u8, 46u8, 108u8, 97u8, 110u8, 103u8, 46u8, 83u8, 116u8,
        114u8, 105u8, 110u8, 103u8,
    ]
}

/// The decode kind a type name declares; every unrecognized name is a
/// composite.
pub open spec fn classify(name: Seq<u8>) -> TypeKind {
    if name == name_byte() || name == name_short() || name == name_int() || name
        == name_long() {
        TypeKind::SignedInt
    } else if name == name_char() {
        TypeKind::UnsignedInt
    } else if name == name_boolean() {
        TypeKind::Boolean
    } else if name == name_float() {
        TypeKind::Float32
    } else if name == name_double() {
        TypeKind::Float64
    } else if name == name_string() {
        TypeKind::StringIndex
    } else {
        TypeKind::Composite
    }
}

/// Decimal value of `s`, or `None` when `s` is empty or holds a non-digit.
pub open spec fn parse_dec(s: Seq<u8>) -> Option<nat> {
    if s.len() == 0 {
        None
    } else {
        parse_dec_rec(s, 0)
    }
}

/// Left-to-right decimal accumulation.
pub open spec fn parse_dec_rec(s: Seq<u8>, acc: nat) -> Option<nat>
    decreases s.len(),
{
    if s.len() == 0 {
        Some(acc)
    } else if 48 <= s[0] <= 57 {
        parse_dec_rec(s.skip(1), acc * 10 + (s[0] - 48) as nat)
    } else {
        None
    }
}

/// The string at index `i`. Index 0 is the format's reserved "no value"
/// and never names anything, so it reads as empty here, as does an index
/// out of range.
pub open spec fn str_at(strs: Seq<Seq<u8>>, i: u64) -> Seq<u8> {
    if 0 < i < strs.len() {
        strs[i as int]
    } else {
        Seq::empty()
    }
}

/// The value index of the first attribute whose name string equals `tag`.
pub open spec fn attr_value(
    attrs: Seq<(u64, u64)>,
    strs: Seq<Seq<u8>>,
    tag: Seq<u8>,
) -> Option<u64>
    decreases attrs.len(),
{
    if attrs.len() == 0 {
        None
    } else if str_at(strs, attrs[0].0) == tag {
        Some(attrs[0].1)
    } else {
        attr_value(attrs.skip(1), strs, tag)
    }
}

/// The numeric value of the attribute named `tag`, when present, decimal,
/// and within 64 bits.
pub open spec fn attr_number(
    attrs: Seq<(u64, u64)>,
    strs: Seq<Seq<u8>>,
    tag: Seq<u8>,
) -> Option<u64> {
    match attr_value(attrs, strs, tag) {
        None => None,
        Some(vi) => match parse_dec(str_at(strs, vi)) {
            None => None,
            Some(n) => if n < u64_bound() {
                Some(n as u64)
            } else {
                None
            },
        },
    }
}

/// The field an element declares: elements not tagged `field`, or without a
/// numeric `class` attribute, declare none.
pub open spec fn field_model(m: ElemModel, strs: Seq<Seq<u8>>) -> Option<FieldDef> {
    if str_at(strs, m.name) == tag_field() {
        match attr_number(m.attributes, strs, tag_class()) {
            None => None,
            Some(tid) => Some(
                FieldDef {
                    name: match attr_value(m.attributes, strs, tag_name()) {
                        None => 0,
                        Some(v) => v,
                    },
                    type_id: tid,
                    is_array: match attr_value(m.attributes, strs, tag_dimension()) {
                        None => false,
                        Some(v) => str_at(strs, v) == tag_one(),
                    },
                    cp_ref: match attr_value(m.attributes, strs, tag_constant_pool()) {
                        None => false,
                        Some(v) => str_at(strs, v) == tag_true(),
                    },
                },
            ),
        }
    } else {
        None
    }
}

/// The fields declared by a run of elements, in order.
pub open spec fn fields_of(ms: Seq<ElemModel>, strs: Seq<Seq<u8>>) -> Seq<FieldDef>
    decreases ms,
{
    if ms.len() == 0 {
        Seq::empty()
    } else {
        match field_model(ms[0], strs) {
            None => fields_of(ms.skip(1), strs),
            Some(f) => seq![f] + fields_of(ms.skip(1), strs),
        }
    }
}

/// The registry entry an element declares: elements not tagged `class`, or
/// without a numeric `id` attribute, declare none.
pub open spec fn class_model(m: ElemModel, strs: Seq<Seq<u8>>) -> Option<TypeModel> {
    if str_at(strs, m.name) == tag_class() {
        match attr_number(m.attributes, strs, tag_id()) {
            None => None,
            Some(tid) => {
                let namev = match attr_value(m.attributes, strs, tag_name()) {
                    None => 0u64,
                    Some(v) => v,
                };
                Some(
                    TypeModel {
                        id: tid,
                        name: namev,
                        kind: classify(str_at(strs, namev)),
                        fields: fields_of(m.children, strs),
                    },
                )
            },
        }
    } else {
        None
    }
}

/// The registry a run of elements declares, in order.
pub open spec fn classes_of(ms: Seq<ElemModel>, strs: Seq<Seq<u8>>) -> Seq<TypeModel>
    decreases ms,
{
    if ms.len() == 0 {
        Seq::empty()
    } else {
        match class_model(ms[0], strs) {
            None => classes_of(ms.skip(1), strs),
            Some(t) => seq![t] + classes_of(ms.skip(1), strs),
        }
    }
}

/// The registry declared by a whole metadata tree: the root's children (and
/// only they) contribute entries.
pub open spec fn registry_of(root: ElemModel, strs: Seq<Seq<u8>>) -> Seq<TypeModel> {
    classes_of(root.children, strs)
}

/// Appending an element appends its declared fields.
proof fn lemma_fields_of_push(ms: Seq<ElemModel>, m: ElemModel, strs: Seq<Seq<u8>>)
    ensures
        fields_of(ms.push(m), strs) == fields_of(ms, strs) + (match field_model(m, strs) {
            None => Seq::<FieldDef>::empty(),
            Some(f) => seq![f],
        }),
    decreases ms,
{
    let s1 = ms.push(m);
    if ms.len() == 0 {
        assert(s1[0] == m);
        assert(s1.skip(1) =~= Seq::<ElemModel>::empty());
        assert(fields_of(s1.skip(1), strs) == fields_of(Seq::<ElemModel>::empty(), strs));
        assert(fields_of(s1, strs) =~= fields_of(ms, strs) + (match field_model(m, strs) {
            None => Seq::<FieldDef>::empty(),
            Some(f) => seq![f],
        }));
    } else {
        assert(s1[0] == ms[0]);
        assert(s1.skip(1) =~= ms.skip(1).push(m));
        lemma_fields_of_push(ms.skip(1), m, strs);
        assert(fields_of(s1, strs) =~= fields_of(ms, strs) + (match field_model(m, strs) {
            None => Seq::<FieldDef>::empty(),
            Some(f) => seq![f],
        }));
    }
}

/// Appending an element appends its declared class entry.
proof fn lemma_classes_of_push(ms: Seq<ElemModel>, m: ElemModel, strs: Seq<Seq<u8>>)
    ensures
        classes_of(ms.push(m), strs) == classes_of(ms, strs) + (match class_model(m, strs) {
            None => Seq::<TypeModel>::empty(),
            Some(t) => seq![t],
        }),
    decreases ms,
{
    let s1 = ms.push(m);
    if ms.len() == 0 {
        assert(s1[0] == m);
        assert(s1.skip(1) =~= Seq::<ElemModel>::empty());
        assert(classes_of(s1.skip(1), strs) == classes_of(Seq::<ElemModel>::empty(), strs));
        assert(classes_of(s1, strs) =~= classes_of(ms, strs) + (match class_model(m, strs) {
            None => Seq::<TypeModel>::empty(),
            Some(t) => seq![t],
        }));
    } else {
        assert(s1[0] == ms[0]);
        assert(s1.skip(1) =~= ms.skip(1).push(m));
        lemma_classes_of_push(ms.skip(1), m, strs);
        assert(classes_of(s1, strs) =~= classes_of(ms, strs) + (match class_model(m, strs) {
            None => Seq::<TypeModel>::empty(),
            Some(t) => seq![t],
        }));
    }
}

/// Appending a type definition appends its model.
proof fn lemma_reg_models_push(ts: Seq<TypeDef>, t: TypeDef)
    ensures
        reg_models(ts.push(t)) == reg_models(ts).push(type_model(t)),
    decreases ts,
{
    let s1 = ts.push(t);
    if ts.len() == 0 {
        assert(s1[0] == t);
        assert(s1.skip(1) =~= Seq::<TypeDef>::empty());
        assert(reg_models(s1.skip(1)) == reg_models(Seq::<TypeDef>::empty()));
        assert(reg_models(s1) =~= reg_models(ts).push(type_model(t)));
    } else {
        assert(s1[0] == ts[0]);
        assert(s1.skip(1) =~= ts.skip(1).push(t));
        lemma_reg_models_push(ts.skip(1), t);
        assert(reg_models(s1) =~= reg_models(ts).push(type_model(t)));
    }
}

/// Byte equality of a vector against a spec constant.
fn tag_eq(a: &Vec<u8>, b: &Vec<u8>) -> (r: bool)
    ensures
        r <==> a@ == b@,
{
    if a.len() != b.len() {
        proof {
            assert(a@.len() != b@.len());
        }
        return false;
    }
    let mut j: usize = 0;
    while j < a.len()
        invariant
            a@.len() == b@.len(),
            0 <= j <= a.len(),
            forall|i: int| 0 <= i < j ==> a@[i] == b@[i],
        decreases a.len() - j,
    {
        if a[j] != b[j] {
            return false;
        }
        j = j + 1;
    }
    proof {
        assert(a@ =~= b@);
    }
    true
}

/// The string at `i`, copied out; empty when `i` is out of range.
fn str_at_exec(strs: &Vec<Vec<u8>>, i: u64) -> (r: Vec<u8>)
    ensures
        r@ == str_at(strs.deep_view(), i),
{
    if 0 < i && i < strs.len() as u64 {
        let s = &strs[i as usize];
        crate::cursor::copy_range(s, 0, s.len())
    } else {
        let r: Vec<u8> = Vec::new();
        proof {
            assert(strs.deep_view().len() == strs@.len());
            assert(r@ =~= str_at(strs.deep_view(), i));
        }
        r
    }
}

/// Looks up the value index of the first attribute named `tag`.
fn attr_value_exec(e: &MetadataElement, strs: &Vec<Vec<u8>>, tag: &Vec<u8>) -> (r: Option<
    u64,
>)
    ensures
        r == attr_value(e.attributes@, strs.deep_view(), tag@),
{
    let mut k: usize = 0;
    proof {
        assert(e.attributes@.skip(0) =~= e.attributes@);
    }
    while k < e.attributes.len()
        invariant
            0 <= k <= e.attributes.len(),
            attr_value(e.attributes@.skip(k as int), strs.deep_view(), tag@) == attr_value(
                e.attributes@,
                strs.deep_view(),
                tag@,
            ),
        decreases e.attributes.len() - k,
    {
        let ghost ta = e.attributes@.skip(k as int);
        proof {
            assert(ta[0] == e.attributes@[k as int]);
            assert(ta.skip(1) =~= e.attributes@.skip(k + 1));
        }
        let name = str_at_exec(strs, e.attributes[k].0);
        if tag_eq(&name, tag) {
            return Some(e.attributes[k].1);
        }
        k = k + 1;
    }
    proof {
        assert(e.attributes@.skip(e.attributes@.len() as int) =~= Seq::<(u64, u64)>::empty());
    }
    None
}

/// Parses a decimal string into a 64-bit value.
fn parse_dec_exec(v: &Vec<u8>) -> (r: Option<u64>)
    ensures
        match r {
            Some(x) => parse_dec(v@) == Some(x as nat),
            None => !(parse_dec(v@) matches Some(n) && n < u64_bound()),
        },
{
    if v.len() == 0 {
        return None;
    }
    let mut acc: u64 = 0;
    let mut k: usize = 0;
    proof {
        assert(v@.skip(0) =~= v@);
    }
    while k < v.len()
        invariant
            0 <= k <= v.len(),
            v@.len() > 0,
            parse_dec_rec(v@.skip(k as int), acc as nat) == parse_dec_rec(v@, 0),
        decreases v.len() - k,
    {
        let ghost tv = v@.skip(k as int);
        proof {
            assert(tv[0] == v@[k as int]);
            assert(tv.skip(1) =~= v@.skip(k + 1));
        }
        let b = v[k];
        if b < 48 || b > 57 {
            return None;
        }
        let d = (b - 48) as u64;
        if acc > (u64::MAX - d) / 10 {
            proof {
                lemma_parse_dec_rec_lower(v@.skip(k + 1), (acc * 10 + d) as nat);
                assert((acc as nat) * 10 + d >= u64_bound());
            }
            return None;
        }
        acc = acc * 10 + d;
        k = k + 1;
    }
    proof {
        assert(v@.skip(v@.len() as int) =~= Seq::<u8>::empty());
        assert(parse_dec_rec(Seq::<u8>::empty(), acc as nat) == Some(acc as nat));
    }
    Some(acc)
}

/// The accumulator only grows along a successful decimal parse.
proof fn lemma_parse_dec_rec_lower(s: Seq<u8>, acc: nat)
    ensures
        parse_dec_rec(s, acc) matches Some(n) ==> n >= acc,
    decreases s.len(),
{
    if s.len() > 0 && 48 <= s[0] <= 57 {
        lemma_parse_dec_rec_lower(s.skip(1), acc * 10 + (s[0] - 48) as nat);
    }
}

/// The numeric value of the attribute named `tag`.
fn attr_number_exec(e: &MetadataElement, strs: &Vec<Vec<u8>>, tag: &Vec<u8>) -> (r: Option<
    u64,
>)
    ensures
        r == attr_number(e.attributes@, strs.deep_view(), tag@),
{
    match attr_value_exec(e, strs, tag) {
        None => None,
        Some(vi) => {
            let sv = str_at_exec(strs, vi);
            parse_dec_exec(&sv)
        },
    }
}

/// Builds the type registry from a decoded metadata tree: one entry per
/// root child tagged `class` with a numeric `id`, its fields from the
/// child's `field` elements, its decode kind from its declared name.
pub fn build_registry(root: &MetadataElement, strs: &Vec<Vec<u8>>) -> (reg: Vec<TypeDef>)
    ensures
        reg_models(reg@) == registry_of(elem_model(*root), strs.deep_view()),
{
    let mut reg: Vec<TypeDef> = Vec::new();
    let mut k: usize = 0;
    let ghost ms = models(root.children@);
    proof {
        lemma_models_len(root.children@);
    }
    while k < root.children.len()
        invariant
            0 <= k <= root.children.len(),
            ms == models(root.children@),
            ms.len() == root.children@.len(),
            reg_models(reg@) == classes_of(ms.take(k as int), strs.deep_view()),
        decreases root.children.len() - k,
    {
        proof {
            lemma_models_index(root.children@, k as int);
            assert(ms.take(k + 1) =~= ms.take(k as int).push(ms[k as int]));
            lemma_classes_of_push(ms.take(k as int), ms[k as int], strs.deep_view());
        }
        let child = &root.children[k];
        match class_def(child, strs) {
            None => {
                proof {
                    assert(reg_models(reg@) + Seq::<TypeModel>::empty() =~= reg_models(
                        reg@,
                    ));
                }
            },
            Some(t) => {
                proof {
                    lemma_reg_models_push(reg@, t);
                    assert(reg_models(reg@) + seq![type_model(t)] =~= reg_models(
                        reg@,
                    ).push(type_model(t)));
                }
                reg.push(t);
            },
        }
        k = k + 1;
    }
    proof {
        assert(ms.take(ms.len() as int) =~= ms);
    }
    reg
}

/// The registry entry one element declares, if any.
fn class_def(e: &MetadataElement, strs: &Vec<Vec<u8>>) -> (r: Option<TypeDef>)
    ensures
        match r {
            Some(t) => class_model(elem_model(*e), strs.deep_view()) == Some(type_model(t)),
            None => class_model(elem_model(*e), strs.deep_view()) is None,
        },
{
    let mut tagv: Vec<u8> = Vec::new();
    tagv.push(99);
    tagv.push(108);
    tagv.push(97);
    tagv.push(115);
    tagv.push(115);
    proof {
        assert(tagv@ =~= tag_class());
    }
    let ename = str_at_exec(strs, e.name);
    if !tag_eq(&ename, &tagv) {
        return None;
    }
    let mut idtag: Vec<u8> = Vec::new();
    idtag.push(105);
    idtag.push(100);
    proof {
        assert(idtag@ =~= tag_id());
    }
    let tid = match attr_number_exec(e, strs, &idtag) {
        None => {
            return None;
        },
        Some(x) => x,
    };
    let mut nametag: Vec<u8> = Vec::new();
    nametag.push(110);
    nametag.push(97);
    nametag.push(109);
    nametag.push(101);
    proof {
        assert(nametag@ =~= tag_name());
    }
    let namev = match attr_value_exec(e, strs, &nametag) {
        None => 0u64,
        Some(v) => v,
    };
    let namestr = str_at_exec(strs, namev);
    let kind = classify_exec(&namestr);
    let fields = collect_fields(e, strs);
    Some(TypeDef { id: tid, name: namev, kind, fields })
}

/// The fields declared by an element's children.
fn collect_fields(e: &MetadataElement, strs: &Vec<Vec<u8>>) -> (fs: Vec<FieldDef>)
    ensures
        fs@ == fields_of(models(e.children@), strs.deep_view()),
{
    let mut fs: Vec<FieldDef> = Vec::new();
    let mut k: usize = 0;
    let ghost ms = models(e.children@);
    proof {
        lemma_models_len(e.children@);
    }
    while k < e.children.len()
        invariant
            0 <= k <= e.children.len(),
            ms == models(e.children@),
            ms.len() == e.children@.len(),
            fs@ == fields_of(ms.take(k as int), strs.deep_view()),
        decreases e.children.len() - k,
    {
        proof {
            lemma_models_index(e.children@, k as int);
            assert(ms.take(k + 1) =~= ms.take(k as int).push(ms[k as int]));
            lemma_fields_of_push(ms.take(k as int), ms[k as int], strs.deep_view());
        }
        let child = &e.children[k];
        match field_def(child, strs) {
            None => {
                proof {
                    assert(fs@ + Seq::<FieldDef>::empty() =~= fs@);
                }
            },
            Some(f) => {
                proof {
                    assert(fs@ + seq![f] =~= fs@.push(f));
                }
                fs.push(f);
            },
        }
        k = k + 1;
    }
    proof {
        assert(ms.take(ms.len() as int) =~= ms);
    }
    fs
}

/// The field one element declares, if any.
fn field_def(e: &MetadataElement, strs: &Vec<Vec<u8>>) -> (r: Option<FieldDef>)
    ensures
        r == field_model(elem_model(*e), strs.deep_view()),
{
    let mut tagv: Vec<u8> = Vec::new();
    tagv.push(102);
    tagv.push(105);
    tagv.push(101);
    tagv.push(108);
    tagv.push(100);
    proof {
        assert(tagv@ =~= tag_field());
    }
    let ename = str_at_exec(strs, e.name);
    if !tag_eq(&ename, &tagv) {
        return None;
    }
    let mut classtag: Vec<u8> = Vec::new();
    classtag.push(99);
    classtag.push(108);
    classtag.push(97);
    classtag.push(115);
    classtag.push(115);
    proof {
        assert(classtag@ =~= tag_class());
    }
    let tid = match attr_number_exec(e, strs, &classtag) {
        None => {
            return None;
        },
        Some(x) => x,
    };
    let mut nametag: Vec<u8> = Vec::new();
    nametag.push(110);
    nametag.push(97);
    nametag.push(109);
    nametag.push(101);
    proof {
        assert(nametag@ =~= tag_name());
    }
    let namev = match attr_value_exec(e, strs, &nametag) {
        None => 0u64,
        Some(v) => v,
    };
    let mut dimtag: Vec<u8> = Vec::new();
    dimtag.push(100);
    dimtag.push(105);
    dimtag.push(109);
    dimtag.push(101);
    dimtag.push(110);
    dimtag.push(115);
    dimtag.push(105);
    dimtag.push(111);
    dimtag.push(110);
    proof {
        assert(dimtag@ =~= tag_dimension());
    }
    let mut onev: Vec<u8> = Vec::new();
    onev.push(49);
    proof {
        assert(onev@ =~= tag_one());
    }
    let is_array = match attr_value_exec(e, strs, &dimtag) {
        None => false,
        Some(v) => {
            let sv = str_at_exec(strs, v);
            tag_eq(&sv, &onev)
        },
    };
    let mut cptag: Vec<u8> = Vec::new();
    cptag.push(99);
    cptag.push(111);
    cptag.push(110);
    cptag.push(115);
    cptag.push(116);
    cptag.push(97);
    cptag.push(110);
    cptag.push(116);
    cptag.push(80);
    cptag.push(111);
    cptag.push(111);
    cptag.push(108);
    proof {
        assert(cptag@ =~= tag_constant_pool());
    }
    let mut truev: Vec<u8> = Vec::new();
    truev.push(116);
    truev.push(114);
    truev.push(117);
    truev.push(101);
    proof {
        assert(truev@ =~= tag_true());
    }
    let cp_ref = match attr_value_exec(e, strs, &cptag) {
        None => false,
        Some(v) => {
            let sv = str_at_exec(strs, v);
            tag_eq(&sv, &truev)
        },
    };
    Some(FieldDef { name: namev, type_id: tid, is_array, cp_ref })
}

/// The decode kind a name string declares.
fn classify_exec(name: &Vec<u8>) -> (r: TypeKind)
    ensures
        r == classify(name@),
{
    let mut t: Vec<u8> = Vec::new();
    t.push(98);
    t.push(121);
    t.push(116);
    t.push(101);
    proof {
        assert(t@ =~= name_byte());
    }
    if tag_eq(name, &t) {
        return TypeKind::SignedInt;
    }
    let mut t2: Vec<u8> = Vec::new();
    t2.push(115);
    t2.push(104);
    t2.push(111);
    t2.push(114);
    t2.push(116);
    proof {
        assert(t2@ =~= name_short());
    }
    if tag_eq(name, &t2) {
        return TypeKind::SignedInt;
    }
    let mut t3: Vec<u8> = Vec::new();
    t3.push(105);
    t3.push(110);
    t3.push(116);
    proof {
        assert(t3@ =~= name_int());
    }
    if tag_eq(name, &t3) {
        return TypeKind::SignedInt;
    }
    let mut t4: Vec<u8> = Vec::new();
    t4.push(108);
    t4.push(111);
    t4.push(110);
    t4.push(103);
    proof {
        assert(t4@ =~= name_long());
    }
    if tag_eq(name, &t4) {
        return TypeKind::SignedInt;
    }
    let mut t5: Vec<u8> = Vec::new();
    t5.push(99);
    t5.push(104);
    t5.push(97);
    t5.push(114);
    proof {
        assert(t5@ =~= name_char());
    }
    if tag_eq(name, &t5) {
        return TypeKind::UnsignedInt;
    }
    let mut t6: Vec<u8> = Vec::new();
    t6.push(98);
    t6.push(111);
    t6.push(111);
    t6.push(108);
    t6.push(101);
    t6.push(97);
    t6.push(110);
    proof {
        assert(t6@ =~= name_boolean());
    }
    if tag_eq(name, &t6) {
        return TypeKind::Boolean;
    }
    let mut t7: Vec<u8> = Vec::new();
    t7.push(102);
    t7.push(108);
    t7.push(111);
    t7.push(97);
    t7.push(116);
    proof {
        assert(t7@ =~= name_float());
    }
    if tag_eq(name, &t7) {
        return TypeKind::Float32;
    }
    let mut t8: Vec<u8> = Vec::new();
    t8.push(100);
    t8.push(111);
    t8.push(117);
    t8.push(98);
    t8.push(108);
    t8.push(101);
    proof {
        assert(t8@ =~= name_double());
    }
    if tag_eq(name, &t8) {
        return TypeKind::Float64;
    }
    let mut t9: Vec<u8> = Vec::new();
    t9.push(106);
    t9.push(97);
    t9.push(118);
    t9.push(97);
    t9.push(46);
    t9.push(108);
    t9.push(97);
    t9.push(110);
    t9.push(103);
    t9.push(46);
    t9.push(83);
    t9.push(116);
    t9.push(114);
    t9.push(105);
    t9.push(110);
    t9.push(103);
    proof {
        assert(t9@ =~= name_string());
    }
    if tag_eq(name, &t9) {
        return TypeKind::StringIndex;
    }
    TypeKind::Composite
}

/// Exec lookup of the first registry entry with type id `id`.
pub fn find_type(reg: &Vec<TypeDef>, id: u64) -> (r: Option<usize>)
    ensures
        match r {
            Some(i) => i < reg.len() && reg_find(reg_models(reg@), id) == Some(
                type_model(reg@[i as int]),
            ) && reg@[i as int].id == id,
            None => reg_find(reg_models(reg@), id) is None,
        },
{
    let mut i: usize = 0;
    proof {
        assert(reg@.skip(0) =~= reg@);
    }
    while i < reg.len()
        invariant
            0 <= i <= reg.len(),
            reg_find(reg_models(reg@.skip(i as int)), id) == reg_find(reg_models(reg@), id),
        decreases reg.len() - i,
    {
        let ghost ti = reg@.skip(i as int);
        proof {
            assert(ti[0] == reg@[i as int]);
            assert(ti.skip(1) =~= reg@.skip(i + 1));
            assert(reg_models(ti) == seq![type_model(ti[0])] + reg_models(reg@.skip(i + 1)));
            assert(reg_models(ti).skip(1) =~= reg_models(reg@.skip(i + 1)));
            assert(reg_models(ti)[0] == type_model(ti[0]));
        }
        if reg[i].id == id {
            return Some(i);
        }
        i = i + 1;
    }
    proof {
        assert(reg@.skip(reg@.len() as int) =~= Seq::<TypeDef>::empty());
    }
    None
}

} // verus!
