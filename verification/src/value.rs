//! Decoded values and constant-pool resolution.
//!
//! Field values are a closed tagged union driven by the self-describing
//! schema. Constant-pool references are kept as weak (type id, constant id)
//! pairs during the first decoding pass; the resolver then replaces every
//! reference by arena lookup. A reference to an id never materialized in any
//! pool, or a reference cycle, resolves to an `Unresolved` sentinel instead
//! of failing the pool: the resolution budget is one step per arena entry,
//! which any acyclic reference chain stays within and any cycle exhausts.

use vstd::prelude::*;

verus! {

/// A decoded field value. Floating-point fields carry their raw big-endian
/// bits: a four-byte float occupies the low 32 bits. String values carry the
/// string-table index; index 0 is the format's reserved "no value".
#[derive(Debug, PartialEq, Eq)]
pub enum Value {
    /// A signed integer field (zigzag varint).
    Integer(i64),
    /// An unsigned integer field (plain varint).
    Unsigned(u64),
    /// Raw bits of a floating-point field.
    FloatBits(u64),
    /// A boolean field.
    Boolean(bool),
    /// A string-table index.
    Str(u64),
    /// An array field: the element values in order.
    Array(Vec<Value>),
    /// A weak constant-pool reference: (type id, constant id).
    ConstantRef(u64, u64),
    /// The sentinel for a reference that could not be resolved.
    Unresolved(u64, u64),
}

/// Mathematical model of a value.
pub enum VModel {
    Integer(i64),
    Unsigned(u64),
    FloatBits(u64),
    Boolean(bool),
    Str(u64),
    Array(Seq<VModel>),
    ConstantRef(u64, u64),
    Unresolved(u64, u64),
}

/// The model of a value: array vectors abstracted to sequences.
pub open spec fn val_model(v: Value) -> VModel
    decreases v,
{
    match v {
        Value::Integer(x) => VModel::Integer(x),
        Value::Unsigned(x) => VModel::Unsigned(x),
        Value::FloatBits(x) => VModel::FloatBits(x),
        Value::Boolean(x) => VModel::Boolean(x),
        Value::Str(x) => VModel::Str(x),
        Value::Array(vs) => VModel::Array(val_models(vs@)),
        Value::ConstantRef(t, id) => VModel::ConstantRef(t, id),
        Value::Unresolved(t, id) => VModel::Unresolved(t, id),
    }
}

/// The models of a run of values, in order.
pub open spec fn val_models(vs: Seq<Value>) -> Seq<VModel>
    decreases vs,
{
    if vs.len() == 0 {
        Seq::empty()
    } else {
        seq![val_model(vs[0])] + val_models(vs.skip(1))
    }
}

/// Appending one value to a run appends its model to the run's models.
pub proof fn lemma_val_models_push(vs: Seq<Value>, v: Value)
    ensures
        val_models(vs.push(v)) == val_models(vs).push(val_model(v)),
    decreases vs,
{
    let s1 = vs.push(v);
    if vs.len() == 0 {
        assert(s1[0] == v);
        assert(s1.skip(1) =~= Seq::<Value>::empty());
        assert(val_models(s1.skip(1)) == val_models(Seq::<Value>::empty()));
        assert(val_models(s1) =~= val_models(vs).push(val_model(v)));
    } else {
        assert(s1[0] == vs[0]);
        assert(s1.skip(1) =~= vs.skip(1).push(v));
        lemma_val_models_push(vs.skip(1), v);
        assert(val_models(s1) =~= val_models(vs).push(val_model(v)));
    }
}

/// The models of a run have the run's length.
pub proof fn lemma_val_models_len(vs: Seq<Value>)
    ensures
        val_models(vs).len() == vs.len(),
    decreases vs,
{
    if vs.len() > 0 {
        lemma_val_models_len(vs.skip(1));
    }
}

/// One raw or resolved constant-pool entry: owning type id, constant id, and
/// the value.
#[derive(Debug, PartialEq, Eq)]
pub struct PoolEntry {
    pub type_id: u64,
    pub constant_id: u64,
    pub value: Value,
}

/// The model of a pool arena, in order.
pub open spec fn pool_models(es: Seq<PoolEntry>) -> Seq<(u64, u64, VModel)>
    decreases es,
{
    if es.len() == 0 {
        Seq::empty()
    } else {
        seq![(es[0].type_id, es[0].constant_id, val_model(es[0].value))] + pool_models(
            es.skip(1),
        )
    }
}

/// Appending one entry to an arena appends its model.
pub proof fn lemma_pool_models_push(es: Seq<PoolEntry>, e: PoolEntry)
    ensures
        pool_models(es.push(e)) == pool_models(es).push(
            (e.type_id, e.constant_id, val_model(e.value)),
        ),
    decreases es,
{
    let s1 = es.push(e);
    if es.len() == 0 {
        assert(s1[0] == e);
        assert(s1.skip(1) =~= Seq::<PoolEntry>::empty());
        assert(pool_models(s1.skip(1)) == pool_models(Seq::<PoolEntry>::empty()));
        assert(pool_models(s1) =~= pool_models(es).push(
            (e.type_id, e.constant_id, val_model(e.value)),
        ));
    } else {
        assert(s1[0] == es[0]);
        assert(s1.skip(1) =~= es.skip(1).push(e));
        lemma_pool_models_push(es.skip(1), e);
        assert(pool_models(s1) =~= pool_models(es).push(
            (e.type_id, e.constant_id, val_model(e.value)),
        ));
    }
}

/// The first arena entry for (type id `t`, constant id `id`), if any.
pub open spec fn pool_find(arena: Seq<(u64, u64, VModel)>, t: u64, id: u64) -> Option<VModel>
    decreases arena.len(),
{
    if arena.len() == 0 {
        None
    } else if arena[0].0 == t && arena[0].1 == id {
        Some(arena[0].2)
    } else {
        pool_find(arena.skip(1), t, id)
    }
}

/// Full resolution of one value against an arena, with a step budget:
/// references follow arena lookups until a non-reference value, a missing
/// id, or an exhausted budget; the last two yield the `Unresolved` sentinel.
pub open spec fn resolve_model(v: VModel, arena: Seq<(u64, u64, VModel)>, fuel: nat) -> VModel
    decreases fuel, v,
{
    match v {
        VModel::ConstantRef(t, id) => {
            if fuel == 0 {
                VModel::Unresolved(t, id)
            } else {
                match pool_find(arena, t, id) {
                    None => VModel::Unresolved(t, id),
                    Some(w) => resolve_model(w, arena, (fuel - 1) as nat),
                }
            }
        },
        VModel::Array(vs) => VModel::Array(resolve_models(vs, arena, fuel)),
        _ => v,
    }
}

/// Elementwise resolution of a run of values.
pub open spec fn resolve_models(
    vs: Seq<VModel>,
    arena: Seq<(u64, u64, VModel)>,
    fuel: nat,
) -> Seq<VModel>
    decreases fuel, vs,
{
    if vs.len() == 0 {
        Seq::empty()
    } else {
        seq![resolve_model(vs[0], arena, fuel)] + resolve_models(vs.skip(1), arena, fuel)
    }
}

/// Law: a constant-pool reference to an id never materialized in any pool
/// resolves to the `Unresolved(type id, constant id)` sentinel, never to a
/// failure of the pool.
pub proof fn lemma_missing_reference_unresolved(
    t: u64,
    id: u64,
    arena: Seq<(u64, u64, VModel)>,
    fuel: nat,
)
    requires
        pool_find(arena, t, id) is None,
    ensures
        resolve_model(VModel::ConstantRef(t, id), arena, fuel) == VModel::Unresolved(t, id),
{
}

/// Exec lookup of the first arena entry for (t, id).
pub fn find_entry(arena: &Vec<PoolEntry>, t: u64, id: u64) -> (r: Option<usize>)
    ensures
        match r {
            Some(i) => i < arena.len() && pool_find(pool_models(arena@), t, id) == Some(
                val_model(arena@[i as int].value),
            ) && arena@[i as int].type_id == t && arena@[i as int].constant_id == id,
            None => pool_find(pool_models(arena@), t, id) is None,
        },
{
    let mut i: usize = 0;
    proof {
        assert(arena@.skip(0) =~= arena@);
    }
    while i < arena.len()
        invariant
            0 <= i <= arena.len(),
            pool_find(pool_models(arena@.skip(i as int)), t, id) == pool_find(
                pool_models(arena@),
                t,
                id,
            ),
        decreases arena.len() - i,
    {
        let ghost ti = arena@.skip(i as int);
        proof {
            assert(ti[0] == arena@[i as int]);
            assert(ti.skip(1) =~= arena@.skip(i + 1));
            assert(pool_models(ti) == seq![
                (ti[0].type_id, ti[0].constant_id, val_model(ti[0].value)),
            ] + pool_models(arena@.skip(i + 1)));
            assert(pool_models(ti).skip(1) =~= pool_models(arena@.skip(i + 1)));
            assert(pool_models(ti)[0] == (
                ti[0].type_id,
                ti[0].constant_id,
                val_model(ti[0].value),
            ));
        }
        let e = &arena[i];
        if e.type_id == t && e.constant_id == id {
            return Some(i);
        }
        i = i + 1;
    }
    proof {
        assert(arena@.skip(arena@.len() as int) =~= Seq::<PoolEntry>::empty());
    }
    None
}

/// Structural copy of a value; the copy has the same model.
pub fn copy_value(v: &Value) -> (r: Value)
    ensures
        val_model(r) == val_model(*v),
    decreases *v,
{
    match v {
        Value::Integer(x) => Value::Integer(*x),
        Value::Unsigned(x) => Value::Unsigned(*x),
        Value::FloatBits(x) => Value::FloatBits(*x),
        Value::Boolean(x) => Value::Boolean(*x),
        Value::Str(x) => Value::Str(*x),
        Value::ConstantRef(t, id) => Value::ConstantRef(*t, *id),
        Value::Unresolved(t, id) => Value::Unresolved(*t, *id),
        Value::Array(vs) => Value::Array(copy_values(vs)),
    }
}

/// Structural copy of a run of values.
pub fn copy_values(vs: &Vec<Value>) -> (r: Vec<Value>)
    ensures
        val_models(r@) == val_models(vs@),
    decreases vs@,
{
    let mut out: Vec<Value> = Vec::new();
    let mut k: usize = 0;
    while k < vs.len()
        invariant
            0 <= k <= vs.len(),
            val_models(out@) == val_models(vs@).take(k as int),
        decreases vs.len() - k,
    {
        let c = copy_value(&vs[k]);
        proof {
            lemma_val_models_push(out@, c);
            lemma_val_models_index(vs@, k as int);
            assert(val_models(vs@).take(k + 1) =~= val_models(vs@).take(k as int).push(
                val_models(vs@)[k as int],
            ));
        }
        out.push(c);
        k = k + 1;
    }
    proof {
        lemma_val_models_len(vs@);
        assert(val_models(vs@).take(vs@.len() as int) =~= val_models(vs@));
    }
    out
}

/// The model at `i` is the model of the value at `i`.
pub proof fn lemma_val_models_index(vs: Seq<Value>, i: int)
    requires
        0 <= i < vs.len(),
    ensures
        val_models(vs).len() == vs.len(),
        val_models(vs)[i] == val_model(vs[i]),
    decreases vs,
{
    lemma_val_models_len(vs);
    if i > 0 {
        lemma_val_models_index(vs.skip(1), i - 1);
    } else {
        lemma_val_models_len(vs.skip(1));
    }
}

/// Resolves one value against a raw arena: every reference is chased through
/// the arena with a budget of `fuel` lookups; missing ids and exhausted
/// budgets leave the `Unresolved` sentinel.
pub fn resolve_value(v: &Value, arena: &Vec<PoolEntry>, fuel: u64) -> (r: Value)
    ensures
        val_model(r) == resolve_model(val_model(*v), pool_models(arena@), fuel as nat),
    decreases fuel as nat, *v,
{
    match v {
        Value::ConstantRef(t, id) => {
            if fuel == 0 {
                return Value::Unresolved(*t, *id);
            }
            match find_entry(arena, *t, *id) {
                None => Value::Unresolved(*t, *id),
                Some(i) => {
                    let w = copy_value(&arena[i].value);
                    resolve_value(&w, arena, fuel - 1)
                },
            }
        },
        Value::Array(vs) => Value::Array(resolve_values(vs, arena, fuel)),
        Value::Integer(x) => Value::Integer(*x),
        Value::Unsigned(x) => Value::Unsigned(*x),
        Value::FloatBits(x) => Value::FloatBits(*x),
        Value::Boolean(x) => Value::Boolean(*x),
        Value::Str(x) => Value::Str(*x),
        Value::Unresolved(t, id) => Value::Unresolved(*t, *id),
    }
}

/// Resolves a run of values elementwise.
pub fn resolve_values(vs: &Vec<Value>, arena: &Vec<PoolEntry>, fuel: u64) -> (r: Vec<Value>)
    ensures
        val_models(r@) == resolve_models(val_models(vs@), pool_models(arena@), fuel as nat),
    decreases fuel as nat, vs@,
{
    let mut out: Vec<Value> = Vec::new();
    let mut k: usize = 0;
    while k < vs.len()
        invariant
            0 <= k <= vs.len(),
            val_models(out@) == resolve_models(
                val_models(vs@),
                pool_models(arena@),
                fuel as nat,
            ).take(k as int),
        decreases vs.len() - k,
    {
        let c = resolve_value(&vs[k], arena, fuel);
        proof {
            lemma_val_models_push(out@, c);
            lemma_val_models_index(vs@, k as int);
            lemma_resolve_models_index(
                val_models(vs@),
                pool_models(arena@),
                fuel as nat,
                k as int,
            );
            let full = resolve_models(val_models(vs@), pool_models(arena@), fuel as nat);
            assert(full.take(k + 1) =~= full.take(k as int).push(full[k as int]));
        }
        out.push(c);
        k = k + 1;
    }
    proof {
        lemma_val_models_len(vs@);
        lemma_resolve_models_len(val_models(vs@), pool_models(arena@), fuel as nat);
        let full = resolve_models(val_models(vs@), pool_models(arena@), fuel as nat);
        assert(full.take(full.len() as int) =~= full);
    }
    out
}

/// Resolved runs have the run's length.
pub proof fn lemma_resolve_models_len(
    vs: Seq<VModel>,
    arena: Seq<(u64, u64, VModel)>,
    fuel: nat,
)
    ensures
        resolve_models(vs, arena, fuel).len() == vs.len(),
    decreases vs,
{
    if vs.len() > 0 {
        lemma_resolve_models_len(vs.skip(1), arena, fuel);
    }
}

/// The resolved run at `i` is the resolution of the value at `i`.
pub proof fn lemma_resolve_models_index(
    vs: Seq<VModel>,
    arena: Seq<(u64, u64, VModel)>,
    fuel: nat,
    i: int,
)
    requires
        0 <= i < vs.len(),
    ensures
        resolve_models(vs, arena, fuel).len() == vs.len(),
        resolve_models(vs, arena, fuel)[i] == resolve_model(vs[i], arena, fuel),
    decreases vs,
{
    lemma_resolve_models_len(vs, arena, fuel);
    if i > 0 {
        lemma_resolve_models_index(vs.skip(1), arena, fuel, i - 1);
    } else {
        lemma_resolve_models_len(vs.skip(1), arena, fuel);
    }
}

/// The (type id, constant id) pairs of every `Unresolved` sentinel left in
/// a value, in order of appearance.
pub open spec fn unresolved_of(v: VModel) -> Seq<(u64, u64)>
    decreases v,
{
    match v {
        VModel::Unresolved(t, id) => seq![(t, id)],
        VModel::Array(vs) => unresolved_of_list(vs),
        _ => Seq::empty(),
    }
}

/// The sentinels of a run of values, in order.
pub open spec fn unresolved_of_list(vs: Seq<VModel>) -> Seq<(u64, u64)>
    decreases vs,
{
    if vs.len() == 0 {
        Seq::empty()
    } else {
        unresolved_of(vs[0]) + unresolved_of_list(vs.skip(1))
    }
}

/// Appending a value appends its sentinels.
pub proof fn lemma_unresolved_list_push(vs: Seq<VModel>, v: VModel)
    ensures
        unresolved_of_list(vs.push(v)) == unresolved_of_list(vs) + unresolved_of(v),
    decreases vs,
{
    let s1 = vs.push(v);
    if vs.len() == 0 {
        assert(s1[0] == v);
        assert(s1.skip(1) =~= Seq::<VModel>::empty());
        assert(unresolved_of_list(s1.skip(1)) == unresolved_of_list(Seq::<VModel>::empty()));
        assert(unresolved_of_list(s1) =~= unresolved_of_list(vs) + unresolved_of(v));
    } else {
        assert(s1[0] == vs[0]);
        assert(s1.skip(1) =~= vs.skip(1).push(v));
        lemma_unresolved_list_push(vs.skip(1), v);
        assert(unresolved_of_list(s1) =~= unresolved_of_list(vs) + unresolved_of(v));
    }
}

/// Appends every sentinel left in `v` to `out`.
pub fn collect_unresolved(v: &Value, out: &mut Vec<(u64, u64)>)
    ensures
        final(out)@ == old(out)@ + unresolved_of(val_model(*v)),
    decreases *v,
{
    match v {
        Value::Unresolved(t, id) => {
            proof {
                assert(old(out)@.push((*t, *id)) =~= old(out)@ + seq![(*t, *id)]);
            }
            out.push((*t, *id));
        },
        Value::Array(vs) => {
            collect_unresolved_list(vs, out);
        },
        _ => {
            proof {
                assert(old(out)@ + unresolved_of(val_model(*v)) =~= old(out)@);
            }
        },
    }
}

/// Appends every sentinel left in a run of values to `out`.
pub fn collect_unresolved_list(vs: &Vec<Value>, out: &mut Vec<(u64, u64)>)
    ensures
        final(out)@ == old(out)@ + unresolved_of_list(val_models(vs@)),
    decreases vs@,
{
    let mut k: usize = 0;
    while k < vs.len()
        invariant
            0 <= k <= vs.len(),
            out@ == old(out)@ + unresolved_of_list(val_models(vs@).take(k as int)),
        decreases vs.len() - k,
    {
        proof {
            lemma_val_models_index(vs@, k as int);
            let vm = val_models(vs@);
            assert(vm.take(k + 1) =~= vm.take(k as int).push(vm[k as int]));
            lemma_unresolved_list_push(vm.take(k as int), vm[k as int]);
        }
        collect_unresolved(&vs[k], out);
        proof {
            let vm = val_models(vs@);
            assert(old(out)@ + unresolved_of_list(vm.take(k as int)) + unresolved_of(
                vm[k as int],
            ) =~= old(out)@ + unresolved_of_list(vm.take(k + 1)));
        }
        k = k + 1;
    }
    proof {
        lemma_val_models_len(vs@);
        assert(val_models(vs@).take(vs@.len() as int) =~= val_models(vs@));
    }
}

} // verus!
