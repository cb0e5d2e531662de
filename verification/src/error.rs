use vstd::prelude::*;

verus! {

/// Failure taxonomy of the decoder.
///
/// Fatal conditions abort the chunk (or, for framing failures, the file) in
/// which they occur; recoverable conditions are reported as [`Warning`]s
/// instead and never abort a scan.
#[derive(Clone, Copy, Debug, PartialEq, Eq, Structural)]
pub enum JfrError {
    /// The source ended before an expected read completed.
    Truncated,
    /// The first four bytes of a chunk are not `F L R \0`.
    InvalidMagic,
    /// The chunk's major version is not the supported one.
    UnsupportedVersion,
    /// A variable-length integer does not fit in 64 bits.
    IntegerOverflow,
    /// An offset or size falls outside its containing section's bounds.
    Corrupt,
    /// The input holds no chunk at all.
    EmptyOrInvalidFile,
}

/// Recoverable conditions recorded during a scan.
#[derive(Clone, Copy, Debug, PartialEq, Eq, Structural)]
pub enum Warning {
    /// An event or pool record named this type id, which is missing from the
    /// registry; the record was skipped by its declared size.
    UnknownType(u64),
    /// A constant reference led to an id never materialized in any pool, or
    /// into a reference cycle; an `Unresolved` sentinel was substituted.
    /// Fields: the referenced type id and constant id.
    UnresolvedConstant(u64, u64),
}

/// The warnings a run of skipped type ids produces, in order.
pub open spec fn unknown_warns(tids: Seq<u64>) -> Seq<Warning> {
    tids.map_values(|t: u64| Warning::UnknownType(t))
}

/// The warnings a run of unresolved (type id, constant id) references
/// produces, in order.
pub open spec fn unresolved_warns(ps: Seq<(u64, u64)>) -> Seq<Warning> {
    ps.map_values(|p: (u64, u64)| Warning::UnresolvedConstant(p.0, p.1))
}

/// The type id each warning names.
pub open spec fn warn_tids(ws: Seq<Warning>) -> Seq<u64>
    decreases ws,
{
    if ws.len() == 0 {
        Seq::empty()
    } else {
        seq![match ws[0] {
            Warning::UnknownType(t) => t,
            Warning::UnresolvedConstant(t, _) => t,
        }] + warn_tids(ws.skip(1))
    }
}

/// Appending a warning appends its type id.
pub proof fn lemma_warn_tids_push(ws: Seq<Warning>, w: Warning)
    ensures
        warn_tids(ws.push(w)) == warn_tids(ws).push(
            match w {
                Warning::UnknownType(t) => t,
                Warning::UnresolvedConstant(t, _) => t,
            },
        ),
    decreases ws,
{
    let s1 = ws.push(w);
    let wt = match w {
        Warning::UnknownType(t) => t,
        Warning::UnresolvedConstant(t, _) => t,
    };
    if ws.len() == 0 {
        assert(s1[0] == w);
        assert(s1.skip(1) =~= Seq::<Warning>::empty());
        assert(warn_tids(s1.skip(1)) == warn_tids(Seq::<Warning>::empty()));
        assert(warn_tids(s1) =~= warn_tids(ws).push(wt));
    } else {
        assert(s1[0] == ws[0]);
        assert(s1.skip(1) =~= ws.skip(1).push(w));
        lemma_warn_tids_push(ws.skip(1), w);
        assert(warn_tids(s1) =~= warn_tids(ws).push(wt));
    }
}

} // verus!
