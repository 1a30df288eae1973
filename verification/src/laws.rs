use vstd::prelude::*;

use crate::db::{
    Db, SpecValue, get_spec, render_spec, sat_add, msg_expired, unique_keys,
};
use crate::snapshot::{enc_snapshot, dec_snapshot, bounded_pairs, lemma_rt_snapshot};

verus! {

/// A key bound with no ttl never expires: however much time passes, `get`
/// answers the bound value's rendering.
pub proof fn lemma_set_no_ttl_get(
    m: Map<Seq<char>, SpecValue>,
    k: Seq<char>,
    v: SpecValue,
    later: u64,
)
    requires
        !m.contains_key(k),
    ensures
        get_spec(m.insert(k, v.with_exp(None)), k, later) == Ok::<Seq<char>, Seq<char>>(
            render_spec(v.with_exp(None)).push('\n'),
        ),
{
}

/// A key bound with a positive ttl answers its value at the binding
/// instant, and answers the expired error at every instant strictly past
/// the expiration.
pub proof fn lemma_set_ttl_get(
    m: Map<Seq<char>, SpecValue>,
    k: Seq<char>,
    v: SpecValue,
    now: u64,
    d: u64,
    later: u64,
)
    requires
        !m.contains_key(k),
        d > 0,
        now < u64::MAX,
    ensures
        get_spec(m.insert(k, v.with_exp(Some(sat_add(now, d)))), k, now) == Ok::<
            Seq<char>,
            Seq<char>,
        >(render_spec(v.with_exp(Some(sat_add(now, d)))).push('\n')),
        later > now + d ==> get_spec(m.insert(k, v.with_exp(Some(sat_add(now, d)))), k, later)
            == Err::<Seq<char>, Seq<char>>(msg_expired()),
{
}

/// Saving a well-formed store and reading the image back reproduces the
/// entry list — and with it the mapping — exactly.  The boundedness
/// facts are exactly what `make_snap` establishes of every store it
/// serializes.
pub proof fn lemma_snapshot_roundtrip(db: &Db)
    requires
        db.wf(),
        bounded_pairs(db.pairs()),
        db.pairs().len() <= u64::MAX,
    ensures
        dec_snapshot(enc_snapshot(db.pairs())) == Some(db.pairs()),
        unique_keys(db.pairs()),
{
    lemma_rt_snapshot(db.pairs());
}

/// Bindings of distinct keys do not disturb one another: after two
/// insertions under different keys, each key answers its own value.
pub proof fn lemma_distinct_keys_independent(
    m: Map<Seq<char>, SpecValue>,
    k1: Seq<char>,
    k2: Seq<char>,
    v1: SpecValue,
    v2: SpecValue,
)
    requires
        k1 != k2,
    ensures
        m.insert(k1, v1).insert(k2, v2).contains_key(k1),
        m.insert(k1, v1).insert(k2, v2)[k1] == v1,
        m.insert(k1, v1).insert(k2, v2).contains_key(k2),
        m.insert(k1, v1).insert(k2, v2)[k2] == v2,
{
}

} // verus!
