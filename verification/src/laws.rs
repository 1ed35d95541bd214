//! Laws that relate the client's operations to one another: round trips,
//! lease scoping, the order and completeness of prefix reads, and the shape
//! of mixed reads.

use vstd::prelude::*;

use crate::etcd_conf::{
    apply_one, apply_ops, fetch_one_spec, fetch_vars_spec, kv_pair, kv_pairs, Operation, VarPathSpec,
};
use crate::store_model::{
    kvs_find, kvs_matching, kvs_sorted, lemma_kvs_put_find, lemma_seq_keep_contains,
    lemma_seq_keep_sorted, prefix_in_pred, KvView, StoreView,
};
use crate::strings::is_prefix;

verus! {

/// Round trip: applying a plain write of `(key, value)` — no lease — and
/// then reading the key finds exactly `(key, value)`, unscoped.
pub proof fn lemma_set_then_get(v: StoreView, key: String, value: String, lid: int)
    ensures
        ({
            let ap = apply_ops(
                v,
                seq![Operation::SetKey { key, value, with_lease: false }],
                lid,
            );
            &&& ap.1
            &&& kvs_find(ap.0.kvs, key@) == Some(KvView { key: key@, value: value@, lease: 0 })
        }),
{
    let op = Operation::SetKey { key, value, with_lease: false };
    let ops = seq![op];
    assert(ops.len() == 1);
    assert(ops.first() == op);
    assert(ops.drop_first() =~= Seq::<Operation>::empty());
    let step = apply_one(v, op, lid);
    assert(step == (v.with_put(key@, value@, 0), true));
    assert(apply_ops(v, ops, lid) == apply_ops(step.0, ops.drop_first(), lid));
    assert(apply_ops(step.0, ops.drop_first(), lid) == (step.0, true));
    lemma_kvs_put_find(v.kvs, key@, value@, 0);
}

/// Lease scoping: a write with `with_lease` under a live lease stores the
/// entry scoped to that lease, whose identifier is not zero; under a dead,
/// non-zero lease the write fails and changes nothing.
pub proof fn lemma_set_with_lease(v: StoreView, key: String, value: String, lid: int)
    requires
        v.wf(),
    ensures
        ({
            let ap = apply_ops(v, seq![Operation::SetKey { key, value, with_lease: true }], lid);
            &&& v.lease_live(lid) ==> ap.1 && lid != 0 && kvs_find(ap.0.kvs, key@) == Some(
                KvView { key: key@, value: value@, lease: lid },
            )
            &&& !v.lease_live(lid) && lid != 0 ==> !ap.1 && ap.0 == v
        }),
{
    let op = Operation::SetKey { key, value, with_lease: true };
    let ops = seq![op];
    assert(ops.len() == 1);
    assert(ops.first() == op);
    assert(ops.drop_first() =~= Seq::<Operation>::empty());
    let step = apply_one(v, op, lid);
    if v.lease_live(lid) {
        let j = choose|j: int| 0 <= j < v.leases.len() && v.leases[j] == lid;
        assert(v.leases[j] >= 1);
        assert(step == (v.with_put(key@, value@, lid), true));
        assert(apply_ops(v, ops, lid) == apply_ops(step.0, ops.drop_first(), lid));
        assert(apply_ops(step.0, ops.drop_first(), lid) == (step.0, true));
        lemma_kvs_put_find(v.kvs, key@, value@, lid);
    } else if lid != 0 {
        assert(step == (v, false));
        assert(apply_ops(v, ops, lid) == step);
    }
}

/// A prefix read returns its matches in strictly increasing lexicographic
/// key order, and every returned key is under the prefix.
pub proof fn lemma_prefix_read_sorted(v: StoreView, p: Seq<char>)
    requires
        v.wf(),
    ensures
        kvs_sorted(kvs_matching(v.kvs, p)),
        forall|i: int|
            0 <= i < kvs_matching(v.kvs, p).len() ==> is_prefix(
                p,
                (#[trigger] kvs_matching(v.kvs, p)[i]).key,
            ),
{
    lemma_seq_keep_sorted(v.kvs, prefix_in_pred(p));
    assert forall|i: int| 0 <= i < kvs_matching(v.kvs, p).len() implies is_prefix(
        p,
        (#[trigger] kvs_matching(v.kvs, p)[i]).key,
    ) by {
        let x = kvs_matching(v.kvs, p)[i];
        assert(kvs_matching(v.kvs, p).contains(x));
        lemma_seq_keep_contains(v.kvs, prefix_in_pred(p), x);
    }
}

/// A prefix read over a store in which no key is under the prefix is empty.
pub proof fn lemma_prefix_read_empty(v: StoreView, p: Seq<char>)
    requires
        forall|i: int| 0 <= i < v.kvs.len() ==> !is_prefix(p, (#[trigger] v.kvs[i]).key),
    ensures
        kvs_matching(v.kvs, p) == Seq::<KvView>::empty(),
{
    let m = kvs_matching(v.kvs, p);
    if m.len() > 0 {
        let x = m[0];
        assert(m.contains(x));
        lemma_seq_keep_contains(v.kvs, prefix_in_pred(p), x);
        let j = choose|j: int| 0 <= j < v.kvs.len() && v.kvs[j] == x;
        assert(false);
    }
    assert(m =~= Seq::<KvView>::empty());
}

/// Reading `[Prefix(a), SingleVar(x)]` yields the prefix's matches followed
/// by the single variable's pair, in that order — also when they overlap.
pub proof fn lemma_fetch_vars_mixed(v: StoreView, a: String, x: String)
    requires
        kvs_find(v.kvs, x@) is Some,
    ensures
        fetch_vars_spec(v, seq![VarPathSpec::Prefix(a), VarPathSpec::SingleVar(x)])
            == Ok::<_, Seq<char>>(
            kv_pairs(kvs_matching(v.kvs, a@)) + seq![kv_pair(kvs_find(v.kvs, x@)->0)],
        ),
{
    let specs = seq![VarPathSpec::Prefix(a), VarPathSpec::SingleVar(x)];
    let h = kv_pairs(kvs_matching(v.kvs, a@));
    let t = seq![kv_pair(kvs_find(v.kvs, x@)->0)];
    let none: Seq<(Seq<char>, Seq<char>)> = Seq::empty();
    assert(specs.len() == 2);
    assert(specs.first() == VarPathSpec::Prefix(a));
    assert(specs.drop_first() =~= seq![VarPathSpec::SingleVar(x)]);
    assert(seq![VarPathSpec::SingleVar(x)].first() == VarPathSpec::SingleVar(x));
    assert(seq![VarPathSpec::SingleVar(x)].drop_first() =~= Seq::<VarPathSpec>::empty());
    assert(fetch_one_spec(v, VarPathSpec::Prefix(a)) == Ok::<_, Seq<char>>(h));
    assert(fetch_one_spec(v, VarPathSpec::SingleVar(x)) == Ok::<_, Seq<char>>(t));
    assert(fetch_vars_spec(v, Seq::<VarPathSpec>::empty()) == Ok::<_, Seq<char>>(none));
    assert(fetch_vars_spec(v, seq![VarPathSpec::SingleVar(x)]) == Ok::<_, Seq<char>>(t + none));
    assert(fetch_vars_spec(v, specs) == Ok::<_, Seq<char>>(h + (t + none)));
    assert(h + (t + none) =~= h + t);
}

} // verus!
