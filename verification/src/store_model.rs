//! A verified model of the store's documented semantics: a sorted key-value
//! map with lease-scoped entries, lease grant / keep-alive / revoke, and an
//! append-only change log from which watchers are fed.
//!
//! The model keeps entries strictly sorted by key in lexicographic order, so
//! a prefix read returns its matches in the store's native key order. Leases
//! are identifiers handed out by [`StoreModel::lease_grant`]; the model does
//! not track wall-clock time — a lease lapsing is modelled by
//! [`StoreModel::lease_revoke`], which deletes the keys scoped to it, as the
//! store does when a lease expires.

use vstd::prelude::*;

use crate::errors::ConfigError;
use crate::strings::{
    chars_is_prefix, chars_lex_lt, chars_vec, is_prefix, lemma_lex_lt_total, lemma_lex_lt_trans,
    lex_lt,
};

verus! {

/// The mathematical value of one stored entry: `lease == 0` means the entry
/// is not scoped to any lease.
#[verifier::ext_equal]
pub ghost struct KvView {
    pub key: Seq<char>,
    pub value: Seq<char>,
    pub lease: int,
}

/// The mathematical value of one change-log event. `put` is true for a
/// write, false for a deletion; deletions carry an empty value and no lease.
#[verifier::ext_equal]
pub ghost struct EventView {
    pub put: bool,
    pub key: Seq<char>,
    pub value: Seq<char>,
    pub lease: int,
}

/// The mathematical value of the whole store.
#[verifier::ext_equal]
pub ghost struct StoreView {
    /// The entries, strictly sorted by key.
    pub kvs: Seq<KvView>,
    /// The live lease identifiers.
    pub leases: Seq<int>,
    /// The identifier the next grant returns; above every granted one.
    pub next_lease: int,
    /// Every put and delete so far, oldest first.
    pub log: Seq<EventView>,
}

/// The elements of `s` that satisfy `pred`, in order.
pub open spec fn seq_keep<A>(s: Seq<A>, pred: spec_fn(A) -> bool) -> Seq<A>
    decreases s.len(),
{
    if s.len() == 0 {
        s
    } else if pred(s.first()) {
        seq![s.first()] + seq_keep(s.drop_first(), pred)
    } else {
        seq_keep(s.drop_first(), pred)
    }
}

/// Membership in a kept sequence: exactly the members that satisfy `pred`.
pub proof fn lemma_seq_keep_contains<A>(s: Seq<A>, pred: spec_fn(A) -> bool, x: A)
    ensures
        seq_keep(s, pred).contains(x) <==> s.contains(x) && pred(x),
    decreases s.len(),
{
    if s.len() > 0 {
        lemma_seq_keep_contains(s.drop_first(), pred, x);
        if s.contains(x) && pred(x) {
            let i = choose|i: int| 0 <= i < s.len() && s[i] == x;
            if i == 0 {
                assert(seq_keep(s, pred)[0] == x);
                assert(seq_keep(s, pred).contains(x));
            } else {
                assert(s.drop_first()[i - 1] == x);
                assert(s.drop_first().contains(x));
                if pred(s.first()) {
                    let j = choose|j: int|
                        0 <= j < seq_keep(s.drop_first(), pred).len() && seq_keep(
                            s.drop_first(),
                            pred,
                        )[j] == x;
                    assert(seq_keep(s, pred)[j + 1] == x);
                    assert(seq_keep(s, pred).contains(x));
                }
            }
        }
        if seq_keep(s, pred).contains(x) {
            let i = choose|i: int| 0 <= i < seq_keep(s, pred).len() && seq_keep(s, pred)[i] == x;
            if pred(s.first()) {
                if i == 0 {
                    assert(s[0] == x);
                    assert(s.contains(x));
                } else {
                    assert(seq_keep(s.drop_first(), pred)[i - 1] == x);
                    assert(seq_keep(s.drop_first(), pred).contains(x));
                    let j = choose|j: int| 0 <= j < s.drop_first().len() && s.drop_first()[j] == x;
                    assert(s[j + 1] == x);
                    assert(s.contains(x));
                }
            } else {
                assert(seq_keep(s.drop_first(), pred).contains(x));
                let j = choose|j: int| 0 <= j < s.drop_first().len() && s.drop_first()[j] == x;
                assert(s[j + 1] == x);
                assert(s.contains(x));
            }
        }
    }
}

/// Entries strictly sorted by key, lexicographically.
pub open spec fn kvs_sorted(s: Seq<KvView>) -> bool {
    forall|i: int, j: int|
        0 <= i < j < s.len() ==> lex_lt(#[trigger] s[i].key, #[trigger] s[j].key)
}

/// Keeping a subsequence of strictly sorted entries leaves them strictly
/// sorted.
pub proof fn lemma_seq_keep_sorted(s: Seq<KvView>, pred: spec_fn(KvView) -> bool)
    requires
        kvs_sorted(s),
    ensures
        kvs_sorted(seq_keep(s, pred)),
    decreases s.len(),
{
    if s.len() > 0 {
        assert(kvs_sorted(s.drop_first())) by {
            assert forall|i: int, j: int|
                0 <= i < j < s.drop_first().len() implies lex_lt(
                #[trigger] s.drop_first()[i].key,
                #[trigger] s.drop_first()[j].key,
            ) by {
                assert(s.drop_first()[i] == s[i + 1]);
                assert(s.drop_first()[j] == s[j + 1]);
            }
        }
        lemma_seq_keep_sorted(s.drop_first(), pred);
        if pred(s.first()) {
            let kept = seq_keep(s.drop_first(), pred);
            assert forall|i: int, j: int|
                0 <= i < j < seq_keep(s, pred).len() implies lex_lt(
                #[trigger] seq_keep(s, pred)[i].key,
                #[trigger] seq_keep(s, pred)[j].key,
            ) by {
                if i == 0 {
                    let x = kept[j - 1];
                    assert(kept.contains(x));
                    lemma_seq_keep_contains(s.drop_first(), pred, x);
                    let m = choose|m: int| 0 <= m < s.drop_first().len() && s.drop_first()[m] == x;
                    assert(s[m + 1] == x);
                    assert(lex_lt(s[0].key, s[m + 1].key));
                } else {
                    assert(seq_keep(s, pred)[i] == kept[i - 1]);
                    assert(seq_keep(s, pred)[j] == kept[j - 1]);
                }
            }
        }
    }
}

/// The first entry with key `k`, if any. Under `kvs_sorted` keys are unique,
/// so this is the entry with key `k`.
pub open spec fn kvs_find(s: Seq<KvView>, k: Seq<char>) -> Option<KvView>
    decreases s.len(),
{
    if s.len() == 0 {
        None
    } else if s.first().key == k {
        Some(s.first())
    } else {
        kvs_find(s.drop_first(), k)
    }
}

/// The entries after writing `(k, v)` scoped to lease `l`: the entry with
/// key `k` replaced if present, else inserted at its sorted position.
pub open spec fn kvs_put(s: Seq<KvView>, k: Seq<char>, v: Seq<char>, l: int) -> Seq<KvView>
    decreases s.len(),
{
    let e = KvView { key: k, value: v, lease: l };
    if s.len() == 0 {
        seq![e]
    } else if lex_lt(k, s.first().key) {
        seq![e] + s
    } else if k == s.first().key {
        seq![e] + s.drop_first()
    } else {
        seq![s.first()] + kvs_put(s.drop_first(), k, v, l)
    }
}

/// A write stores exactly what was written under its key.
pub proof fn lemma_kvs_put_find(s: Seq<KvView>, k: Seq<char>, v: Seq<char>, l: int)
    ensures
        kvs_find(kvs_put(s, k, v, l), k) == Some(KvView { key: k, value: v, lease: l }),
    decreases s.len(),
{
    let e = KvView { key: k, value: v, lease: l };
    if s.len() == 0 {
    } else if lex_lt(k, s.first().key) {
        assert((seq![e] + s).first() == e);
    } else if k == s.first().key {
        assert((seq![e] + s.drop_first()).first() == e);
    } else {
        lemma_kvs_put_find(s.drop_first(), k, v, l);
        assert((seq![s.first()] + kvs_put(s.drop_first(), k, v, l)).drop_first() =~= kvs_put(
            s.drop_first(),
            k,
            v,
            l,
        ));
    }
}

/// A write leaves every other key as it was.
pub proof fn lemma_kvs_put_find_other(
    s: Seq<KvView>,
    k: Seq<char>,
    v: Seq<char>,
    l: int,
    k2: Seq<char>,
)
    requires
        k2 != k,
    ensures
        kvs_find(kvs_put(s, k, v, l), k2) == kvs_find(s, k2),
    decreases s.len(),
{
    let e = KvView { key: k, value: v, lease: l };
    if s.len() == 0 {
        assert(seq![e].first() == e);
        assert(seq![e].drop_first() =~= Seq::<KvView>::empty());
        assert(kvs_find(kvs_put(s, k, v, l), k2) == kvs_find(s, k2));
    } else if lex_lt(k, s.first().key) {
        assert((seq![e] + s).first() == e);
        assert((seq![e] + s).drop_first() =~= s);
        assert(kvs_find(kvs_put(s, k, v, l), k2) == kvs_find(s, k2));
    } else if k == s.first().key {
        assert((seq![e] + s.drop_first()).first() == e);
        assert((seq![e] + s.drop_first()).drop_first() =~= s.drop_first());
        assert(kvs_find(kvs_put(s, k, v, l), k2) == kvs_find(s, k2));
    } else {
        lemma_kvs_put_find_other(s.drop_first(), k, v, l, k2);
        assert((seq![s.first()] + kvs_put(s.drop_first(), k, v, l)).first() == s.first());
        assert((seq![s.first()] + kvs_put(s.drop_first(), k, v, l)).drop_first() =~= kvs_put(
            s.drop_first(),
            k,
            v,
            l,
        ));
        assert(kvs_find(kvs_put(s, k, v, l), k2) == kvs_find(s, k2));
    }
}

/// A write keeps the entries strictly sorted.
pub proof fn lemma_kvs_put_sorted(s: Seq<KvView>, k: Seq<char>, v: Seq<char>, l: int, i: int)
    requires
        kvs_sorted(s),
        0 <= i <= s.len(),
        forall|j: int| 0 <= j < i ==> lex_lt(#[trigger] s[j].key, k),
        i < s.len() ==> !lex_lt(s[i].key, k),
    ensures
        kvs_sorted(kvs_put(s, k, v, l)),
{
    lemma_kvs_put_split(s, k, v, l, i);
    let out = kvs_put(s, k, v, l);
    if i < s.len() && s[i].key == k {
        assert forall|a: int, b: int| 0 <= a < b < out.len() implies lex_lt(
            #[trigger] out[a].key,
            #[trigger] out[b].key,
        ) by {
            assert(forall|m: int| 0 <= m < out.len() && m != i ==> #[trigger] out[m] == s[m]);
            assert(out[i].key == s[i].key);
        }
    } else {
        if i < s.len() {
            lemma_lex_lt_total(k, s[i].key);
        }
        assert forall|a: int, b: int| 0 <= a < b < out.len() implies lex_lt(
            #[trigger] out[a].key,
            #[trigger] out[b].key,
        ) by {
            assert(forall|m: int| 0 <= m < i ==> #[trigger] out[m] == s[m]);
            assert(forall|m: int| i < m < out.len() ==> #[trigger] out[m] == s[m - 1]);
            if a == i && b > i {
                if b - 1 > i {
                    lemma_lex_lt_trans(k, s[i].key, s[b - 1].key);
                }
            }
        }
    }
}

/// `kvs_put` as a splice at the insertion point: given that everything
/// before `i` is below `k` and position `i` (if any) is not, the write
/// replaces position `i` when its key is `k` and inserts before it
/// otherwise.
pub proof fn lemma_kvs_put_split(s: Seq<KvView>, k: Seq<char>, v: Seq<char>, l: int, i: int)
    requires
        0 <= i <= s.len(),
        forall|j: int| 0 <= j < i ==> lex_lt(#[trigger] s[j].key, k),
        i < s.len() ==> !lex_lt(s[i].key, k),
    ensures
        i < s.len() && s[i].key == k ==> kvs_put(s, k, v, l) =~= s.take(i) + seq![
            KvView { key: k, value: v, lease: l },
        ] + s.skip(i + 1),
        !(i < s.len() && s[i].key == k) ==> kvs_put(s, k, v, l) =~= s.take(i) + seq![
            KvView { key: k, value: v, lease: l },
        ] + s.skip(i),
    decreases i,
{
    let e = KvView { key: k, value: v, lease: l };
    if i == 0 {
        if s.len() == 0 {
            assert(kvs_put(s, k, v, l) =~= s.take(0) + seq![e] + s.skip(0));
        } else if lex_lt(k, s.first().key) {
            assert(kvs_put(s, k, v, l) =~= s.take(0) + seq![e] + s.skip(0));
        } else if k == s.first().key {
            assert(kvs_put(s, k, v, l) =~= s.take(0) + seq![e] + s.skip(1));
        } else {
            lemma_lex_lt_total(k, s.first().key);
            assert(false);
        }
    } else {
        assert(lex_lt(s[0].key, k));
        lemma_lex_lt_total(k, s[0].key);
        assert(!lex_lt(k, s.first().key));
        assert(k != s.first().key);
        let rest = s.drop_first();
        assert forall|j: int| 0 <= j < i - 1 implies lex_lt(#[trigger] rest[j].key, k) by {
            assert(rest[j] == s[j + 1]);
        }
        assert(i - 1 < rest.len() ==> !lex_lt(rest[i - 1].key, k));
        lemma_kvs_put_split(rest, k, v, l, i - 1);
        if i < s.len() && s[i].key == k {
            assert(rest[i - 1] == s[i]);
            assert(kvs_put(s, k, v, l) =~= seq![s.first()] + (rest.take(i - 1) + seq![e]
                + rest.skip(i)));
            assert(seq![s.first()] + (rest.take(i - 1) + seq![e] + rest.skip(i)) =~= s.take(i)
                + seq![e] + s.skip(i + 1));
        } else {
            assert(kvs_put(s, k, v, l) =~= seq![s.first()] + (rest.take(i - 1) + seq![e]
                + rest.skip(i - 1)));
            assert(seq![s.first()] + (rest.take(i - 1) + seq![e] + rest.skip(i - 1)) =~= s.take(i)
                + seq![e] + s.skip(i));
        }
    }
}

impl StoreView {
    /// Whether lease `l` is currently held by the store.
    pub open spec fn lease_live(self, l: int) -> bool {
        self.leases.contains(l)
    }

    /// Well-formedness: entries strictly sorted; lease identifiers positive,
    /// unique and below the next one; every lease-scoped entry scoped to a
    /// live lease.
    pub open spec fn wf(self) -> bool {
        &&& kvs_sorted(self.kvs)
        &&& 1 <= self.next_lease
        &&& forall|i: int| 0 <= i < self.leases.len() ==> 1 <= #[trigger] self.leases[i]
            < self.next_lease
        &&& forall|i: int, j: int|
            0 <= i < j < self.leases.len() ==> self.leases[i] != self.leases[j]
        &&& forall|i: int|
            0 <= i < self.kvs.len() ==> (#[trigger] self.kvs[i].lease == 0 || self.leases.contains(
                self.kvs[i].lease,
            ))
    }

    /// The view after a successful write of `(k, v)` scoped to lease `l`.
    pub open spec fn with_put(self, k: Seq<char>, v: Seq<char>, l: int) -> StoreView {
        StoreView {
            kvs: kvs_put(self.kvs, k, v, l),
            log: self.log.push(EventView { put: true, key: k, value: v, lease: l }),
            ..self
        }
    }

    /// The view after deleting exactly key `k`.
    pub open spec fn with_del_key(self, k: Seq<char>) -> StoreView {
        StoreView {
            kvs: kvs_without_key(self.kvs, k),
            log: self.log + delete_events(kvs_with_key(self.kvs, k)),
            ..self
        }
    }

    /// The view after deleting every key under prefix `p`.
    pub open spec fn with_del_prefix(self, p: Seq<char>) -> StoreView {
        StoreView {
            kvs: kvs_without_prefix(self.kvs, p),
            log: self.log + delete_events(kvs_matching(self.kvs, p)),
            ..self
        }
    }

    /// The view after a lease grant; the granted identifier is
    /// `self.next_lease`.
    pub open spec fn with_grant(self) -> StoreView {
        StoreView {
            leases: self.leases.push(self.next_lease),
            next_lease: self.next_lease + 1,
            ..self
        }
    }

    /// The view after revoking lease `l`: the lease is dropped and the keys
    /// scoped to it are deleted, as when a lease expires.
    pub open spec fn with_revoke(self, l: int) -> StoreView {
        StoreView {
            kvs: kvs_without_lease(self.kvs, l),
            leases: leases_without(self.leases, l),
            log: self.log + delete_events(kvs_with_lease(self.kvs, l)),
            ..self
        }
    }
}

/// Holds of an entry whose key is not `k`.
pub open spec fn key_ne_pred(k: Seq<char>) -> spec_fn(KvView) -> bool {
    |e: KvView| e.key != k
}

/// Holds of an entry whose key is `k`.
pub open spec fn key_eq_pred(k: Seq<char>) -> spec_fn(KvView) -> bool {
    |e: KvView| e.key == k
}

/// Holds of an entry whose key is not under prefix `p`.
pub open spec fn prefix_out_pred(p: Seq<char>) -> spec_fn(KvView) -> bool {
    |e: KvView| !is_prefix(p, e.key)
}

/// Holds of an entry whose key is under prefix `p`.
pub open spec fn prefix_in_pred(p: Seq<char>) -> spec_fn(KvView) -> bool {
    |e: KvView| is_prefix(p, e.key)
}

/// Holds of an entry not scoped to lease `l`.
pub open spec fn lease_ne_pred(l: int) -> spec_fn(KvView) -> bool {
    |e: KvView| e.lease != l
}

/// Holds of an entry scoped to lease `l`.
pub open spec fn lease_eq_pred(l: int) -> spec_fn(KvView) -> bool {
    |e: KvView| e.lease == l
}

/// Holds of a lease identifier other than `l`.
pub open spec fn id_ne_pred(l: int) -> spec_fn(int) -> bool {
    |x: int| x != l
}

/// Holds of an event whose key is under prefix `p`.
pub open spec fn event_in_pred(p: Seq<char>) -> spec_fn(EventView) -> bool {
    |e: EventView| is_prefix(p, e.key)
}

/// The events of `log` whose key is under prefix `p`, in order.
pub open spec fn events_matching(log: Seq<EventView>, p: Seq<char>) -> Seq<EventView> {
    seq_keep(log, event_in_pred(p))
}

/// The entries of `s` whose key is not `k`.
pub open spec fn kvs_without_key(s: Seq<KvView>, k: Seq<char>) -> Seq<KvView> {
    seq_keep(s, key_ne_pred(k))
}

/// The entries of `s` whose key is `k`.
pub open spec fn kvs_with_key(s: Seq<KvView>, k: Seq<char>) -> Seq<KvView> {
    seq_keep(s, key_eq_pred(k))
}

/// The entries of `s` whose key is not under prefix `p`.
pub open spec fn kvs_without_prefix(s: Seq<KvView>, p: Seq<char>) -> Seq<KvView> {
    seq_keep(s, prefix_out_pred(p))
}

/// The entries of `s` not scoped to lease `l`.
pub open spec fn kvs_without_lease(s: Seq<KvView>, l: int) -> Seq<KvView> {
    seq_keep(s, lease_ne_pred(l))
}

/// The entries of `s` scoped to lease `l`.
pub open spec fn kvs_with_lease(s: Seq<KvView>, l: int) -> Seq<KvView> {
    seq_keep(s, lease_eq_pred(l))
}

/// The lease identifiers of `ls` other than `l`.
pub open spec fn leases_without(ls: Seq<int>, l: int) -> Seq<int> {
    seq_keep(ls, id_ne_pred(l))
}

/// Membership among the leases left after dropping `l`.
pub proof fn lemma_leases_without_contains(ls: Seq<int>, l: int, y: int)
    ensures
        leases_without(ls, l).contains(y) <==> ls.contains(y) && y != l,
{
    lemma_seq_keep_contains(ls, id_ne_pred(l), y);
}

/// Membership among the entries left after deleting a lease's keys.
pub proof fn lemma_kvs_without_lease_contains(s: Seq<KvView>, l: int, y: KvView)
    ensures
        kvs_without_lease(s, l).contains(y) <==> s.contains(y) && y.lease != l,
{
    lemma_seq_keep_contains(s, lease_ne_pred(l), y);
}

/// Keeping a subsequence of pairwise-distinct elements leaves them pairwise
/// distinct.
pub proof fn lemma_seq_keep_distinct<A>(s: Seq<A>, pred: spec_fn(A) -> bool)
    requires
        forall|i: int, j: int| 0 <= i < j < s.len() ==> #[trigger] s[i] != #[trigger] s[j],
    ensures
        forall|i: int, j: int|
            0 <= i < j < seq_keep(s, pred).len() ==> #[trigger] seq_keep(s, pred)[i]
                != #[trigger] seq_keep(s, pred)[j],
    decreases s.len(),
{
    if s.len() > 0 {
        assert forall|i: int, j: int|
            0 <= i < j < s.drop_first().len() implies #[trigger] s.drop_first()[i]
            != #[trigger] s.drop_first()[j] by {
            assert(s.drop_first()[i] == s[i + 1]);
            assert(s.drop_first()[j] == s[j + 1]);
        }
        lemma_seq_keep_distinct(s.drop_first(), pred);
        if pred(s.first()) {
            let kept = seq_keep(s.drop_first(), pred);
            assert forall|i: int, j: int|
                0 <= i < j < seq_keep(s, pred).len() implies #[trigger] seq_keep(s, pred)[i]
                != #[trigger] seq_keep(s, pred)[j] by {
                if i == 0 {
                    let x = kept[j - 1];
                    assert(kept.contains(x));
                    lemma_seq_keep_contains(s.drop_first(), pred, x);
                    let m = choose|m: int| 0 <= m < s.drop_first().len() && s.drop_first()[m] == x;
                    assert(s[m + 1] == x);
                    assert(s[0] != s[m + 1]);
                } else {
                    assert(seq_keep(s, pred)[i] == kept[i - 1]);
                    assert(seq_keep(s, pred)[j] == kept[j - 1]);
                }
            }
        }
    }
}

/// Every kept entry keeps a valid lease reference: its lease is zero or one
/// of the given identifiers.
proof fn lemma_keep_lease_validity(s: Seq<KvView>, pred: spec_fn(KvView) -> bool, leases: Seq<int>)
    requires
        forall|m: int|
            0 <= m < s.len() ==> (#[trigger] s[m].lease == 0 || leases.contains(s[m].lease)),
    ensures
        forall|m: int|
            0 <= m < seq_keep(s, pred).len() ==> (#[trigger] seq_keep(s, pred)[m].lease == 0
                || leases.contains(seq_keep(s, pred)[m].lease)),
{
    assert forall|m: int| 0 <= m < seq_keep(s, pred).len() implies (
    #[trigger] seq_keep(s, pred)[m].lease == 0 || leases.contains(
        seq_keep(s, pred)[m].lease,
    )) by {
        let x = seq_keep(s, pred)[m];
        assert(seq_keep(s, pred).contains(x));
        lemma_seq_keep_contains(s, pred, x);
        let j = choose|j: int| 0 <= j < s.len() && s[j] == x;
    }
}

/// The deletion events for the given entries, in order.
pub open spec fn delete_events(removed: Seq<KvView>) -> Seq<EventView> {
    removed.map_values(
        |e: KvView| EventView { put: false, key: e.key, value: Seq::empty(), lease: 0 },
    )
}

/// The entries under prefix `p`, in key order.
pub open spec fn kvs_matching(s: Seq<KvView>, p: Seq<char>) -> Seq<KvView> {
    seq_keep(s, prefix_in_pred(p))
}

/// One stored entry.
#[derive(Debug, Clone)]
struct KvEntry {
    key: String,
    value: String,
    lease: i64,
}

impl View for KvEntry {
    type V = KvView;

    closed spec fn view(&self) -> KvView {
        KvView { key: self.key@, value: self.value@, lease: self.lease as int }
    }
}

/// One change-log event, as a watcher surfaces it.
#[derive(Debug, Clone)]
pub struct WatchEvent {
    pub kind: EventKind,
    pub key: String,
    pub value: String,
    pub lease: i64,
}

/// Whether an event records a write or a deletion.
#[derive(Debug, Clone, Copy, PartialEq, Eq, Structural)]
pub enum EventKind {
    Put,
    Delete,
}

impl View for WatchEvent {
    type V = EventView;

    open spec fn view(&self) -> EventView {
        EventView {
            put: self.kind is Put,
            key: self.key@,
            value: self.value@,
            lease: self.lease as int,
        }
    }
}

/// The views of a sequence of events.
pub open spec fn events_view(evs: Seq<WatchEvent>) -> Seq<EventView> {
    evs.map_values(|e: WatchEvent| e@)
}

/// The verified store: entries, leases, and the append-only change log.
pub struct StoreModel {
    entries: Vec<KvEntry>,
    leases: Vec<i64>,
    next_lease: i64,
    log: Vec<WatchEvent>,
}

impl View for StoreModel {
    type V = StoreView;

    closed spec fn view(&self) -> StoreView {
        StoreView {
            kvs: Seq::new(self.entries@.len(), |i: int| self.entries@[i]@),
            leases: Seq::new(self.leases@.len(), |i: int| self.leases@[i] as int),
            next_lease: self.next_lease as int,
            log: Seq::new(self.log@.len(), |i: int| self.log@[i]@),
        }
    }
}

impl StoreModel {
    /// Well-formedness of the store; see [`StoreView::wf`].
    pub open spec fn wf(self) -> bool {
        self@.wf()
    }

    /// An empty store holding no entries, no leases, and an empty log.
    pub fn new() -> (s: StoreModel)
        ensures
            s.wf(),
            s@.kvs == Seq::<KvView>::empty(),
            s@.leases == Seq::<int>::empty(),
            s@.next_lease == 1,
            s@.log == Seq::<EventView>::empty(),
    {
        let s = StoreModel { entries: Vec::new(), leases: Vec::new(), next_lease: 1, log: Vec::new() };
        proof {
            assert(s@.kvs =~= Seq::<KvView>::empty());
            assert(s@.leases =~= Seq::<int>::empty());
            assert(s@.log =~= Seq::<EventView>::empty());
        }
        s
    }

    /// Read one key: its stored `(key, value)` pair, or the not-found error
    /// naming the key — exactly when the store has no entry for it.
    pub fn get(&self, key: &str) -> (r: Result<(String, String), ConfigError>)
        ensures
            match r {
                Ok(p) => {
                    &&& kvs_find(self@.kvs, key@) == Some(
                        KvView { key: p.0@, value: p.1@, lease: kvs_find(self@.kvs, key@)->Some_0.lease },
                    )
                    &&& p.0@ == key@
                },
                Err(e) => {
                    &&& kvs_find(self@.kvs, key@) is None
                    &&& e matches ConfigError::KeyDoesNotExist(k) && k@ == key@
                },
            },
    {
        let key_string: String = key.to_owned();
        let n = self.entries.len();
        let mut i: usize = 0;
        proof {
            assert(self@.kvs.skip(0) =~= self@.kvs);
        }
        while i < n
            invariant
                0 <= i <= n == self.entries@.len(),
                n == self@.kvs.len(),
                key_string@ == key@,
                kvs_find(self@.kvs, key@) == kvs_find(self@.kvs.skip(i as int), key@),
            decreases n - i,
        {
            proof {
                assert(self@.kvs.skip(i as int).first() == self@.kvs[i as int]);
                assert(self@.kvs.skip(i as int).drop_first() =~= self@.kvs.skip(i + 1));
            }
            if self.entries[i].key == key_string {
                return Ok((self.entries[i].key.clone(), self.entries[i].value.clone()));
            }
            i = i + 1;
        }
        Err(ConfigError::KeyDoesNotExist(key_string))
    }

    /// Read every entry under a prefix: the matching `(key, value)` pairs in
    /// the store's key order; empty when nothing matches.
    pub fn get_prefix(&self, prefix: &str) -> (r: Vec<(String, String)>)
        ensures
            ({
                let m = kvs_matching(self@.kvs, prefix@);
                &&& r@.len() == m.len()
                &&& forall|i: int|
                    0 <= i < m.len() ==> (#[trigger] r@[i]).0@ == m[i].key && r@[i].1@ == m[i].value
            }),
    {
        let pc = chars_vec(prefix);
        let n = self.entries.len();
        let mut r: Vec<(String, String)> = Vec::new();
        let mut i: usize = 0;
        let ghost mut kept: Seq<KvView> = Seq::empty();
        proof {
            assert(self@.kvs.skip(0) =~= self@.kvs);
            assert(kept + kvs_matching(self@.kvs.skip(0), prefix@) =~= kvs_matching(
                self@.kvs,
                prefix@,
            ));
        }
        while i < n
            invariant
                0 <= i <= n == self.entries@.len(),
                n == self@.kvs.len(),
                pc@ == prefix@,
                kvs_matching(self@.kvs, prefix@) == kept + kvs_matching(
                    self@.kvs.skip(i as int),
                    prefix@,
                ),
                r@.len() == kept.len(),
                forall|j: int|
                    0 <= j < kept.len() ==> (#[trigger] r@[j]).0@ == kept[j].key && r@[j].1@
                        == kept[j].value,
            decreases n - i,
        {
            proof {
                assert(self@.kvs.skip(i as int).first() == self@.kvs[i as int]);
                assert(self@.kvs.skip(i as int).drop_first() =~= self@.kvs.skip(i + 1));
                assert(self@.kvs[i as int] == self.entries@[i as int]@);
            }
            let kc = chars_vec(self.entries[i].key.as_str());
            if chars_is_prefix(&pc, &kc) {
                r.push((self.entries[i].key.clone(), self.entries[i].value.clone()));
                proof {
                    let ghost e = self@.kvs[i as int];
                    assert(kept + (seq![e] + kvs_matching(self@.kvs.skip(i + 1), prefix@))
                        =~= kept.push(e) + kvs_matching(self@.kvs.skip(i + 1), prefix@));
                    kept = kept.push(e);
                }
            }
            i = i + 1;
        }
        proof {
            assert(kvs_matching(self@.kvs.skip(n as int), prefix@) =~= Seq::<KvView>::empty());
            assert(kept + Seq::<KvView>::empty() =~= kept);
        }
        r
    }

    /// The lease the stored entry for `key` is scoped to — zero for an
    /// entry not scoped to any lease — or `None` when the store has no
    /// entry for the key.
    pub fn lease_of(&self, key: &str) -> (r: Option<i64>)
        ensures
            match r {
                Some(l) => kvs_find(self@.kvs, key@) matches Some(e) && e.lease == l as int,
                None => kvs_find(self@.kvs, key@) is None,
            },
    {
        let key_string: String = key.to_owned();
        let n = self.entries.len();
        let mut i: usize = 0;
        proof {
            assert(self@.kvs.skip(0) =~= self@.kvs);
        }
        while i < n
            invariant
                0 <= i <= n == self.entries@.len(),
                n == self@.kvs.len(),
                key_string@ == key@,
                kvs_find(self@.kvs, key@) == kvs_find(self@.kvs.skip(i as int), key@),
            decreases n - i,
        {
            proof {
                assert(self@.kvs.skip(i as int).first() == self@.kvs[i as int]);
                assert(self@.kvs.skip(i as int).drop_first() =~= self@.kvs.skip(i + 1));
            }
            if self.entries[i].key == key_string {
                return Some(self.entries[i].lease);
            }
            i = i + 1;
        }
        None
    }

    /// Whether lease `lease` is live.
    fn has_lease(&self, lease: i64) -> (b: bool)
        ensures
            b == self@.lease_live(lease as int),
    {
        let n = self.leases.len();
        let mut i: usize = 0;
        while i < n
            invariant
                0 <= i <= n == self.leases@.len(),
                n == self@.leases.len(),
                forall|j: int| 0 <= j < i ==> #[trigger] self@.leases[j] != lease as int,
            decreases n - i,
        {
            if self.leases[i] == lease {
                proof {
                    assert(self@.leases[i as int] == lease as int);
                }
                return true;
            }
            i = i + 1;
        }
        false
    }

    /// The index of the first entry whose key is not below `kc`, or the
    /// number of entries if every key is below it.
    fn find_pos(&self, kc: &Vec<char>) -> (idx: usize)
        ensures
            0 <= idx <= self@.kvs.len(),
            forall|j: int| 0 <= j < idx ==> lex_lt(#[trigger] self@.kvs[j].key, kc@),
            idx < self@.kvs.len() ==> !lex_lt(self@.kvs[idx as int].key, kc@),
    {
        let n = self.entries.len();
        let mut i: usize = 0;
        while i < n
            invariant
                0 <= i <= n == self.entries@.len(),
                n == self@.kvs.len(),
                forall|j: int| 0 <= j < i ==> lex_lt(#[trigger] self@.kvs[j].key, kc@),
            decreases n - i,
        {
            let ec = chars_vec(self.entries[i].key.as_str());
            proof {
                assert(self@.kvs[i as int] == self.entries@[i as int]@);
            }
            if !chars_lex_lt(&ec, kc) {
                return i;
            }
            i = i + 1;
        }
        n
    }

    /// Write `(key, value)`, scoped to `lease` when it is non-zero. Succeeds
    /// exactly when the lease is zero or live; on success the entry is
    /// stored (replacing any previous one under that key, keeping key order)
    /// and a put event is appended to the change log. On failure nothing
    /// changes.
    pub fn put(&mut self, key: String, value: String, lease: i64) -> (r: Result<(), ConfigError>)
        requires
            old(self).wf(),
        ensures
            final(self).wf(),
            lease as int == 0 || old(self)@.lease_live(lease as int) ==> r is Ok && final(self)@
                == old(self)@.with_put(key@, value@, lease as int),
            !(lease as int == 0 || old(self)@.lease_live(lease as int)) ==> (r matches Err(e)
                && e matches ConfigError::LeaseNotFound(x) && x == lease) && final(self)@ == old(
                self,
            )@,
    {
        if lease != 0 && !self.has_lease(lease) {
            return Err(ConfigError::LeaseNotFound(lease));
        }
        let ghost s = self@.kvs;
        let kc = chars_vec(key.as_str());
        let idx = self.find_pos(&kc);
        let n = self.entries.len();
        let replace = idx < n && self.entries[idx].key == key;
        let ev = WatchEvent {
            kind: EventKind::Put,
            key: key.clone(),
            value: value.clone(),
            lease,
        };
        let entry = KvEntry { key, value, lease };
        let ghost e = KvView { key: entry.key@, value: entry.value@, lease: lease as int };
        proof {
            if idx < s.len() {
                assert(s[idx as int] == self.entries@[idx as int]@);
            }
            lemma_kvs_put_split(s, e.key, e.value, lease as int, idx as int);
            lemma_kvs_put_sorted(s, e.key, e.value, lease as int, idx as int);
        }
        if replace {
            self.entries.remove(idx);
        }
        self.entries.insert(idx, entry);
        self.log.push(ev);
        proof {
            assert(final(self)@.kvs =~= kvs_put(s, e.key, e.value, lease as int));
            assert(final(self)@.log =~= old(self)@.log.push(ev@));
            assert(final(self)@.leases =~= old(self)@.leases);
            assert(final(self)@ =~= old(self)@.with_put(e.key, e.value, lease as int));
            assert forall|m: int| 0 <= m < final(self)@.kvs.len() implies (
            #[trigger] final(self)@.kvs[m].lease == 0 || final(self)@.leases.contains(
                final(self)@.kvs[m].lease,
            )) by {
                let out = kvs_put(s, e.key, e.value, lease as int);
                if idx < s.len() && s[idx as int].key == e.key {
                    assert(forall|j: int|
                        0 <= j < out.len() && j != idx ==> #[trigger] out[j] == s[j]);
                } else {
                    assert(forall|j: int| 0 <= j < idx ==> #[trigger] out[j] == s[j]);
                    assert(forall|j: int| idx < j < out.len() ==> #[trigger] out[j] == s[j - 1]);
                }
            }
        }
        Ok(())
    }

    /// Grant a new lease; returns its identifier, which is positive and
    /// distinct from every identifier granted before. The requested
    /// time-to-live is not modelled: a lease stays live until revoked.
    pub fn lease_grant(&mut self, ttl: i64) -> (id: i64)
        requires
            old(self).wf(),
            old(self)@.next_lease < i64::MAX as int,
    ensures
            final(self).wf(),
            id as int == old(self)@.next_lease,
            1 <= id,
            final(self)@ == old(self)@.with_grant(),
    {
        let id = self.next_lease;
        self.leases.push(id);
        self.next_lease = self.next_lease + 1;
        proof {
            assert(final(self)@.leases =~= old(self)@.leases.push(id as int));
            assert(final(self)@.kvs =~= old(self)@.kvs);
            assert(final(self)@.log =~= old(self)@.log);
            assert(final(self)@ =~= old(self)@.with_grant());
            assert forall|m: int| 0 <= m < final(self)@.kvs.len() implies (
            #[trigger] final(self)@.kvs[m].lease == 0 || final(self)@.leases.contains(
                final(self)@.kvs[m].lease,
            )) by {
                if old(self)@.kvs[m].lease != 0 {
                    let x = old(self)@.kvs[m].lease;
                    let j = choose|j: int|
                        0 <= j < old(self)@.leases.len() && old(self)@.leases[j] == x;
                    assert(final(self)@.leases[j] == x);
                }
            }
        }
        id
    }

    /// Renew a lease: succeeds exactly when the lease is live; the store is
    /// not changed either way.
    pub fn lease_keep_alive(&self, lease: i64) -> (r: Result<(), ConfigError>)
        ensures
            r is Ok <==> self@.lease_live(lease as int),
            r matches Err(e) ==> e matches ConfigError::LeaseNotFound(x) && x == lease,
    {
        if self.has_lease(lease) {
            Ok(())
        } else {
            Err(ConfigError::LeaseNotFound(lease))
        }
    }

    /// Delete exactly key `key`; a deletion event is logged for the removed
    /// entry, if one was there.
    pub fn delete(&mut self, key: &str)
        requires
            old(self).wf(),
        ensures
            final(self).wf(),
            final(self)@ == old(self)@.with_del_key(key@),
    {
        let key_string: String = key.to_owned();
        let n = self.entries.len();
        let mut kept_vec: Vec<KvEntry> = Vec::new();
        let mut evs: Vec<WatchEvent> = Vec::new();
        let mut i: usize = 0;
        let ghost s = self@.kvs;
        let ghost mut keptv: Seq<KvView> = Seq::empty();
        let ghost mut remv: Seq<KvView> = Seq::empty();
        proof {
            assert(s.skip(0) =~= s);
            assert(keptv + kvs_without_key(s.skip(0), key@) =~= kvs_without_key(s, key@));
            assert(remv + kvs_with_key(s.skip(0), key@) =~= kvs_with_key(s, key@));
        }
        while i < n
            invariant
                0 <= i <= n == self.entries@.len(),
                n == self@.kvs.len(),
                s == self@.kvs,
                key_string@ == key@,
                kvs_without_key(s, key@) == keptv + kvs_without_key(s.skip(i as int), key@),
                kvs_with_key(s, key@) == remv + kvs_with_key(s.skip(i as int), key@),
                kept_vec@.len() == keptv.len(),
                forall|j: int| 0 <= j < keptv.len() ==> (#[trigger] kept_vec@[j])@ == keptv[j],
                evs@.len() == remv.len(),
                forall|j: int|
                    0 <= j < remv.len() ==> (#[trigger] evs@[j])@ == (EventView {
                        put: false,
                        key: remv[j].key,
                        value: Seq::empty(),
                        lease: 0,
                    }),
            decreases n - i,
        {
            proof {
                assert(s.skip(i as int).first() == s[i as int]);
                assert(s.skip(i as int).drop_first() =~= s.skip(i + 1));
                assert(s[i as int] == self.entries@[i as int]@);
            }
            let ghost x = s[i as int];
            if self.entries[i].key == key_string {
                evs.push(
                    WatchEvent {
                        kind: EventKind::Delete,
                        key: self.entries[i].key.clone(),
                        value: String::new(),
                        lease: 0,
                    },
                );
                proof {
                    assert(remv + (seq![x] + kvs_with_key(s.skip(i + 1), key@)) =~= remv.push(x)
                        + kvs_with_key(s.skip(i + 1), key@));
                    remv = remv.push(x);
                }
            } else {
                kept_vec.push(
                    KvEntry {
                        key: self.entries[i].key.clone(),
                        value: self.entries[i].value.clone(),
                        lease: self.entries[i].lease,
                    },
                );
                proof {
                    assert(keptv + (seq![x] + kvs_without_key(s.skip(i + 1), key@)) =~= keptv.push(
                        x,
                    ) + kvs_without_key(s.skip(i + 1), key@));
                    keptv = keptv.push(x);
                }
            }
            i = i + 1;
        }
        proof {
            assert(kvs_without_key(s.skip(n as int), key@) =~= Seq::<KvView>::empty());
            assert(kvs_with_key(s.skip(n as int), key@) =~= Seq::<KvView>::empty());
            assert(keptv + Seq::<KvView>::empty() =~= keptv);
            assert(remv + Seq::<KvView>::empty() =~= remv);
        }
        self.entries = kept_vec;
        self.log.append(&mut evs);
        proof {
            assert(self@.kvs =~= kvs_without_key(s, key@));
            assert(self@.log =~= old(self)@.log + delete_events(kvs_with_key(s, key@)));
            assert(self@.leases =~= old(self)@.leases);
            assert(self@ =~= old(self)@.with_del_key(key@));
            lemma_seq_keep_sorted(s, key_ne_pred(key@));
            lemma_keep_lease_validity(s, key_ne_pred(key@), old(self)@.leases);
        }
    }

    /// Delete every key under prefix `prefix`; a deletion event is logged
    /// for each removed entry, in key order.
    pub fn delete_prefix(&mut self, prefix: &str)
        requires
            old(self).wf(),
        ensures
            final(self).wf(),
            final(self)@ == old(self)@.with_del_prefix(prefix@),
    {
        let pc = chars_vec(prefix);
        let n = self.entries.len();
        let mut kept_vec: Vec<KvEntry> = Vec::new();
        let mut evs: Vec<WatchEvent> = Vec::new();
        let mut i: usize = 0;
        let ghost s = self@.kvs;
        let ghost mut keptv: Seq<KvView> = Seq::empty();
        let ghost mut remv: Seq<KvView> = Seq::empty();
        proof {
            assert(s.skip(0) =~= s);
            assert(keptv + kvs_without_prefix(s.skip(0), prefix@) =~= kvs_without_prefix(
                s,
                prefix@,
            ));
            assert(remv + kvs_matching(s.skip(0), prefix@) =~= kvs_matching(s, prefix@));
        }
        while i < n
            invariant
                0 <= i <= n == self.entries@.len(),
                n == self@.kvs.len(),
                s == self@.kvs,
                pc@ == prefix@,
                kvs_without_prefix(s, prefix@) == keptv + kvs_without_prefix(
                    s.skip(i as int),
                    prefix@,
                ),
                kvs_matching(s, prefix@) == remv + kvs_matching(s.skip(i as int), prefix@),
                kept_vec@.len() == keptv.len(),
                forall|j: int| 0 <= j < keptv.len() ==> (#[trigger] kept_vec@[j])@ == keptv[j],
                evs@.len() == remv.len(),
                forall|j: int|
                    0 <= j < remv.len() ==> (#[trigger] evs@[j])@ == (EventView {
                        put: false,
                        key: remv[j].key,
                        value: Seq::empty(),
                        lease: 0,
                    }),
            decreases n - i,
        {
            proof {
                assert(s.skip(i as int).first() == s[i as int]);
                assert(s.skip(i as int).drop_first() =~= s.skip(i + 1));
                assert(s[i as int] == self.entries@[i as int]@);
            }
            let ghost x = s[i as int];
            let kc = chars_vec(self.entries[i].key.as_str());
            if chars_is_prefix(&pc, &kc) {
                evs.push(
                    WatchEvent {
                        kind: EventKind::Delete,
                        key: self.entries[i].key.clone(),
                        value: String::new(),
                        lease: 0,
                    },
                );
                proof {
                    assert(remv + (seq![x] + kvs_matching(s.skip(i + 1), prefix@)) =~= remv.push(x)
                        + kvs_matching(s.skip(i + 1), prefix@));
                    remv = remv.push(x);
                }
            } else {
                kept_vec.push(
                    KvEntry {
                        key: self.entries[i].key.clone(),
                        value: self.entries[i].value.clone(),
                        lease: self.entries[i].lease,
                    },
                );
                proof {
                    assert(keptv + (seq![x] + kvs_without_prefix(s.skip(i + 1), prefix@))
                        =~= keptv.push(x) + kvs_without_prefix(s.skip(i + 1), prefix@));
                    keptv = keptv.push(x);
                }
            }
            i = i + 1;
        }
        proof {
            assert(kvs_without_prefix(s.skip(n as int), prefix@) =~= Seq::<KvView>::empty());
            assert(kvs_matching(s.skip(n as int), prefix@) =~= Seq::<KvView>::empty());
            assert(keptv + Seq::<KvView>::empty() =~= keptv);
            assert(remv + Seq::<KvView>::empty() =~= remv);
        }
        self.entries = kept_vec;
        self.log.append(&mut evs);
        proof {
            assert(self@.kvs =~= kvs_without_prefix(s, prefix@));
            assert(self@.log =~= old(self)@.log + delete_events(kvs_matching(s, prefix@)));
            assert(self@.leases =~= old(self)@.leases);
            assert(self@ =~= old(self)@.with_del_prefix(prefix@));
            lemma_seq_keep_sorted(s, prefix_out_pred(prefix@));
            lemma_keep_lease_validity(s, prefix_out_pred(prefix@), old(self)@.leases);
        }
    }

    /// Revoke a lease, as the store does when one expires: succeeds exactly
    /// when the lease is live; then the lease is dropped and every entry
    /// scoped to it is deleted, each deletion logged. On failure nothing
    /// changes.
    pub fn lease_revoke(&mut self, lease: i64) -> (r: Result<(), ConfigError>)
        requires
            old(self).wf(),
        ensures
            final(self).wf(),
            r is Ok <==> old(self)@.lease_live(lease as int),
            r matches Err(e) ==> e matches ConfigError::LeaseNotFound(x) && x == lease
                && final(self)@ == old(self)@,
            r is Ok ==> final(self)@ == old(self)@.with_revoke(lease as int),
    {
        if !self.has_lease(lease) {
            return Err(ConfigError::LeaseNotFound(lease));
        }
        let ghost s = self@.kvs;
        let ghost ls = self@.leases;

        // drop the lease identifier
        let m = self.leases.len();
        let mut kept_ls: Vec<i64> = Vec::new();
        let mut i: usize = 0;
        let ghost mut keptl: Seq<int> = Seq::empty();
        proof {
            assert(ls.skip(0) =~= ls);
            assert(keptl + leases_without(ls.skip(0), lease as int) =~= leases_without(
                ls,
                lease as int,
            ));
        }
        while i < m
            invariant
                0 <= i <= m == self.leases@.len(),
                m == self@.leases.len(),
                ls == self@.leases,
                leases_without(ls, lease as int) == keptl + leases_without(
                    ls.skip(i as int),
                    lease as int,
                ),
                kept_ls@.len() == keptl.len(),
                forall|j: int| 0 <= j < keptl.len() ==> #[trigger] kept_ls@[j] as int == keptl[j],
            decreases m - i,
        {
            proof {
                assert(ls.skip(i as int).first() == ls[i as int]);
                assert(ls.skip(i as int).drop_first() =~= ls.skip(i + 1));
                assert(ls[i as int] == self.leases@[i as int] as int);
            }
            let ghost x = ls[i as int];
            if self.leases[i] != lease {
                kept_ls.push(self.leases[i]);
                proof {
                    assert(keptl + (seq![x] + leases_without(ls.skip(i + 1), lease as int))
                        =~= keptl.push(x) + leases_without(ls.skip(i + 1), lease as int));
                    keptl = keptl.push(x);
                }
            }
            i = i + 1;
        }
        proof {
            assert(leases_without(ls.skip(m as int), lease as int) =~= Seq::<int>::empty());
            assert(keptl + Seq::<int>::empty() =~= keptl);
        }
        self.leases = kept_ls;

        // delete the entries scoped to the lease
        let n = self.entries.len();
        let mut kept_vec: Vec<KvEntry> = Vec::new();
        let mut evs: Vec<WatchEvent> = Vec::new();
        let mut k: usize = 0;
        let ghost mut keptv: Seq<KvView> = Seq::empty();
        let ghost mut remv: Seq<KvView> = Seq::empty();
        proof {
            assert(s.skip(0) =~= s);
            assert(keptv + kvs_without_lease(s.skip(0), lease as int) =~= kvs_without_lease(
                s,
                lease as int,
            ));
            assert(remv + kvs_with_lease(s.skip(0), lease as int) =~= kvs_with_lease(
                s,
                lease as int,
            ));
        }
        while k < n
            invariant
                0 <= k <= n == self.entries@.len(),
                n == self@.kvs.len(),
                s == self@.kvs,
                kvs_without_lease(s, lease as int) == keptv + kvs_without_lease(
                    s.skip(k as int),
                    lease as int,
                ),
                kvs_with_lease(s, lease as int) == remv + kvs_with_lease(
                    s.skip(k as int),
                    lease as int,
                ),
                kept_vec@.len() == keptv.len(),
                forall|j: int| 0 <= j < keptv.len() ==> (#[trigger] kept_vec@[j])@ == keptv[j],
                evs@.len() == remv.len(),
                forall|j: int|
                    0 <= j < remv.len() ==> (#[trigger] evs@[j])@ == (EventView {
                        put: false,
                        key: remv[j].key,
                        value: Seq::empty(),
                        lease: 0,
                    }),
            decreases n - k,
        {
            proof {
                assert(s.skip(k as int).first() == s[k as int]);
                assert(s.skip(k as int).drop_first() =~= s.skip(k + 1));
                assert(s[k as int] == self.entries@[k as int]@);
            }
            let ghost x = s[k as int];
            if self.entries[k].lease == lease {
                evs.push(
                    WatchEvent {
                        kind: EventKind::Delete,
                        key: self.entries[k].key.clone(),
                        value: String::new(),
                        lease: 0,
                    },
                );
                proof {
                    assert(remv + (seq![x] + kvs_with_lease(s.skip(k + 1), lease as int))
                        =~= remv.push(x) + kvs_with_lease(s.skip(k + 1), lease as int));
                    remv = remv.push(x);
                }
            } else {
                kept_vec.push(
                    KvEntry {
                        key: self.entries[k].key.clone(),
                        value: self.entries[k].value.clone(),
                        lease: self.entries[k].lease,
                    },
                );
                proof {
                    assert(keptv + (seq![x] + kvs_without_lease(s.skip(k + 1), lease as int))
                        =~= keptv.push(x) + kvs_without_lease(s.skip(k + 1), lease as int));
                    keptv = keptv.push(x);
                }
            }
            k = k + 1;
        }
        proof {
            assert(kvs_without_lease(s.skip(n as int), lease as int) =~= Seq::<KvView>::empty());
            assert(kvs_with_lease(s.skip(n as int), lease as int) =~= Seq::<KvView>::empty());
            assert(keptv + Seq::<KvView>::empty() =~= keptv);
            assert(remv + Seq::<KvView>::empty() =~= remv);
        }
        self.entries = kept_vec;
        self.log.append(&mut evs);
        proof {
            assert(self@.kvs =~= kvs_without_lease(s, lease as int));
            assert(self@.log =~= old(self)@.log + delete_events(kvs_with_lease(s, lease as int)));
            assert(self@.leases =~= leases_without(ls, lease as int));
            assert(self@ =~= old(self)@.with_revoke(lease as int));
            lemma_seq_keep_sorted(s, lease_ne_pred(lease as int));
            lemma_seq_keep_distinct(ls, id_ne_pred(lease as int));
            assert forall|j: int| 0 <= j < self@.leases.len() implies 1 <= #[trigger] self@.leases[j]
                < self@.next_lease by {
                let x = self@.leases[j];
                assert(leases_without(ls, lease as int)[j] == x);
                assert(leases_without(ls, lease as int).contains(x));
                lemma_leases_without_contains(ls, lease as int, x);
                let w = choose|w: int| 0 <= w < ls.len() && ls[w] == x;
                assert(old(self)@.leases[w] == x);
            }
            assert forall|j: int| 0 <= j < self@.kvs.len() implies (#[trigger] self@.kvs[j].lease
                == 0 || self@.leases.contains(self@.kvs[j].lease)) by {
                let x = self@.kvs[j];
                assert(kvs_without_lease(s, lease as int)[j] == x);
                assert(kvs_without_lease(s, lease as int).contains(x));
                lemma_kvs_without_lease_contains(s, lease as int, x);
                let w = choose|w: int| 0 <= w < s.len() && s[w] == x;
                assert(old(self)@.kvs[w] == x);
                if x.lease != 0 {
                    assert(old(self)@.leases.contains(x.lease));
                    let u = choose|u: int| 0 <= u < ls.len() && ls[u] == x.lease;
                    lemma_leases_without_contains(ls, lease as int, x.lease);
                }
            }
        }
        Ok(())
    }
}

/// The mathematical value of a watcher: the prefix it is subscribed to, how
/// far into the store's change log it has read, and whether it was
/// cancelled.
#[verifier::ext_equal]
pub ghost struct WatcherView {
    pub prefix: Seq<char>,
    pub cursor: int,
    pub canceled: bool,
}

/// A subscription to the store's change feed for one key prefix. Polling
/// returns the events under the prefix that were logged since the last poll
/// (or since the watch began), oldest first.
pub struct ModelWatcher {
    prefix: String,
    cursor: usize,
    canceled: bool,
}

impl View for ModelWatcher {
    type V = WatcherView;

    closed spec fn view(&self) -> WatcherView {
        WatcherView { prefix: self.prefix@, cursor: self.cursor as int, canceled: self.canceled }
    }
}

impl ModelWatcher {
    /// The watcher has not read past the store's log.
    pub open spec fn synced(self, store: StoreModel) -> bool {
        0 <= self@.cursor <= store@.log.len()
    }

    /// Subscribe to changes under `prefix`, starting from now: events
    /// already in the log are not reported.
    pub fn watch(store: &StoreModel, prefix: String) -> (w: ModelWatcher)
        ensures
            w@.prefix == prefix@,
            w@.cursor == store@.log.len(),
            !w@.canceled,
            w.synced(*store),
    {
        let w = ModelWatcher { prefix, cursor: store.log.len(), canceled: false };
        proof {
            assert(store@.log.len() == store.log@.len());
        }
        w
    }

    /// Whether the watch was cancelled.
    pub fn is_canceled(&self) -> (b: bool)
        ensures
            b == self@.canceled,
    {
        self.canceled
    }

    /// Cancel the watch; polling is over.
    pub fn cancel(&mut self)
        ensures
            final(self)@ == (WatcherView { canceled: true, ..old(self)@ }),
    {
        self.canceled = true;
    }

    /// Read the events under the watched prefix that were logged since the
    /// last poll, oldest first, and move the cursor to the end of the log.
    pub fn poll(&mut self, store: &StoreModel) -> (evs: Vec<WatchEvent>)
        requires
            old(self).synced(*store),
        ensures
            final(self)@.prefix == old(self)@.prefix,
            final(self)@.canceled == old(self)@.canceled,
            final(self)@.cursor == store@.log.len(),
            final(self).synced(*store),
            events_view(evs@) == events_matching(
                store@.log.skip(old(self)@.cursor),
                old(self)@.prefix,
            ),
    {
        let ghost tail = store@.log.skip(old(self)@.cursor);
        let pc = chars_vec(self.prefix.as_str());
        let n = store.log.len();
        let mut evs: Vec<WatchEvent> = Vec::new();
        let mut i: usize = self.cursor;
        let ghost mut got: Seq<EventView> = Seq::empty();
        proof {
            assert(tail.skip(0) =~= tail);
            assert(got + events_matching(tail.skip(0), self@.prefix) =~= events_matching(
                tail,
                self@.prefix,
            ));
        }
        while i < n
            invariant
                old(self)@.cursor <= i <= n == store.log@.len(),
                n == store@.log.len(),
                self == old(self),
                pc@ == self@.prefix,
                tail == store@.log.skip(old(self)@.cursor),
                events_matching(tail, self@.prefix) == got + events_matching(
                    tail.skip(i - old(self)@.cursor),
                    self@.prefix,
                ),
                evs@.len() == got.len(),
                forall|j: int| 0 <= j < got.len() ==> (#[trigger] evs@[j])@ == got[j],
            decreases n - i,
        {
            let ghost off = i - old(self)@.cursor;
            proof {
                assert(tail.skip(off).first() == tail[off]);
                assert(tail[off] == store@.log[i as int]);
                assert(tail.skip(off).drop_first() =~= tail.skip(off + 1));
                assert(store@.log[i as int] == store.log@[i as int]@);
            }
            let ghost x = tail[off];
            let kc = chars_vec(store.log[i].key.as_str());
            if chars_is_prefix(&pc, &kc) {
                let ev = &store.log[i];
                evs.push(
                    WatchEvent {
                        kind: ev.kind,
                        key: ev.key.clone(),
                        value: ev.value.clone(),
                        lease: ev.lease,
                    },
                );
                proof {
                    assert(got + (seq![x] + events_matching(tail.skip(off + 1), self@.prefix))
                        =~= got.push(x) + events_matching(tail.skip(off + 1), self@.prefix));
                    got = got.push(x);
                }
            }
            i = i + 1;
        }
        proof {
            assert(tail.skip(n - old(self)@.cursor) =~= Seq::<EventView>::empty());
            assert(events_matching(Seq::<EventView>::empty(), self@.prefix)
                =~= Seq::<EventView>::empty());
            assert(got + Seq::<EventView>::empty() =~= got);
            assert(events_view(evs@) =~= got);
        }
        self.cursor = n;
        evs
    }
}

} // verus!
