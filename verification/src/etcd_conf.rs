//! Path specifications, mutation operations, and the store client core.
//!
//! A `VarPathSpec` names either one key or a key prefix; its constructors
//! build the physical key by joining a base path and a leaf name with exactly
//! one separator. An `Operation` is a mutation intent applied through the
//! client. `ConfClient` owns the lease state and composes reads, writes and
//! the watch/reconcile tick against the store semantics of
//! [`crate::store_model`].

use vstd::prelude::*;

use crate::errors::ConfigError;
use crate::store_model::{
    events_matching, kvs_find, kvs_matching, EventKind, EventView, KvView, ModelWatcher,
    StoreModel, StoreView, WatchEvent,
};
use crate::strings::chars_vec;
use crate::strings::string_from_chars;

verus! {

/// The canonical path separator.
pub open spec fn sep() -> char {
    '/'
}

/// `s` without its trailing separators.
pub open spec fn trim_trailing_sep(s: Seq<char>) -> Seq<char>
    decreases s.len(),
{
    if s.len() > 0 && s.last() == sep() {
        trim_trailing_sep(s.drop_last())
    } else {
        s
    }
}

/// `s` without its leading separators.
pub open spec fn trim_leading_sep(s: Seq<char>) -> Seq<char>
    decreases s.len(),
{
    if s.len() > 0 && s.first() == sep() {
        trim_leading_sep(s.drop_first())
    } else {
        s
    }
}

/// The physical key built from a base path and a leaf name: the two parts
/// joined by a single separator, whatever separators stood at their edges.
pub open spec fn join_path(base: Seq<char>, leaf: Seq<char>) -> Seq<char> {
    trim_trailing_sep(base) + seq![sep()] + trim_leading_sep(leaf)
}

proof fn lemma_trim_trailing_no_sep(s: Seq<char>)
    ensures
        trim_trailing_sep(s).len() > 0 ==> trim_trailing_sep(s).last() != sep(),
    decreases s.len(),
{
    if s.len() > 0 && s.last() == sep() {
        lemma_trim_trailing_no_sep(s.drop_last());
    }
}

proof fn lemma_trim_leading_no_sep(s: Seq<char>)
    ensures
        trim_leading_sep(s).len() > 0 ==> trim_leading_sep(s).first() != sep(),
    decreases s.len(),
{
    if s.len() > 0 && s.first() == sep() {
        lemma_trim_leading_no_sep(s.drop_first());
    }
}

/// The physical key joins the trimmed base and the trimmed leaf with exactly
/// one separator: the part before the joining separator never ends in one,
/// the part after it never begins with one, and adding a trailing separator
/// to the base or a leading separator to the leaf leaves the key unchanged.
pub proof fn lemma_join_path_canonical(base: Seq<char>, leaf: Seq<char>)
    ensures
        join_path(base, leaf) == trim_trailing_sep(base) + seq![sep()] + trim_leading_sep(leaf),
        trim_trailing_sep(base).len() > 0 ==> trim_trailing_sep(base).last() != sep(),
        trim_leading_sep(leaf).len() > 0 ==> trim_leading_sep(leaf).first() != sep(),
        join_path(base.push(sep()), leaf) == join_path(base, leaf),
        join_path(base, seq![sep()] + leaf) == join_path(base, leaf),
{
    lemma_trim_trailing_no_sep(base);
    lemma_trim_leading_no_sep(leaf);
    assert(base.push(sep()).drop_last() =~= base);
    assert((seq![sep()] + leaf).drop_first() =~= leaf);
}

/// Build the physical key from a base path and a leaf name.
fn join_key(base: &str, leaf: &str) -> (r: String)
    ensures
        r@ == join_path(base@, leaf@),
{
    let mut bc = chars_vec(base);
    while bc.len() > 0 && bc[bc.len() - 1] == '/'
        invariant
            trim_trailing_sep(bc@) == trim_trailing_sep(base@),
        decreases bc.len(),
    {
        proof {
            assert(bc@.last() == bc@[bc@.len() - 1]);
        }
        bc.pop();
    }
    proof {
        assert(trim_trailing_sep(bc@) == bc@);
    }
    bc.push('/');
    let lc = chars_vec(leaf);
    let mut j: usize = 0;
    proof {
        assert(lc@.skip(0) =~= lc@);
    }
    while j < lc.len() && lc[j] == '/'
        invariant
            0 <= j <= lc@.len(),
            trim_leading_sep(lc@.skip(j as int)) == trim_leading_sep(leaf@),
        decreases lc@.len() - j,
    {
        proof {
            assert(lc@.skip(j as int).first() == lc@[j as int]);
            assert(lc@.skip(j as int).drop_first() =~= lc@.skip(j + 1));
        }
        j = j + 1;
    }
    proof {
        assert(trim_leading_sep(lc@.skip(j as int)) == lc@.skip(j as int));
    }
    let ghost before = bc@;
    let mut idx: usize = j;
    while idx < lc.len()
        invariant
            j <= idx <= lc@.len(),
            bc@ == before + lc@.subrange(j as int, idx as int),
        decreases lc@.len() - idx,
    {
        bc.push(lc[idx]);
        proof {
            assert(before + lc@.subrange(j as int, idx as int) + seq![lc@[idx as int]] =~= before
                + lc@.subrange(j as int, idx + 1));
        }
        idx = idx + 1;
    }
    proof {
        assert(lc@.subrange(j as int, lc@.len() as int) =~= lc@.skip(j as int));
        assert(bc@ =~= join_path(base@, leaf@));
    }
    string_from_chars(&bc)
}

/// Whether a logical configuration variable is one key or a key prefix.
/// Immutable after construction; the constructors always join a base path
/// and a leaf name with a single canonical separator.
#[derive(Debug, Clone)]
pub enum VarPathSpec {
    SingleVar(String),
    Prefix(String),
}

impl VarPathSpec {
    /// The physical key or prefix this specification names.
    pub open spec fn spec_key(self) -> Seq<char> {
        match self {
            VarPathSpec::SingleVar(k) => k@,
            VarPathSpec::Prefix(k) => k@,
        }
    }

    /// Build a single-key specification; physical key = join(base, leaf).
    pub fn new_var(p: &str, var: &str) -> (r: VarPathSpec)
        ensures
            r matches VarPathSpec::SingleVar(k) && k@ == join_path(p@, var@),
    {
        VarPathSpec::SingleVar(join_key(p, var))
    }

    /// Build a prefix specification; physical key = join(base, leaf),
    /// interpreted as a prefix match by the read operations.
    pub fn new_prefix(prefix: &str, dir: &str) -> (r: VarPathSpec)
        ensures
            r matches VarPathSpec::Prefix(k) && k@ == join_path(prefix@, dir@),
    {
        VarPathSpec::Prefix(join_key(prefix, dir))
    }
}

/// A mutation intent: pure data, applied through the store client core;
/// equality is structural, as tests compare observed against expected
/// mutations.
/// `SetKey` with `with_lease` ties the key's existence to the client's
/// current lease; `Nope` is the no-op sentinel for default-construction
/// contexts.
#[derive(Debug, Clone, PartialEq)]
pub enum Operation {
    SetKey { key: String, value: String, with_lease: bool },
    DelKey { key: String },
    DelPrefix { prefix: String },
    Nope,
}

impl Default for Operation {
    fn default() -> (r: Self)
        ensures
            r is Nope,
    {
        Operation::Nope
    }
}

/// The `(key, value)` pair of an entry.
pub open spec fn kv_pair(e: KvView) -> (Seq<char>, Seq<char>) {
    (e.key, e.value)
}

/// The `(key, value)` pairs of a sequence of entries, in order.
pub open spec fn kv_pairs(s: Seq<KvView>) -> Seq<(Seq<char>, Seq<char>)> {
    s.map_values(|e: KvView| kv_pair(e))
}

/// The views of a sequence of `(key, value)` pairs.
pub open spec fn pairs_view(r: Seq<(String, String)>) -> Seq<(Seq<char>, Seq<char>)> {
    r.map_values(|p: (String, String)| (p.0@, p.1@))
}

impl VarPathSpec {
    /// Read the one key this specification names: its `(key, value)` pair,
    /// or the not-found error naming the key — exactly when the store has no
    /// entry for it.
    pub fn get(&self, store: &StoreModel) -> (r: Result<(String, String), ConfigError>)
        requires
            self is SingleVar,
        ensures
            match r {
                Ok(p) => kvs_find(store@.kvs, self.spec_key()) matches Some(e) && p.0@ == e.key
                    && p.1@ == e.value,
                Err(er) => {
                    &&& kvs_find(store@.kvs, self.spec_key()) is None
                    &&& er matches ConfigError::KeyDoesNotExist(k) && k@ == self.spec_key()
                },
            },
    {
        match self {
            VarPathSpec::SingleVar(key) => store.get(key.as_str()),
            VarPathSpec::Prefix(_) => vstd::pervasive::unreached(),
        }
    }

    /// Read every entry under the prefix this specification names, in the
    /// store's key order; empty when nothing matches.
    pub fn get_prefix(&self, store: &StoreModel) -> (r: Vec<(String, String)>)
        requires
            self is Prefix,
        ensures
            pairs_view(r@) == kv_pairs(kvs_matching(store@.kvs, self.spec_key())),
    {
        match self {
            VarPathSpec::Prefix(p) => {
                let r = store.get_prefix(p.as_str());
                proof {
                    let m = kvs_matching(store@.kvs, self.spec_key());
                    assert forall|i: int| 0 <= i < m.len() implies pairs_view(r@)[i] == kv_pairs(
                        m,
                    )[i] by {
                        assert(r@[i].0@ == m[i].key && r@[i].1@ == m[i].value);
                    }
                    assert(pairs_view(r@) =~= kv_pairs(m));
                }
                r
            },
            VarPathSpec::SingleVar(_) => vstd::pervasive::unreached(),
        }
    }
}

/// What one read of `sp` against the store yields: the pairs it contributes,
/// or the key of the single variable that is absent.
pub open spec fn fetch_one_spec(v: StoreView, sp: VarPathSpec) -> Result<
    Seq<(Seq<char>, Seq<char>)>,
    Seq<char>,
> {
    match sp {
        VarPathSpec::SingleVar(k) => match kvs_find(v.kvs, k@) {
            Some(e) => Ok(seq![kv_pair(e)]),
            None => Err(k@),
        },
        VarPathSpec::Prefix(p) => Ok(kv_pairs(kvs_matching(v.kvs, p@))),
    }
}

/// What reading `specs` in order against the store yields: the concatenation
/// of each one's pairs, or the key of the first absent single variable.
pub open spec fn fetch_vars_spec(v: StoreView, specs: Seq<VarPathSpec>) -> Result<
    Seq<(Seq<char>, Seq<char>)>,
    Seq<char>,
>
    decreases specs.len(),
{
    if specs.len() == 0 {
        Ok(Seq::empty())
    } else {
        match fetch_one_spec(v, specs.first()) {
            Err(k) => Err(k),
            Ok(h) => match fetch_vars_spec(v, specs.drop_first()) {
                Err(k) => Err(k),
                Ok(t) => Ok(h + t),
            },
        }
    }
}

/// The store client core: it owns the lease state. The connection itself is
/// not modelled: reads and writes go against the store they are handed.
pub struct ConfClient {
    lease_timeout: i64,
    lease_id: Option<i64>,
}

impl ConfClient {
    /// The client's lease identifier: `None` until the first grant.
    pub closed spec fn spec_lease_id(self) -> Option<i64> {
        self.lease_id
    }

    /// The lease time-to-live, in seconds, set at construction.
    pub closed spec fn spec_lease_timeout(self) -> i64 {
        self.lease_timeout
    }

    /// A granted lease identifier is positive.
    pub open spec fn wf(self) -> bool {
        self.spec_lease_id() matches Some(l) ==> l >= 1
    }

    /// A client with no lease yet; one is granted lazily, exactly once, on
    /// first need.
    pub fn new(lease_timeout: i64) -> (c: ConfClient)
        ensures
            c.wf(),
            c.spec_lease_id() is None,
            c.spec_lease_timeout() == lease_timeout,
    {
        ConfClient { lease_timeout, lease_id: None }
    }

    /// The current lease identifier; `None` before the first grant.
    pub fn get_lease_id(&self) -> (r: Option<i64>)
        ensures
            r == self.spec_lease_id(),
    {
        self.lease_id
    }

    /// Grant a lease if none is held yet; afterwards one is held. The store
    /// is only touched when a grant happens.
    fn ensure_lease(&mut self, store: &mut StoreModel) -> (lid: i64)
        requires
            old(self).wf(),
            old(store).wf(),
            old(self).spec_lease_id() is None ==> old(store)@.next_lease < i64::MAX as int,
        ensures
            final(self).wf(),
            final(store).wf(),
            final(self).spec_lease_timeout() == old(self).spec_lease_timeout(),
            final(self).spec_lease_id() == Some(lid),
            lid >= 1,
            match old(self).spec_lease_id() {
                Some(l) => l == lid && *final(self) == *old(self) && final(store)@ == old(store)@,
                None => lid as int == old(store)@.next_lease && final(store)@ == old(
                    store,
                )@.with_grant(),
            },
    {
        match self.lease_id {
            Some(l) => l,
            None => {
                let id = store.lease_grant(self.lease_timeout);
                self.lease_id = Some(id);
                id
            },
        }
    }

    /// Read each specification in order — single variables via
    /// [`VarPathSpec::get`], prefixes via [`VarPathSpec::get_prefix`] — and
    /// concatenate the results, keeping the input order. One absent single
    /// variable fails the whole call: no partial result is returned.
    pub fn fetch_vars(&self, store: &StoreModel, var_spec: &Vec<VarPathSpec>) -> (r: Result<
        Vec<(String, String)>,
        ConfigError,
    >)
        ensures
            match r {
                Ok(pairs) => fetch_vars_spec(store@, var_spec@) matches Ok(t) && pairs_view(pairs@)
                    == t,
                Err(er) => {
                    &&& fetch_vars_spec(store@, var_spec@) matches Err(k)
                    &&& er matches ConfigError::KeyDoesNotExist(ks) && ks@ == k
                },
            },
    {
        let n = var_spec.len();
        let mut res: Vec<(String, String)> = Vec::new();
        let mut i: usize = 0;
        let ghost mut acc: Seq<(Seq<char>, Seq<char>)> = Seq::empty();
        proof {
            assert(var_spec@.skip(0) =~= var_spec@);
            assert(fetch_vars_spec(store@, var_spec@) == fetch_compose(
                acc,
                fetch_vars_spec(store@, var_spec@.skip(0)),
            ));
        }
        while i < n
            invariant
                0 <= i <= n == var_spec@.len(),
                pairs_view(res@) == acc,
                fetch_vars_spec(store@, var_spec@) == fetch_compose(
                    acc,
                    fetch_vars_spec(store@, var_spec@.skip(i as int)),
                ),
            decreases n - i,
        {
            proof {
                assert(var_spec@.skip(i as int).first() == var_spec@[i as int]);
                assert(var_spec@.skip(i as int).drop_first() =~= var_spec@.skip(i + 1));
            }
            let sp = &var_spec[i];
            match sp {
                VarPathSpec::SingleVar(_) => {
                    match sp.get(store) {
                        Ok(pair) => {
                            res.push(pair);
                            proof {
                                let ghost h = fetch_one_spec(store@, var_spec@[i as int])->Ok_0;
                                assert(pairs_view(res@) =~= acc + h);
                                lemma_fetch_compose_step(
                                    acc,
                                    h,
                                    fetch_vars_spec(store@, var_spec@.skip(i + 1)),
                                );
                                acc = acc + h;
                            }
                        },
                        Err(er) => {
                            return Err(er);
                        },
                    }
                },
                VarPathSpec::Prefix(_) => {
                    let pairs = sp.get_prefix(store);
                    let ghost h = pairs_view(pairs@);
                    let m = pairs.len();
                    proof {
                        assert(h.len() == pairs@.len());
                        assert(h.take(0) =~= Seq::<(Seq<char>, Seq<char>)>::empty());
                        assert(pairs_view(res@) =~~= acc + h.take(0));
                    }
                    let mut j: usize = 0;
                    while j < m
                        invariant
                            0 <= j <= m == pairs@.len(),
                            h.len() == pairs@.len(),
                            pairs_view(res@) =~~= acc + h.take(j as int),
                            h == pairs_view(pairs@),
                        decreases m - j,
                    {
                        let ghost res0 = res@;
                        let p = (pairs[j].0.clone(), pairs[j].1.clone());
                        res.push(p);
                        proof {
                            assert(h[j as int] == (pairs@[j as int].0@, pairs@[j as int].1@));
                            assert(p.0@ == pairs@[j as int].0@ && p.1@ == pairs@[j as int].1@);
                            assert(res@ =~= res0.push(p));
                            assert(pairs_view(res@).len() == res0.len() + 1);
                            assert(forall|k: int|
                                0 <= k < res0.len() ==> #[trigger] pairs_view(res@)[k]
                                    == pairs_view(res0)[k]);
                            assert(pairs_view(res@)[res0.len() as int] == (p.0@, p.1@));
                            assert(h.take(j + 1) =~= h.take(j as int).push(h[j as int]));
                            assert(acc + h.take(j + 1) =~~= (acc + h.take(j as int)).push(
                                h[j as int],
                            ));
                            assert(pairs_view(res@) =~~= pairs_view(res0).push((p.0@, p.1@)));
                            assert(pairs_view(res0) == acc + h.take(j as int));
                            assert(pairs_view(res@) =~~= acc + h.take(j + 1));
                        }
                        j = j + 1;
                    }
                    proof {
                        assert(h.take(m as int) =~= h);
                        assert(pairs_view(res@) =~= acc + h);
                        lemma_fetch_compose_step(
                            acc,
                            h,
                            fetch_vars_spec(store@, var_spec@.skip(i + 1)),
                        );
                        acc = acc + h;
                    }
                },
            }
            i = i + 1;
        }
        proof {
            assert(var_spec@.skip(n as int) =~= Seq::<VarPathSpec>::empty());
            assert(acc + Seq::<(Seq<char>, Seq<char>)>::empty() =~= acc);
        }
        Ok(res)
    }
}

/// Prepend already-collected pairs to the outcome of the remaining reads.
pub open spec fn fetch_compose(
    acc: Seq<(Seq<char>, Seq<char>)>,
    rest: Result<Seq<(Seq<char>, Seq<char>)>, Seq<char>>,
) -> Result<Seq<(Seq<char>, Seq<char>)>, Seq<char>> {
    match rest {
        Ok(t) => Ok(acc + t),
        Err(k) => Err(k),
    }
}

pub proof fn lemma_fetch_compose_step(
    acc: Seq<(Seq<char>, Seq<char>)>,
    h: Seq<(Seq<char>, Seq<char>)>,
    rest: Result<Seq<(Seq<char>, Seq<char>)>, Seq<char>>,
)
    ensures
        fetch_compose(acc, fetch_compose(h, rest)) == fetch_compose(acc + h, rest),
{
    match rest {
        Ok(t) => {
            assert(acc + (h + t) =~= (acc + h) + t);
        },
        Err(_) => {},
    }
}

/// The store after one operation applied under lease `lease`, and whether it
/// succeeded: a lease-scoped write under a lease the store no longer holds
/// fails and changes nothing; everything else succeeds.
pub open spec fn apply_one(v: StoreView, op: Operation, lease: int) -> (StoreView, bool) {
    match op {
        Operation::SetKey { key, value, with_lease } => {
            let l = if with_lease {
                lease
            } else {
                0
            };
            if l == 0 || v.lease_live(l) {
                (v.with_put(key@, value@, l), true)
            } else {
                (v, false)
            }
        },
        Operation::DelKey { key } => (v.with_del_key(key@), true),
        Operation::DelPrefix { prefix } => (v.with_del_prefix(prefix@), true),
        Operation::Nope => (v, true),
    }
}

/// The store after the operations applied strictly in order under lease
/// `lease`, and whether all succeeded: a failure at one operation aborts the
/// remaining ones, and what was applied before it stays applied.
pub open spec fn apply_ops(v: StoreView, ops: Seq<Operation>, lease: int) -> (StoreView, bool)
    decreases ops.len(),
{
    if ops.len() == 0 {
        (v, true)
    } else {
        let step = apply_one(v, ops.first(), lease);
        if step.1 {
            apply_ops(step.0, ops.drop_first(), lease)
        } else {
            step
        }
    }
}

/// Applying operations never shortens the change log: events are only
/// appended.
pub proof fn lemma_apply_ops_log_grows(v: StoreView, ops: Seq<Operation>, lease: int)
    ensures
        apply_ops(v, ops, lease).0.log.len() >= v.log.len(),
    decreases ops.len(),
{
    if ops.len() > 0 {
        let step = apply_one(v, ops.first(), lease);
        if step.1 {
            lemma_apply_ops_log_grows(step.0, ops.drop_first(), lease);
        }
    }
}

impl ConfClient {
    /// Apply the operations strictly in the given order, granting a lease
    /// first if none is held. A failure at operation `i` aborts operations
    /// `i+1..`: there is no rollback of what was already applied.
    pub fn kv_operations(&mut self, store: &mut StoreModel, ops: Vec<Operation>) -> (r: Result<
        (),
        ConfigError,
    >)
        requires
            old(self).wf(),
            old(store).wf(),
            old(self).spec_lease_id() is None ==> old(store)@.next_lease < i64::MAX as int,
        ensures
            final(self).wf(),
            final(store).wf(),
            final(self).spec_lease_timeout() == old(self).spec_lease_timeout(),
            ({
                let v0 = if old(self).spec_lease_id() is Some {
                    old(store)@
                } else {
                    old(store)@.with_grant()
                };
                let lid: int = if old(self).spec_lease_id() is Some {
                    old(self).spec_lease_id()->0 as int
                } else {
                    old(store)@.next_lease
                };
                &&& final(self).spec_lease_id() matches Some(l) && l as int == lid
                &&& final(store)@ == apply_ops(v0, ops@, lid).0
                &&& (r is Ok <==> apply_ops(v0, ops@, lid).1)
                &&& (r matches Err(e) ==> e matches ConfigError::LeaseNotFound(x) && x as int
                    == lid)
            }),
    {
        let lid = self.ensure_lease(store);
        let ghost v0 = store@;
        let ghost cl = *self;
        let n = ops.len();
        let mut i: usize = 0;
        proof {
            assert(ops@.skip(0) =~= ops@);
        }
        while i < n
            invariant
                0 <= i <= n == ops@.len(),
                *self == cl,
                self.wf(),
                store.wf(),
                self.spec_lease_id() == Some(lid),
                self.spec_lease_timeout() == old(self).spec_lease_timeout(),
                v0 == (if old(self).spec_lease_id() is Some {
                    old(store)@
                } else {
                    old(store)@.with_grant()
                }),
                lid as int == (if old(self).spec_lease_id() is Some {
                    old(self).spec_lease_id()->0 as int
                } else {
                    old(store)@.next_lease
                }),
                apply_ops(v0, ops@, lid as int) == apply_ops(store@, ops@.skip(i as int), lid as int),
            decreases n - i,
        {
            proof {
                assert(ops@.skip(i as int).first() == ops@[i as int]);
                assert(ops@.skip(i as int).drop_first() =~= ops@.skip(i + 1));
            }
            match &ops[i] {
                Operation::SetKey { key, value, with_lease } => {
                    let l = if *with_lease {
                        lid
                    } else {
                        0
                    };
                    match store.put(key.clone(), value.clone(), l) {
                        Ok(()) => {},
                        Err(e) => {
                            proof {
                                assert(apply_one(store@, ops@[i as int], lid as int).1 == false);
                                assert(apply_ops(store@, ops@.skip(i as int), lid as int) == (
                                    store@,
                                    false,
                                ));
                            }
                            return Err(e);
                        },
                    }
                },
                Operation::DelKey { key } => {
                    store.delete(key.as_str());
                },
                Operation::DelPrefix { prefix } => {
                    store.delete_prefix(prefix.as_str());
                },
                Operation::Nope => {},
            }
            i = i + 1;
        }
        proof {
            assert(ops@.skip(n as int) =~= Seq::<Operation>::empty());
        }
        Ok(())
    }

    /// Enter the monitor's steady state: grant a lease if none is held yet,
    /// using the configured timeout. The store is only touched when a grant
    /// happens.
    pub fn monitor_start(&mut self, store: &mut StoreModel)
        requires
            old(self).wf(),
            old(store).wf(),
            old(self).spec_lease_id() is None ==> old(store)@.next_lease < i64::MAX as int,
        ensures
            final(self).wf(),
            final(store).wf(),
            final(self).spec_lease_timeout() == old(self).spec_lease_timeout(),
            final(self).spec_lease_id() is Some,
            match old(self).spec_lease_id() {
                Some(l) => *final(self) == *old(self) && final(store)@ == old(store)@,
                None => final(self).spec_lease_id() matches Some(l) && l as int == old(
                    store,
                )@.next_lease && final(store)@ == old(store)@.with_grant(),
            },
    {
        let _ = self.ensure_lease(store);
    }
}

/// Whether `op` is the notification the monitor surfaces for the event: a
/// write becomes `SetKey` with `with_lease` exactly when the stored entry is
/// lease-scoped, a deletion becomes `DelKey`.
pub open spec fn op_matches_event(op: Operation, ev: EventView) -> bool {
    if ev.put {
        op matches Operation::SetKey { key, value, with_lease } && key@ == ev.key && value@
            == ev.value && with_lease == (ev.lease != 0)
    } else {
        op matches Operation::DelKey { key } && key@ == ev.key
    }
}

/// Turn a batch of watch events into the notifications handed to the change
/// sink, one per event, in event order.
pub fn watch_notifications(events: &Vec<WatchEvent>) -> (r: Vec<Operation>)
    ensures
        r@.len() == events@.len(),
        forall|i: int|
            0 <= i < events@.len() ==> op_matches_event(#[trigger] r@[i], events@[i]@),
{
    let n = events.len();
    let mut r: Vec<Operation> = Vec::new();
    let mut i: usize = 0;
    while i < n
        invariant
            0 <= i <= n == events@.len(),
            r@.len() == i,
            forall|j: int| 0 <= j < i ==> op_matches_event(#[trigger] r@[j], events@[j]@),
        decreases n - i,
    {
        let ev = &events[i];
        match ev.kind {
            EventKind::Put => {
                r.push(
                    Operation::SetKey {
                        key: ev.key.clone(),
                        value: ev.value.clone(),
                        with_lease: ev.lease != 0,
                    },
                );
            },
            EventKind::Delete => {
                r.push(Operation::DelKey { key: ev.key.clone() });
            },
        }
        i = i + 1;
    }
    r
}

/// What one monitor tick ended as: still in the steady state, with the
/// notifications delivered this tick, or stopped because the watch was
/// cancelled.
#[derive(Debug)]
pub enum TickStatus {
    Running { notifications: Vec<Operation> },
    Stopped,
}

impl ConfClient {
    /// One iteration of the watch/reconcile loop, in this fixed order:
    /// renew the lease (a dead lease is a fatal error and nothing else
    /// happens); stop cleanly if the watch was cancelled; otherwise read the
    /// pending watch events and turn them into notifications, computed
    /// before anything is written; then apply the caller's operations in
    /// order. The notifications therefore always reflect the store as it was
    /// before this tick's writes, and the tick's own writes are seen by the
    /// next poll.
    pub fn monitor_tick(
        &mut self,
        store: &mut StoreModel,
        watcher: &mut ModelWatcher,
        ops: Vec<Operation>,
    ) -> (r: Result<TickStatus, ConfigError>)
        requires
            old(self).wf(),
            old(store).wf(),
            old(self).spec_lease_id() is Some,
            old(watcher).synced(*old(store)),
        ensures
            final(self).wf(),
            final(store).wf(),
            *final(self) == *old(self),
            final(watcher).synced(*final(store)),
            final(watcher)@.prefix == old(watcher)@.prefix,
            final(watcher)@.canceled == old(watcher)@.canceled,
            ({
                let lid = old(self).spec_lease_id()->0 as int;
                let evs = events_matching(
                    old(store)@.log.skip(old(watcher)@.cursor),
                    old(watcher)@.prefix,
                );
                let ap = apply_ops(old(store)@, ops@, lid);
                &&& !old(store)@.lease_live(lid) ==> ((r matches Err(e)
                    && e matches ConfigError::LeaseNotFound(x) && x as int == lid)
                    && final(store)@ == old(store)@ && final(watcher)@ == old(watcher)@)
                &&& old(store)@.lease_live(lid) && old(watcher)@.canceled ==> ((r matches Ok(t)
                    && t is Stopped) && final(store)@ == old(store)@
                    && final(watcher)@ == old(watcher)@)
                &&& old(store)@.lease_live(lid) && !old(watcher)@.canceled ==> {
                    &&& final(watcher)@.cursor == old(store)@.log.len()
                    &&& final(store)@ == ap.0
                    &&& ap.1 ==> (r matches Ok(t) && t matches TickStatus::Running {
                        notifications,
                    } && notifications@.len() == evs.len() && (forall|i: int|
                        0 <= i < evs.len() ==> op_matches_event(
                            #[trigger] notifications@[i],
                            evs[i],
                        )))
                    &&& !ap.1 ==> (r matches Err(e) && e matches ConfigError::LeaseNotFound(x)
                        && x as int == lid)
                }
            }),
    {
        let lid = match self.get_lease_id() {
            Some(l) => l,
            None => vstd::pervasive::unreached(),
        };
        match store.lease_keep_alive(lid) {
            Ok(()) => {},
            Err(e) => {
                return Err(e);
            },
        }
        if watcher.is_canceled() {
            return Ok(TickStatus::Stopped);
        }
        let evs = watcher.poll(store);
        let notifications = watch_notifications(&evs);
        proof {
            lemma_apply_ops_log_grows(store@, ops@, lid as int);
        }
        match self.kv_operations(store, ops) {
            Ok(()) => {},
            Err(e) => {
                return Err(e);
            },
        }
        Ok(TickStatus::Running { notifications })
    }
}

} // verus!
