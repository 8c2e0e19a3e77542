//! The decisions of an exchange that lie between its stages.
use vstd::prelude::*;

use crate::oid::{Oid, PublicKey};
use crate::refdb::{Refdb, UpdateError, EditView, edit_updated, apply_edits, first_mismatch, plan, peel, lemma_first_mismatch_bound};
use crate::bytes::has_prefix;
use crate::refs::{namespaced_bytes, namespaced_name};
use crate::stage::{
    lemma_refs_stage_namespaces, ns_prefix, refs_prepare, update_name_of, contains_key, others, others_exec, Fetch, Refs, RemoteRefs, Sigrefs, TrackedRemotes,
    sigrefs_view,
};
use crate::state::{FetchState, select};
use crate::update::{Applied, Update, Updated, updates_view, updated_view};

verus! {

/// Size limit of the special-refs stages, in bytes.
pub const FETCH_SPECIAL_LIMIT: u64 = 1024 * 1024 * 5;

/// Size limit of the data stage, in bytes.
pub const FETCH_REFS_LIMIT: u64 = 1024 * 1024 * 1024 * 5;

/// Size limits of the stages.
#[derive(Clone, Copy, Debug)]
pub struct FetchLimit {
    pub special: u64,
    pub refs: u64,
}

impl Default for FetchLimit {
    fn default() -> (r: FetchLimit)
        ensures
            r.special == FETCH_SPECIAL_LIMIT,
            r.refs == FETCH_REFS_LIMIT,
    {
        FetchLimit { special: FETCH_SPECIAL_LIMIT, refs: FETCH_REFS_LIMIT }
    }
}

/// Why an exchange failed at one of its own decisions.
#[derive(Clone, Copy, Debug)]
pub enum Error {
    /// The remote is the local node.
    ReplicateSelf,
    /// The local node holds no verified `rad/id`.
    MissingRadId,
    /// A delegate's manifest could not be loaded.
    MissingSigrefs { remote: PublicKey },
}

/// An exchange with oneself fails before anything else happens.
pub fn ensure_not_self(local: &PublicKey, remote: &PublicKey) -> (r: Result<(), Error>)
    ensures
        r is Err <==> *local == *remote,
        r matches Err(e) ==> e is ReplicateSelf,
{
    if local.same(remote) {
        Err(Error::ReplicateSelf)
    } else {
        Ok(())
    }
}

/// The remotes an exchange trusts: every followed remote, flagged `false`,
/// then every delegate but the local node, flagged `true`. A followed remote
/// that is a delegate appears once, as a delegate; a remote followed twice
/// appears once.
pub open spec fn trusted_remotes(followed: Seq<PublicKey>, delegates: Seq<PublicKey>) -> Seq<
    (PublicKey, bool),
>
    decreases followed.len(),
{
    if followed.len() == 0 {
        delegates.map_values(|k: PublicKey| (k, true))
    } else {
        let rest = trusted_remotes(followed.drop_last(), delegates);
        if delegates.contains(followed.last()) || rest.contains((followed.last(), false)) {
            rest
        } else {
            seq![(followed.last(), false)] + rest
        }
    }
}

/// Whether `(k, false)` is in `a` followed by `b`.
fn contains_pair(a: &Vec<(PublicKey, bool)>, b: &Vec<(PublicKey, bool)>, k: &PublicKey) -> (r: bool)
    ensures
        r == (a@ + b@).contains((*k, false)),
{
    let ghost all = a@ + b@;
    let mut i: usize = 0;
    while i < a.len()
        invariant
            0 <= i <= a@.len(),
            all == a@ + b@,
            forall|j: int| 0 <= j < i ==> all[j] != (*k, false),
        decreases a@.len() - i,
    {
        let (x, d) = a[i];
        assert(all[i as int] == a@[i as int]);
        if !d && x.same(k) {
            return true;
        }
        i = i + 1;
    }
    let mut j: usize = 0;
    while j < b.len()
        invariant
            0 <= j <= b@.len(),
            all == a@ + b@,
            forall|m: int| 0 <= m < a@.len() + j ==> all[m] != (*k, false),
        decreases b@.len() - j,
    {
        let (x, d) = b[j];
        assert(all[a@.len() + j] == b@[j as int]);
        if !d && x.same(k) {
            return true;
        }
        j = j + 1;
    }
    false
}

/// The delegates of an identity but `local`, and the trusted remotes.
pub fn trusted(local: &PublicKey, delegates: &Vec<PublicKey>, followed: &Vec<PublicKey>) -> (r: (
    Vec<PublicKey>,
    Vec<(PublicKey, bool)>,
))
    ensures
        r.0@ == others(delegates@, *local),
        r.1@ == trusted_remotes(followed@, others(delegates@, *local)),
{
    let ds = others_exec(delegates, local);
    let mut tail: Vec<(PublicKey, bool)> = Vec::new();
    let mut i: usize = 0;
    while i < ds.len()
        invariant
            0 <= i <= ds@.len(),
            tail@ == ds@.subrange(0, i as int).map_values(|k: PublicKey| (k, true)),
        decreases ds@.len() - i,
    {
        tail.push((ds[i], true));
        assert(tail@ =~= ds@.subrange(0, i + 1).map_values(|k: PublicKey| (k, true)));
        i = i + 1;
    }
    assert(ds@.subrange(0, ds@.len() as int) =~= ds@);
    let mut out: Vec<(PublicKey, bool)> = tail;
    let ghost fol = followed@;
    proof {
        assert(followed@.subrange(0, 0) =~= Seq::<PublicKey>::empty());
    }
    let mut k: usize = 0;
    let mut acc: Vec<(PublicKey, bool)> = Vec::new();
    assert(trusted_remotes(fol.subrange(0, 0), ds@) == acc@ + out@) by {
        assert(acc@ + out@ =~= out@);
    }
    while k < followed.len()
        invariant
            0 <= k <= followed@.len(),
            fol == followed@,
            trusted_remotes(fol.subrange(0, k as int), ds@) == acc@ + out@,
        decreases followed@.len() - k,
    {
        let f = followed[k];
        let ghost sub = fol.subrange(0, k + 1);
        assert(sub.drop_last() =~= fol.subrange(0, k as int));
        assert(sub.last() == f);
        if !contains_key(&ds, &f) && !contains_pair(&acc, &out, &f) {
            let ghost before = acc@ + out@;
            let mut front = vec![(f, false)];
            front.append(&mut acc);
            acc = front;
            assert(acc@ + out@ =~= seq![(f, false)] + before);
        }
        k = k + 1;
    }
    assert(fol.subrange(0, followed@.len() as int) =~= fol);
    acc.append(&mut out);
    (ds, acc)
}

/// A discrepancy between a manifest and the references stored after an
/// exchange.
#[derive(Debug)]
pub enum Validation {
    /// A signed reference is not stored.
    MissingRef { remote: PublicKey, name: Vec<u8> },
    /// A signed reference is stored at another object.
    Mismatch { remote: PublicKey, name: Vec<u8>, expected: Oid, actual: Oid },
    /// No manifest of `remote` could be loaded.
    NoData { remote: PublicKey },
    /// The identity of `remote`, no delegate, did not verify; nothing of it
    /// was fetched.
    Unverified { remote: PublicKey },
}

pub enum ValidationView {
    MissingRef { remote: PublicKey, name: Seq<u8> },
    Mismatch { remote: PublicKey, name: Seq<u8>, expected: Oid, actual: Oid },
    NoData { remote: PublicKey },
    Unverified { remote: PublicKey },
}

impl Validation {
    pub open spec fn view(&self) -> ValidationView {
        match self {
            Validation::MissingRef { remote, name } => ValidationView::MissingRef {
                remote: *remote,
                name: name@,
            },
            Validation::Mismatch { remote, name, expected, actual } => ValidationView::Mismatch {
                remote: *remote,
                name: name@,
                expected: *expected,
                actual: *actual,
            },
            Validation::NoData { remote } => ValidationView::NoData { remote: *remote },
            Validation::Unverified { remote } => ValidationView::Unverified { remote: *remote },
        }
    }
}

pub open spec fn validations_view(v: Seq<Validation>) -> Seq<ValidationView> {
    v.map_values(|x: Validation| x@)
}

/// The discrepancies of a manifest against the snapshot, in manifest order.
pub open spec fn validation_of(
    s: Seq<crate::refdb::EntryView>,
    remote: PublicKey,
    refs: Seq<(Seq<u8>, Oid)>,
) -> Seq<ValidationView>
    decreases refs.len(),
{
    if refs.len() == 0 {
        Seq::empty()
    } else {
        let prev = validation_of(s, remote, refs.drop_last());
        let (q, oid) = refs.last();
        let name = namespaced_name(remote, q);
        match peel(s, name) {
            None => prev.push(ValidationView::MissingRef { remote, name }),
            Some(x) => if x == oid {
                prev
            } else {
                prev.push(ValidationView::Mismatch { remote, name, expected: oid, actual: x })
            },
        }
    }
}

/// Checks every signed reference of `remote` against the stored ones.
pub fn validate(refdb: &Refdb, remote: &PublicKey, sigrefs: &Sigrefs) -> (r: Vec<Validation>)
    ensures
        validations_view(r@) == validation_of(refdb.snapshot(), *remote, sigrefs_view(*sigrefs)),
{
    let ghost sv = sigrefs_view(*sigrefs);
    let mut out: Vec<Validation> = Vec::new();
    let mut i: usize = 0;
    assert(sv.subrange(0, 0) =~= Seq::<(Seq<u8>, Oid)>::empty());
    assert(validations_view(out@) =~= Seq::<ValidationView>::empty());
    while i < sigrefs.refs.len()
        invariant
            0 <= i <= sigrefs.refs@.len(),
            sv == sigrefs_view(*sigrefs),
            validations_view(out@) == validation_of(refdb.snapshot(), *remote, sv.subrange(0, i as int)),
        decreases sigrefs.refs@.len() - i,
    {
        let q = &sigrefs.refs[i].0;
        let oid = sigrefs.refs[i].1;
        let ghost sub = sv.subrange(0, i + 1);
        assert(sub.drop_last() =~= sv.subrange(0, i as int));
        assert(sub.last() == (q@, oid));
        let name = namespaced_bytes(remote, q.as_slice());
        let ghost before = validations_view(out@);
        match refdb.refname_to_id(name.as_slice()) {
            None => {
                let v = Validation::MissingRef { remote: *remote, name };
                out.push(v);
                assert(validations_view(out@) =~= before.push(v@));
            },
            Some(x) => {
                if !x.same(&oid) {
                    let v = Validation::Mismatch { remote: *remote, name, expected: oid, actual: x };
                    out.push(v);
                    assert(validations_view(out@) =~= before.push(v@));
                }
            },
        }
        i = i + 1;
    }
    assert(sv.subrange(0, sigrefs.refs@.len() as int) =~= sv);
    out
}

/// The outcome of an exchange.
pub struct FetchResult {
    pub applied: Applied,
    pub requires_confirmation: bool,
    pub validation: Vec<Validation>,
}

impl FetchResult {
    /// The result of a completed exchange; confirmation is never required.
    pub fn new(applied: Applied, validation: Vec<Validation>) -> (r: FetchResult)
        ensures
            r.applied == applied,
            r.validation@ == validation@,
            !r.requires_confirmation,
    {
        FetchResult { applied, requires_confirmation: false, validation }
    }

    pub fn rejected(&self) -> (r: &Vec<Update>)
        ensures
            r@ == self.applied.rejected@,
    {
        &self.applied.rejected
    }

    pub fn updated(&self) -> (r: &Vec<Updated>)
        ensures
            r@ == self.applied.updated@,
    {
        &self.applied.updated
    }
}


/// One exchange with `remote`: the delegates of its identity (without the
/// local node) and the remotes it trusts.
pub struct Exchange {
    pub local: PublicKey,
    pub remote: PublicKey,
    pub delegates: Vec<PublicKey>,
    pub trusted: Vec<(PublicKey, bool)>,
}

/// The manifests that were found for the remotes asked for.
/// The manifests found for the remotes asked for, leaving out the remotes
/// in `tainted`.
pub open spec fn manifests_of(loaded: Seq<(PublicKey, Option<Sigrefs>)>, tainted: Seq<PublicKey>) -> Seq<
    (PublicKey, Sigrefs),
>
    decreases loaded.len(),
{
    if loaded.len() == 0 {
        Seq::empty()
    } else {
        match loaded.last().1 {
            Some(s) => if tainted.contains(loaded.last().0) {
                manifests_of(loaded.drop_last(), tainted)
            } else {
                manifests_of(loaded.drop_last(), tainted).push((loaded.last().0, s))
            },
            None => manifests_of(loaded.drop_last(), tainted),
        }
    }
}

/// No tainted remote has a manifest in the set.
pub proof fn lemma_tainted_have_no_manifest(
    loaded: Seq<(PublicKey, Option<Sigrefs>)>,
    tainted: Seq<PublicKey>,
    m: int,
)
    requires
        0 <= m < manifests_of(loaded, tainted).len(),
    ensures
        !tainted.contains(manifests_of(loaded, tainted)[m].0),
    decreases loaded.len(),
{
    let prev = manifests_of(loaded.drop_last(), tainted);
    if m < prev.len() {
        lemma_tainted_have_no_manifest(loaded.drop_last(), tainted, m);
    }
}

/// The view of a manifest set that the data stage works over.
pub open spec fn manifest_view(ms: Seq<(PublicKey, Sigrefs)>) -> Seq<(PublicKey, Seq<(Seq<u8>, Oid)>)> {
    ms.map_values(|p: (PublicKey, Sigrefs)| (p.0, sigrefs_view(p.1)))
}

/// Delegate taint across the exchange: where `r` is tainted (its identity
/// failed to verify and it is no delegate), the manifest set leaves it out,
/// so every update the data stage emits lies under the namespace of another
/// remote.
pub proof fn lemma_taint_spares_namespace(
    s: Seq<crate::refdb::EntryView>,
    loaded: Seq<(PublicKey, Option<Sigrefs>)>,
    tainted: Seq<PublicKey>,
    r: PublicKey,
    x: int,
)
    requires
        tainted.contains(r),
        0 <= x < refs_prepare(s, manifest_view(manifests_of(loaded, tainted))).len(),
    ensures
        exists|m: int| #![trigger manifest_view(manifests_of(loaded, tainted))[m]]
            0 <= m < manifests_of(loaded, tainted).len()
            && manifest_view(manifests_of(loaded, tainted))[m].0 != r && has_prefix(
                update_name_of(refs_prepare(s, manifest_view(manifests_of(loaded, tainted)))[x]),
                ns_prefix(manifest_view(manifests_of(loaded, tainted))[m].0),
            ),
{
    let ms = manifests_of(loaded, tainted);
    let mv = manifest_view(ms);
    lemma_refs_stage_namespaces(s, mv, x);
    let m = choose|m: int| #![trigger mv[m]]
        0 <= m < mv.len() && has_prefix(update_name_of(refs_prepare(s, mv)[x]), ns_prefix(mv[m].0));
    lemma_tainted_have_no_manifest(loaded, tainted, m);
    assert(mv[m].0 == ms[m].0);
}

/// The first delegate whose manifest is missing, if any.
pub open spec fn first_missing_delegate(
    loaded: Seq<(PublicKey, Option<Sigrefs>)>,
    delegates: Seq<PublicKey>,
    from: int,
) -> Option<PublicKey>
    decreases loaded.len() - from,
{
    if from >= loaded.len() || from < 0 {
        None
    } else if loaded[from].1 is None && delegates.contains(loaded[from].0) {
        Some(loaded[from].0)
    } else {
        first_missing_delegate(loaded, delegates, from + 1)
    }
}

impl Exchange {
    /// Starts an exchange: with oneself it fails before anything else;
    /// otherwise it fixes the delegates and trusted remotes, and the
    /// verification stage to run first.
    pub fn start(
        local: PublicKey,
        remote: PublicKey,
        anchor_delegates: &Vec<PublicKey>,
        followed: TrackedRemotes,
        limit: FetchLimit,
    ) -> (r: Result<(Exchange, Fetch), Error>)
        ensures
            local == remote ==> r == Err::<(Exchange, Fetch), Error>(Error::ReplicateSelf),
            local != remote ==> (r matches Ok((x, f)) && x.local == local && x.remote == remote
                && x.delegates@ == others(anchor_delegates@, local) && x.trusted@ == trusted_remotes(
                followed.remotes@,
                others(anchor_delegates@, local),
            ) && f.local == local && f.remote == remote && f.delegates@ == x.delegates@
                && f.limit == limit.special && f.tracking.scope == followed.scope
                && f.tracking.remotes@ == followed.remotes@),
    {
        if ensure_not_self(&local, &remote).is_err() {
            return Err(Error::ReplicateSelf);
        }
        let (delegates, tr) = trusted(&local, anchor_delegates, &followed.remotes);
        let mut ds: Vec<PublicKey> = Vec::new();
        let mut i: usize = 0;
        while i < delegates.len()
            invariant
                0 <= i <= delegates@.len(),
                ds@ == delegates@.subrange(0, i as int),
            decreases delegates@.len() - i,
        {
            ds.push(delegates[i]);
            assert(ds@ =~= delegates@.subrange(0, i + 1));
            i = i + 1;
        }
        assert(delegates@.subrange(0, delegates@.len() as int) =~= delegates@);
        let f = Fetch { local, remote, tracking: followed, delegates: ds, limit: limit.special };
        Ok((Exchange { local, remote, delegates, trusted: tr }, f))
    }

    /// The remotes whose manifests to load: every trusted one, in order.
    /// Those that are delegates must have one.
    pub fn manifest_keys(&self) -> (r: Vec<PublicKey>)
        ensures
            r@ == self.trusted@.map_values(|p: (PublicKey, bool)| p.0),
    {
        let mut out: Vec<PublicKey> = Vec::new();
        let mut i: usize = 0;
        while i < self.trusted.len()
            invariant
                0 <= i <= self.trusted@.len(),
                out@ == self.trusted@.map_values(|p: (PublicKey, bool)| p.0).subrange(0, i as int),
            decreases self.trusted@.len() - i,
        {
            out.push(self.trusted[i].0);
            assert(out@ =~= self.trusted@.map_values(|p: (PublicKey, bool)| p.0).subrange(0, i + 1));
            i = i + 1;
        }
        assert(self.trusted@.map_values(|p: (PublicKey, bool)| p.0).subrange(0, self.trusted@.len() as int)
            =~= self.trusted@.map_values(|p: (PublicKey, bool)| p.0));
        out
    }

    /// The manifest set from what loading gave for each remote: a delegate
    /// without a manifest fails the exchange; any other remote without one,
    /// and any remote whose identity failed to verify (`tainted`), is left
    /// out.
    pub fn manifests(&self, loaded: Vec<(PublicKey, Option<Sigrefs>)>, tainted: &Vec<PublicKey>) -> (r: Result<
        RemoteRefs,
        Error,
    >)
        ensures
            match first_missing_delegate(loaded@, self.delegates@, 0) {
                Some(k) => r == Err::<RemoteRefs, Error>(Error::MissingSigrefs { remote: k }),
                None => r matches Ok(m) && m.remotes@ == manifests_of(loaded@, tainted@),
            },
    {
        let ghost lv = loaded@;
        let mut i: usize = 0;
        while i < loaded.len()
            invariant
                0 <= i <= loaded@.len(),
                lv == loaded@,
                first_missing_delegate(lv, self.delegates@, 0) == first_missing_delegate(
                    lv,
                    self.delegates@,
                    i as int,
                ),
            decreases loaded@.len() - i,
        {
            if loaded[i].1.is_none() && contains_key(&self.delegates, &loaded[i].0) {
                return Err(Error::MissingSigrefs { remote: loaded[i].0 });
            }
            i = i + 1;
        }
        let mut out: Vec<(PublicKey, Sigrefs)> = Vec::new();
        let mut rest = loaded;
        let mut tail: Vec<(PublicKey, Sigrefs)> = Vec::new();
        while rest.len() > 0
            invariant
                manifests_of(lv, tainted@) == manifests_of(rest@, tainted@) + tail@,
            decreases rest@.len(),
        {
            let ghost before = rest@;
            let (k, s) = rest.pop().unwrap();
            assert(before.drop_last() =~= rest@);
            match s {
                Some(sig) => if !contains_key(tainted, &k) {
                    let mut front = vec![(k, sig)];
                    let ghost t0 = tail@;
                    front.append(&mut tail);
                    tail = front;
                    assert(manifests_of(before, tainted@) =~= manifests_of(rest@, tainted@).push((k, tail@[0].1)));
                    assert(manifests_of(rest@, tainted@) + tail@ =~= manifests_of(rest@, tainted@).push(tail@[0]) + t0);
                } else {
                },
                None => {},
            }
        }
        assert(manifests_of(rest@, tainted@) =~= Seq::<(PublicKey, Sigrefs)>::empty());
        out.append(&mut tail);
        assert(out@ =~= manifests_of(lv, tainted@));
        Ok(RemoteRefs { remotes: out })
    }

    /// The data stage over the loaded manifests.
    pub fn refs_stage(&self, trusted: RemoteRefs, limit: FetchLimit) -> (r: Refs)
        ensures
            r.local == self.local,
            r.remote == self.remote,
            r.trusted == trusted,
            r.limit == limit.refs,
    {
        Refs { local: self.local, remote: self.remote, trusted, limit: limit.refs }
    }
}

/// Partial apply: commits the staged identity updates (those ending in
/// `refs/rad/id`) in a transaction of their own, keeps every other update
/// staged, and forgets the identity and sigrefs tips. Between this commit
/// and the final one the database holds the identity updates and nothing
/// else of the exchange.
pub fn commit_identity(state: &mut FetchState, refdb: &mut Refdb) -> (r: Result<Applied, UpdateError>)
    ensures
        updates_view(final(state).tips@) == select(updates_view(old(state).tips@), false),
        final(state).ids@.len() == 0,
        final(state).sigrefs@.len() == 0,
        match plan(old(refdb).snapshot(), old(refdb).odb, select(updates_view(old(state).tips@), true)) {
            Ok((rj, es)) => if first_mismatch(old(refdb).snapshot(), es, 0) == es.len() {
                &&& r matches Ok(a) && updates_view(a.rejected@) == rj && updated_view(a.updated@)
                    == es.map_values(|e: EditView| edit_updated(e))
                &&& final(refdb).snapshot() == apply_edits(old(refdb).snapshot(), es)
            } else {
                r is Err && final(refdb).snapshot() == old(refdb).snapshot()
            },
            Err(_) => r is Err && final(refdb).snapshot() == old(refdb).snapshot(),
        },
{
    let ids = state.take_identity_updates();
    proof {
        if let Ok((_, es)) = plan(refdb.snapshot(), refdb.odb, updates_view(ids@)) {
            lemma_first_mismatch_bound(refdb.snapshot(), es, 0);
        }
    }
    let r = refdb.update(ids);
    state.clear_rad_refs();
    r
}

/// The final commit: every update still staged, in one transaction, its
/// outcome appended to that of the identity commit.
pub fn commit_rest(state: &mut FetchState, refdb: &mut Refdb, applied: &mut Applied) -> (r: Result<
    (),
    UpdateError,
>)
    ensures
        final(state).tips@.len() == 0,
        match plan(old(refdb).snapshot(), old(refdb).odb, updates_view(old(state).tips@)) {
            Ok((rj, es)) => if first_mismatch(old(refdb).snapshot(), es, 0) == es.len() {
                &&& r is Ok
                &&& final(refdb).snapshot() == apply_edits(old(refdb).snapshot(), es)
                &&& updates_view(final(applied).rejected@) == updates_view(old(applied).rejected@) + rj
                &&& updated_view(final(applied).updated@) == updated_view(old(applied).updated@)
                    + es.map_values(|e: EditView| edit_updated(e))
            } else {
                r is Err && final(refdb).snapshot() == old(refdb).snapshot()
            },
            Err(_) => r is Err && final(refdb).snapshot() == old(refdb).snapshot(),
        },
{
    let rest = state.drain_updates();
    proof {
        if let Ok((_, es)) = plan(refdb.snapshot(), refdb.odb, updates_view(rest@)) {
            lemma_first_mismatch_bound(refdb.snapshot(), es, 0);
        }
    }
    match refdb.update(rest) {
        Ok(mut a) => {
            let ghost r0 = applied.rejected@;
            let ghost ar = a.rejected@;
            let ghost u0 = applied.updated@;
            let ghost au = a.updated@;
            applied.append(&mut a);
            assert(updates_view(applied.rejected@) =~= updates_view(r0) + updates_view(ar));
            assert(updated_view(applied.updated@) =~= updated_view(u0) + updated_view(au));
            Ok(())
        },
        Err(e) => Err(e),
    }
}

} // verus!
