//! The three stages of an exchange: `Clone`, `Fetch` (verification refs) and
//! `Refs` (data).
use vstd::prelude::*;

use crate::bytes::{bytes_eq, has_prefix, starts_with};
use crate::refdb::{Ref, Refdb, RefView, refs_view, scan_upto, lemma_scan_sound};
use crate::transport::{prefix_view, sort_prefixes, strictly_sorted, WantsHaves, WantsHavesBuilder, oid_set, wants_from, haves_from, received_pairs, lemma_wants_haves_append};
use crate::oid::{Oid, PublicKey};
use crate::refs::{
    copy_bytes, is_namespaced, is_qualified, is_qualified_exec, key_human, namespaced_bytes,
    namespaced_name, namespaces_lit, rad_bytes, rad_lit, split_namespaced, SLASH, parse, parse_refname, received_view, refname_string, verification_update,
    ReceivedRef, ReceivedRefView, Refname, RefnameView, Special, Suffix, SuffixView,
};
use crate::state::{tip_lookup, FetchState};
use crate::update::{Policy, Update, UpdateView, Updates, updates_view};

verus! {

/// Which remotes a node tracks in a repository.
#[derive(Clone, Copy, Debug, PartialEq, Eq, Structural)]
pub enum Scope {
    /// Every remote.
    All,
    /// Only the listed remotes.
    Trusted,
}

/// The tracking policy of the local node for a repository.
pub struct TrackedRemotes {
    pub scope: Scope,
    pub remotes: Vec<PublicKey>,
}

/// A reference as the remote advertised it.
pub enum AdvertisedRef {
    Peeled { name: Vec<u8>, tag: Oid, object: Oid },
    Direct { name: Vec<u8>, object: Oid },
    Symbolic { name: Vec<u8>, target: Vec<u8>, object: Oid },
    Unborn { name: Vec<u8> },
}

pub open spec fn advertised_parts(r: AdvertisedRef) -> Option<(Seq<u8>, Oid)> {
    match r {
        AdvertisedRef::Peeled { name, object, .. } => Some((name@, object)),
        AdvertisedRef::Direct { name, object } => Some((name@, object)),
        AdvertisedRef::Symbolic { name, object, .. } => Some((name@, object)),
        AdvertisedRef::Unborn { .. } => None,
    }
}

/// The name and peeled object of an advertised reference; an unborn one has
/// no object.
pub fn unpack_ref(r: AdvertisedRef) -> (o: Option<(Vec<u8>, Oid)>)
    ensures
        match o {
            Some((n, x)) => advertised_parts(r) == Some((n@, x)),
            None => advertised_parts(r) is None,
        },
{
    match r {
        AdvertisedRef::Peeled { name, object, .. } => Some((name, object)),
        AdvertisedRef::Direct { name, object } => Some((name, object)),
        AdvertisedRef::Symbolic { name, object, .. } => Some((name, object)),
        AdvertisedRef::Unborn { .. } => None,
    }
}

/// The received reference an advertised one parses to, if any.
pub open spec fn received_of(r: AdvertisedRef) -> Option<ReceivedRefView> {
    match advertised_parts(r) {
        Some((n, o)) => match parse_refname(n) {
            Ok(v) => Some(ReceivedRefView { tip: o, name: v }),
            Err(_) => None,
        },
        None => None,
    }
}

fn receive(r: AdvertisedRef) -> (o: Option<ReceivedRef>)
    ensures
        match o {
            Some(x) => received_of(r) == Some(x@),
            None => received_of(r) is None,
        },
{
    let (name, tip) = match unpack_ref(r) {
        Some(p) => p,
        None => {
            return None;
        },
    };
    match parse(name.as_slice()) {
        Ok(n) => Some(ReceivedRef::new(tip, n)),
        Err(_) => None,
    }
}

/// Why a stage's layout check failed.
#[derive(Debug)]
pub enum Layout {
    MissingRequiredRefs(Vec<Vec<u8>>),
}

pub open spec fn names_view(v: Seq<Vec<u8>>) -> Seq<Seq<u8>> {
    v.map_values(|x: Vec<u8>| x@)
}

/// The required names that were not received, in order.
pub open spec fn missing(required: Seq<Seq<u8>>, received: Seq<Seq<u8>>) -> Seq<Seq<u8>>
    decreases required.len(),
{
    if required.len() == 0 {
        Seq::empty()
    } else if received.contains(required.last()) {
        missing(required.drop_last(), received)
    } else {
        missing(required.drop_last(), received).push(required.last())
    }
}

fn contains_name(v: &Vec<Vec<u8>>, n: &[u8]) -> (r: bool)
    ensures
        r == names_view(v@).contains(n@),
{
    let mut i: usize = 0;
    while i < v.len()
        invariant
            0 <= i <= v@.len(),
            forall|k: int| 0 <= k < i ==> v@[k]@ != n@,
        decreases v@.len() - i,
    {
        if bytes_eq(v[i].as_slice(), n) {
            assert(names_view(v@)[i as int] == n@);
            return true;
        }
        i = i + 1;
    }
    assert forall|k: int| 0 <= k < names_view(v@).len() implies names_view(v@)[k] != n@ by {
        assert(names_view(v@)[k] == v@[k]@);
    }
    false
}

/// Every required name was received; nothing received at all passes too.
/// The missing names are reported ascending, each once.
pub fn ensure_refs(required: &Vec<Vec<u8>>, received: &Vec<Vec<u8>>) -> (r: Result<(), Layout>)
    ensures
        received@.len() == 0 ==> r is Ok,
        received@.len() > 0 ==> match r {
            Ok(()) => missing(names_view(required@), names_view(received@)).len() == 0,
            Err(Layout::MissingRequiredRefs(m)) => {
                &&& missing(names_view(required@), names_view(received@)).len() > 0
                &&& m@.len() > 0
                &&& strictly_sorted(prefix_view(m@))
                &&& forall|x: Seq<u8>| #![trigger prefix_view(m@).contains(x)]
                    prefix_view(m@).contains(x) <==> missing(
                        names_view(required@),
                        names_view(received@),
                    ).contains(x)
            },
        },
{
    if received.len() == 0 {
        return Ok(());
    }
    let ghost req = names_view(required@);
    let ghost rec = names_view(received@);
    let mut out: Vec<Vec<u8>> = Vec::new();
    let mut i: usize = 0;
    assert(req.subrange(0, 0) =~= Seq::<Seq<u8>>::empty());
    assert(names_view(out@) =~= Seq::<Seq<u8>>::empty());
    while i < required.len()
        invariant
            0 <= i <= required@.len(),
            req == names_view(required@),
            rec == names_view(received@),
            names_view(out@) == missing(req.subrange(0, i as int), rec),
        decreases required@.len() - i,
    {
        let ghost sub = req.subrange(0, i + 1);
        assert(sub.drop_last() =~= req.subrange(0, i as int));
        assert(sub.last() == required@[i as int]@);
        if !contains_name(received, required[i].as_slice()) {
            let c = crate::refs::copy_bytes(&required[i]);
            let ghost before = names_view(out@);
            out.push(c);
            assert(names_view(out@) =~= before.push(c@));
        }
        i = i + 1;
    }
    assert(req.subrange(0, required@.len() as int) =~= req);
    if out.len() == 0 {
        Ok(())
    } else {
        let sorted = sort_prefixes(&out);
        assert(prefix_view(out@) =~= names_view(out@));
        assert(names_view(out@).contains(names_view(out@)[0]));
        Err(Layout::MissingRequiredRefs(sorted))
    }
}

/// The two special names of each key, in order.
pub open spec fn special_names(ks: Seq<PublicKey>) -> Seq<Seq<u8>>
    decreases ks.len(),
{
    if ks.len() == 0 {
        Seq::empty()
    } else {
        special_names(ks.drop_last()).push(
            refname_string(
                RefnameView { remote: ks.last(), suffix: SuffixView::Special(Special::Id) },
            ),
        ).push(
            refname_string(
                RefnameView {
                    remote: ks.last(),
                    suffix: SuffixView::Special(Special::SignedRefs),
                },
            ),
        )
    }
}

/// `rad_id(remote)` and `rad_sigrefs(remote)`.
pub fn special_refs(remote: PublicKey) -> (r: Vec<Vec<u8>>)
    ensures
        names_view(r@) == special_names(seq![remote]),
{
    let a = Refname::rad_id(remote);
    let b = Refname::rad_sigrefs(remote);
    let r = vec![a, b];
    assert(seq![remote].drop_last() =~= Seq::<PublicKey>::empty());
    assert(seq![remote].last() == remote);
    assert(special_names(seq![remote].drop_last()) =~= Seq::<Seq<u8>>::empty());
    assert(names_view(r@) =~= special_names(seq![remote]));
    r
}

/// The special names of each key in `ks`.
pub fn special_refs_of(ks: &Vec<PublicKey>) -> (r: Vec<Vec<u8>>)
    ensures
        names_view(r@) == special_names(ks@),
{
    let mut out: Vec<Vec<u8>> = Vec::new();
    let mut i: usize = 0;
    assert(ks@.subrange(0, 0) =~= Seq::<PublicKey>::empty());
    assert(names_view(out@) =~= Seq::<Seq<u8>>::empty());
    while i < ks.len()
        invariant
            0 <= i <= ks@.len(),
            names_view(out@) == special_names(ks@.subrange(0, i as int)),
        decreases ks@.len() - i,
    {
        let a = Refname::rad_id(ks[i]);
        let b = Refname::rad_sigrefs(ks[i]);
        let ghost before = names_view(out@);
        out.push(a);
        out.push(b);
        let ghost sub = ks@.subrange(0, i + 1);
        assert(sub.drop_last() =~= ks@.subrange(0, i as int));
        assert(names_view(out@) =~= before.push(a@).push(b@));
        i = i + 1;
    }
    assert(ks@.subrange(0, ks@.len() as int) =~= ks@);
    out
}

/// The namespaced names of received references, in order.
pub open spec fn received_names(v: Seq<ReceivedRefView>) -> Seq<Seq<u8>> {
    v.map_values(|r: ReceivedRefView| refname_string(r.name))
}

fn names_of(refs: &Vec<ReceivedRef>) -> (r: Vec<Vec<u8>>)
    ensures
        names_view(r@) == received_names(received_view(refs@)),
{
    let mut out: Vec<Vec<u8>> = Vec::new();
    let mut i: usize = 0;
    while i < refs.len()
        invariant
            0 <= i <= refs@.len(),
            names_view(out@) == received_names(received_view(refs@)).subrange(0, i as int),
        decreases refs@.len() - i,
    {
        let n = refs[i].name.namespaced();
        let ghost before = names_view(out@);
        out.push(n);
        assert(names_view(out@) =~= before.push(n@));
        assert(received_names(received_view(refs@))[i as int] == n@);
        assert(names_view(out@) =~= received_names(received_view(refs@)).subrange(0, i + 1));
        i = i + 1;
    }
    assert(received_names(received_view(refs@)).subrange(0, refs@.len() as int) =~= received_names(
        received_view(refs@),
    ));
    out
}

/// Why a stage could not prepare its updates.
#[derive(Debug)]
pub enum PrepareError {
    /// The identity of `remote` did not verify.
    Verification { remote: PublicKey },
    /// No identity tip was received for `remote`.
    MissingTip { remote: PublicKey },
    /// A signed reference name is not qualified.
    NotQualified { name: Vec<u8> },
}

/// The outcome of verifying an identity document: its delegates.
pub trait Verified {
    fn delegates(&self) -> Vec<PublicKey>;
}

/// Verifies identity documents by the commit at their tip. Users of the
/// library implement it over their storage.
pub trait Identities {
    type VerifiedIdentity: Verified;

    fn verified(&self, head: Oid) -> Result<Self::VerifiedIdentity, ()>;
}

/// The delegates of the identity at the local node's `rad/id`: none where
/// there is no such reference, else whatever verifying its tip gave.
pub fn current<I: Identities>(local: &PublicKey, ids: &I, refdb: &Refdb) -> (r: Result<
    Option<Vec<PublicKey>>,
    (),
>)
    ensures
        crate::refdb::peel(
            refdb.snapshot(),
            refname_string(RefnameView { remote: *local, suffix: SuffixView::Special(Special::Id) }),
        ) is None ==> r matches Ok(None),
        crate::refdb::peel(
            refdb.snapshot(),
            refname_string(RefnameView { remote: *local, suffix: SuffixView::Special(Special::Id) }),
        ) is Some ==> !(r matches Ok(None)),
{
    let name = Refname::rad_id(*local);
    match refdb.refname_to_id(name.as_slice()) {
        None => Ok(None),
        Some(tip) => match ids.verified(tip) {
            Ok(v) => Ok(Some(v.delegates())),
            Err(()) => Err(()),
        },
    }
}

/// The verification updates of every special reference in `v`, in order.
pub open spec fn special_updates(v: Seq<ReceivedRefView>) -> Seq<UpdateView>
    decreases v.len(),
{
    if v.len() == 0 {
        Seq::empty()
    } else {
        match verification_update(v.last()) {
            Some(u) => special_updates(v.drop_last()).push(u),
            None => special_updates(v.drop_last()),
        }
    }
}

fn special_updates_exec(refs: &Vec<ReceivedRef>) -> (r: Vec<Update>)
    ensures
        updates_view(r@) == special_updates(received_view(refs@)),
{
    let ghost rv = received_view(refs@);
    let mut out: Vec<Update> = Vec::new();
    let mut i: usize = 0;
    assert(rv.subrange(0, 0) =~= Seq::<ReceivedRefView>::empty());
    assert(updates_view(out@) =~= Seq::<UpdateView>::empty());
    while i < refs.len()
        invariant
            0 <= i <= refs@.len(),
            rv == received_view(refs@),
            updates_view(out@) == special_updates(rv.subrange(0, i as int)),
        decreases refs@.len() - i,
    {
        let ghost sub = rv.subrange(0, i + 1);
        assert(sub.drop_last() =~= rv.subrange(0, i as int));
        assert(sub.last() == refs@[i as int]@);
        match refs[i].as_verification_ref_update() {
            Some(u) => {
                let ghost before = updates_view(out@);
                out.push(u);
                assert(updates_view(out@) =~= before.push(u@));
            },
            None => {},
        }
        i = i + 1;
    }
    assert(rv.subrange(0, refs@.len() as int) =~= rv);
    out
}

/// The wants and haves of the received references: the rule of
/// `WantsHavesBuilder::add_one` for each, then the wants that are not haves.
pub fn wants_haves(refdb: &Refdb, refs: &Vec<ReceivedRef>) -> (r: Option<WantsHaves>)
    ensures
        ({
            let ps = received_pairs(received_view(refs@));
            let w = wants_from(refdb.snapshot(), refdb.odb, ps);
            let h = haves_from(refdb.snapshot(), refdb.odb, ps, false);
            match r {
                Some(x) => oid_set(x.wants@) == w.difference(h) && x.wants@.len() > 0 && oid_set(x.haves@)
                    == h,
                None => w.difference(h) == Set::<Oid>::empty(),
            }
        }),
{
    let mut b = WantsHavesBuilder::new();
    b.add(refdb, refs);
    let ghost ps = received_pairs(received_view(refs@));
    assert(Set::<Oid>::empty().union(wants_from(refdb.snapshot(), refdb.odb, ps)) =~= wants_from(
        refdb.snapshot(),
        refdb.odb,
        ps,
    ));
    assert(Set::<Oid>::empty().union(haves_from(refdb.snapshot(), refdb.odb, ps, false)) =~= haves_from(
        refdb.snapshot(),
        refdb.odb,
        ps,
        false,
    ));
    b.build()
}

/// First-time replication of a repository anchored on `remote`.
pub struct Clone {
    pub remote: PublicKey,
    pub limit: u64,
}

impl Clone {
    /// Exactly `rad_id(remote)` and `rad_sigrefs(remote)`.
    pub fn ls_refs(&self) -> (r: Option<Vec<Vec<u8>>>)
        ensures
            r matches Some(v) && names_view(v@) == special_names(seq![self.remote]),
    {
        Some(special_refs(self.remote))
    }

    /// Both special names of `remote` must have been received.
    pub fn pre_validate(&self, refs: &Vec<ReceivedRef>) -> (r: Result<(), Layout>)
        ensures
            refs@.len() == 0 ==> r is Ok,
            refs@.len() > 0 ==> (r is Ok <==> missing(
                special_names(seq![self.remote]),
                received_names(received_view(refs@)),
            ).len() == 0),
    {
        let req = special_refs(self.remote);
        let got = names_of(refs);
        assert(names_view(got@).len() == got@.len());
        assert(received_names(received_view(refs@)).len() == refs@.len());
        ensure_refs(&req, &got)
    }

    /// Keeps special references only.
    pub fn ref_filter(&self, r: AdvertisedRef) -> (o: Option<ReceivedRef>)
        ensures
            match o {
                Some(x) => received_of(r) == Some(x@) && x@.name.suffix is Special,
                None => received_of(r) is None || !(received_of(r)->Some_0.name.suffix is Special),
            },
    {
        match receive(r) {
            Some(x) => match x.name.suffix {
                Suffix::Special(_) => Some(x),
                Suffix::Qualified(_) => None,
            },
            None => None,
        }
    }

    /// The updates given the verification outcome of the identity at the
    /// received `rad/id` tip: on failure none, and an error; where `remote` is
    /// a delegate, the verification updates of the received special refs;
    /// else none.
    pub fn prepare_with(&self, verified: Result<Vec<PublicKey>, ()>, refs: &Vec<ReceivedRef>) -> (r:
        Result<Updates, PrepareError>)
        ensures
            match verified {
                Err(()) => r matches Err(PrepareError::Verification { remote }) && remote == self.remote,
                Ok(ds) => r matches Ok(u) && updates_view(u.tips@) == (if ds@.contains(self.remote) {
                    special_updates(received_view(refs@))
                } else {
                    Seq::empty()
                }),
            },
    {
        match verified {
            Err(()) => Err(PrepareError::Verification { remote: self.remote }),
            Ok(ds) => {
                if contains_key(&ds, &self.remote) {
                    Ok(Updates { tips: special_updates_exec(refs) })
                } else {
                    let v: Vec<Update> = Vec::new();
                    assert(updates_view(v@) =~= Seq::<UpdateView>::empty());
                    Ok(Updates { tips: v })
                }
            },
        }
    }

    /// Verifies the identity at the `rad/id` tip recorded in `s` for `remote`
    /// and prepares the updates from whatever the verification gave.
    pub fn prepare<I: Identities>(&self, s: &FetchState, ids: &I, refs: &Vec<ReceivedRef>) -> (r:
        Result<Updates, PrepareError>)
        ensures
            tip_lookup(s.ids@, self.remote) is None ==> (r matches Err(
                PrepareError::MissingTip { remote },
            ) && remote == self.remote),
            tip_lookup(s.ids@, self.remote) is Some ==> !(r matches Err(PrepareError::MissingTip { .. })),
            r matches Err(e) ==> ((e matches PrepareError::Verification { remote } && remote
                == self.remote) || tip_lookup(s.ids@, self.remote) is None),
            r matches Ok(u) ==> (updates_view(u.tips@) == special_updates(received_view(refs@))
                || updates_view(u.tips@).len() == 0),
    {
        let tip = match s.id_tip(&self.remote) {
            Some(t) => t,
            None => {
                return Err(PrepareError::MissingTip { remote: self.remote });
            },
        };
        let verified = match ids.verified(tip) {
            Ok(v) => Ok(v.delegates()),
            Err(()) => Err(()),
        };
        self.prepare_with(verified, refs)
    }
}

/// Whether `k` is in `v`.
pub fn contains_key(v: &Vec<PublicKey>, k: &PublicKey) -> (r: bool)
    ensures
        r == v@.contains(*k),
{
    let mut i: usize = 0;
    while i < v.len()
        invariant
            0 <= i <= v@.len(),
            forall|j: int| 0 <= j < i ==> v@[j] != *k,
        decreases v@.len() - i,
    {
        if v[i].same(k) {
            return true;
        }
        i = i + 1;
    }
    false
}


/// The distinct remotes of `refs` other than `local`, in order of first
/// appearance.
pub open spec fn remote_order(refs: Seq<ReceivedRefView>, local: PublicKey) -> Seq<PublicKey>
    decreases refs.len(),
{
    if refs.len() == 0 {
        Seq::empty()
    } else {
        let prev = remote_order(refs.drop_last(), local);
        let k = refs.last().name.remote;
        if k == local || prev.contains(k) {
            prev
        } else {
            prev.push(k)
        }
    }
}

/// Some received `rad/id` of `k` has a tip that did not verify.
pub open spec fn bad_identity(refs: Seq<ReceivedRefView>, k: PublicKey, verified: Seq<Oid>) -> bool {
    exists|i: int|
        0 <= i < refs.len() && refs[i].name.remote == k && refs[i].name.suffix
            == SuffixView::Special(Special::Id) && !verified.contains(#[trigger] refs[i].tip)
}

/// The verification updates of the special refs of `k`, in order.
pub open spec fn remote_updates(refs: Seq<ReceivedRefView>, k: PublicKey) -> Seq<UpdateView>
    decreases refs.len(),
{
    if refs.len() == 0 {
        Seq::empty()
    } else {
        let prev = remote_updates(refs.drop_last(), k);
        if refs.last().name.remote == k {
            match verification_update(refs.last()) {
                Some(u) => prev.push(u),
                None => prev,
            }
        } else {
            prev
        }
    }
}

/// The verification updates of the remotes `ks` in order: a remote whose
/// identity failed to verify is fatal if it is a delegate and dropped whole
/// if it is not.
pub open spec fn verify_remotes(
    refs: Seq<ReceivedRefView>,
    ks: Seq<PublicKey>,
    delegates: Seq<PublicKey>,
    verified: Seq<Oid>,
) -> Result<Seq<UpdateView>, PublicKey>
    decreases ks.len(),
{
    if ks.len() == 0 {
        Ok(Seq::empty())
    } else {
        match verify_remotes(refs, ks.drop_last(), delegates, verified) {
            Err(k) => Err(k),
            Ok(acc) => {
                let k = ks.last();
                if bad_identity(refs, k, verified) {
                    if delegates.contains(k) {
                        Err(k)
                    } else {
                        Ok(acc)
                    }
                } else {
                    Ok(acc + remote_updates(refs, k))
                }
            },
        }
    }
}

fn remote_order_exec(refs: &Vec<ReceivedRef>, local: &PublicKey) -> (r: Vec<PublicKey>)
    ensures
        r@ == remote_order(received_view(refs@), *local),
{
    let ghost rv = received_view(refs@);
    let mut out: Vec<PublicKey> = Vec::new();
    let mut i: usize = 0;
    assert(rv.subrange(0, 0) =~= Seq::<ReceivedRefView>::empty());
    while i < refs.len()
        invariant
            0 <= i <= refs@.len(),
            rv == received_view(refs@),
            out@ == remote_order(rv.subrange(0, i as int), *local),
        decreases refs@.len() - i,
    {
        let ghost sub = rv.subrange(0, i + 1);
        assert(sub.drop_last() =~= rv.subrange(0, i as int));
        assert(sub.last() == refs@[i as int]@);
        let k = refs[i].name.remote;
        assert(k == sub.last().name.remote);
        if !k.same(local) && !contains_key(&out, &k) {
            out.push(k);
        }
        i = i + 1;
    }
    assert(rv.subrange(0, refs@.len() as int) =~= rv);
    out
}

fn bad_identity_exec(refs: &Vec<ReceivedRef>, k: &PublicKey, verified: &Vec<Oid>) -> (r: bool)
    ensures
        r == bad_identity(received_view(refs@), *k, verified@),
{
    let ghost rv = received_view(refs@);
    let mut i: usize = 0;
    while i < refs.len()
        invariant
            0 <= i <= refs@.len(),
            rv == received_view(refs@),
            forall|j: int| 0 <= j < i ==> !(rv[j].name.remote == k && rv[j].name.suffix
                == SuffixView::Special(Special::Id) && !verified@.contains(#[trigger] rv[j].tip)),
        decreases refs@.len() - i,
    {
        let r = &refs[i];
        assert(rv[i as int] == r@);
        let is_id = match r.name.suffix {
            Suffix::Special(Special::Id) => true,
            _ => false,
        };
        if r.name.remote.same(k) && is_id && !crate::transport::contains_oid_pub(verified, &r.tip) {
            assert(rv[i as int].name.suffix == SuffixView::Special(Special::Id));
            assert(rv[i as int].name.remote == *k && !verified@.contains(rv[i as int].tip));
            return true;
        }
        proof {
            if rv[i as int].name.remote == k {
                assert(r.name.remote.bytes@ =~= k.bytes@);
                assert(r.name.remote == *k);
            }
        }
        i = i + 1;
    }
    false
}

fn remote_updates_exec(refs: &Vec<ReceivedRef>, k: &PublicKey) -> (r: Vec<Update>)
    ensures
        updates_view(r@) == remote_updates(received_view(refs@), *k),
{
    let ghost rv = received_view(refs@);
    let mut out: Vec<Update> = Vec::new();
    let mut i: usize = 0;
    assert(rv.subrange(0, 0) =~= Seq::<ReceivedRefView>::empty());
    assert(updates_view(out@) =~= Seq::<UpdateView>::empty());
    while i < refs.len()
        invariant
            0 <= i <= refs@.len(),
            rv == received_view(refs@),
            updates_view(out@) == remote_updates(rv.subrange(0, i as int), *k),
        decreases refs@.len() - i,
    {
        let ghost sub = rv.subrange(0, i + 1);
        assert(sub.drop_last() =~= rv.subrange(0, i as int));
        assert(sub.last() == refs@[i as int]@);
        let same = refs[i].name.remote.same(k);
        proof {
            if sub.last().name.remote == k {
                assert(refs@[i as int].name.remote.bytes@ =~= k.bytes@);
            }
        }
        if same {
            match refs[i].as_verification_ref_update() {
                Some(u) => {
                    let ghost before = updates_view(out@);
                    out.push(u);
                    assert(updates_view(out@) =~= before.push(u@));
                },
                None => {},
            }
        }
        i = i + 1;
    }
    assert(rv.subrange(0, refs@.len() as int) =~= rv);
    out
}

/// The verification updates of every remote but `local`, given the set of
/// identity tips that verified.
pub fn verification_refs(
    local: &PublicKey,
    refs: &Vec<ReceivedRef>,
    delegates: &Vec<PublicKey>,
    verified: &Vec<Oid>,
) -> (r: Result<Updates, PrepareError>)
    ensures
        match verify_remotes(
            received_view(refs@),
            remote_order(received_view(refs@), *local),
            delegates@,
            verified@,
        ) {
            Ok(x) => r matches Ok(u) && updates_view(u.tips@) == x,
            Err(k) => r matches Err(PrepareError::Verification { remote }) && remote == k,
        },
{
    let ghost rv = received_view(refs@);
    let ks = remote_order_exec(refs, local);
    let mut tips: Vec<Update> = Vec::new();
    let mut i: usize = 0;
    assert(ks@.subrange(0, 0) =~= Seq::<PublicKey>::empty());
    assert(updates_view(tips@) =~= Seq::<UpdateView>::empty());
    while i < ks.len()
        invariant
            0 <= i <= ks@.len(),
            rv == received_view(refs@),
            ks@ == remote_order(rv, *local),
            verify_remotes(rv, ks@.subrange(0, i as int), delegates@, verified@) == Ok::<
                Seq<UpdateView>,
                PublicKey,
            >(updates_view(tips@)),
        decreases ks@.len() - i,
    {
        let k = ks[i];
        let ghost sub = ks@.subrange(0, i + 1);
        assert(sub.drop_last() =~= ks@.subrange(0, i as int));
        assert(sub.last() == k);
        if bad_identity_exec(refs, &k, verified) {
            if contains_key(delegates, &k) {
                proof {
                    lemma_verify_err_extends(rv, ks@, delegates@, verified@, i + 1);
                }
                return Err(PrepareError::Verification { remote: k });
            }
        } else {
            let mut more = remote_updates_exec(refs, &k);
            let ghost before = updates_view(tips@);
            let ghost add = updates_view(more@);
            tips.append(&mut more);
            assert(updates_view(tips@) =~= before + add);
        }
        i = i + 1;
    }
    assert(ks@.subrange(0, ks@.len() as int) =~= ks@);
    Ok(Updates { tips })
}

proof fn lemma_verify_err_extends(
    refs: Seq<ReceivedRefView>,
    ks: Seq<PublicKey>,
    delegates: Seq<PublicKey>,
    verified: Seq<Oid>,
    n: int,
)
    requires
        0 < n <= ks.len(),
        verify_remotes(refs, ks.subrange(0, n), delegates, verified) is Err,
    ensures
        verify_remotes(refs, ks, delegates, verified) == verify_remotes(
            refs,
            ks.subrange(0, n),
            delegates,
            verified,
        ),
    decreases ks.len() - n,
{
    if n < ks.len() {
        assert(ks.subrange(0, n + 1).drop_last() =~= ks.subrange(0, n));
        lemma_verify_err_extends(refs, ks, delegates, verified, n + 1);
    } else {
        assert(ks.subrange(0, n) =~= ks);
    }
}

/// Every object of `v` is the tip of a received `rad/id`.
pub open spec fn tips_of_ids(refs: Seq<ReceivedRefView>, v: Seq<Oid>) -> bool {
    forall|k: int| #![trigger v[k]] 0 <= k < v.len() ==> exists|j: int|
        0 <= j < refs.len() && (#[trigger] refs[j]).tip == v[k] && refs[j].name.suffix == SuffixView::Special(
            Special::Id,
        )
}

/// The remotes of `ks` whose identity failed to verify and that are no
/// delegates, in order.
pub open spec fn tainted_of(
    refs: Seq<ReceivedRefView>,
    ks: Seq<PublicKey>,
    delegates: Seq<PublicKey>,
    verified: Seq<Oid>,
) -> Seq<PublicKey>
    decreases ks.len(),
{
    if ks.len() == 0 {
        Seq::empty()
    } else {
        let prev = tainted_of(refs, ks.drop_last(), delegates, verified);
        if bad_identity(refs, ks.last(), verified) && !delegates.contains(ks.last()) {
            prev.push(ks.last())
        } else {
            prev
        }
    }
}

/// Every update of the data stage lies under the namespace of one of the
/// remotes whose manifests it was given.
pub proof fn lemma_refs_stage_namespaces(
    s: Seq<crate::refdb::EntryView>,
    tr: Seq<(PublicKey, Seq<(Seq<u8>, Oid)>)>,
    x: int,
)
    requires
        0 <= x < refs_prepare(s, tr).len(),
    ensures
        exists|m: int| #![trigger tr[m]]
            0 <= m < tr.len() && has_prefix(update_name_of(refs_prepare(s, tr)[x]), ns_prefix(tr[m].0)),
    decreases tr.len(),
{
    let d = tr.drop_last();
    let k = tr.last().0;
    let a = refs_prepare(s, d);
    let b = signed_updates(k, tr.last().1);
    let c = prunes(scan_upto(s, ns_prefix(k), s.len() as int), k, signed_names(k, tr.last().1));
    assert(refs_prepare(s, tr) == a + b + c);
    assert(tr[tr.len() - 1] == tr.last());
    if x < a.len() {
        assert(refs_prepare(s, tr)[x] == a[x]);
        lemma_refs_stage_namespaces(s, d, x);
        let m = choose|m: int| #![trigger d[m]]
            0 <= m < d.len() && has_prefix(update_name_of(a[x]), ns_prefix(d[m].0));
        assert(tr[m] == d[m]);
    } else if x < a.len() + b.len() {
        let q = tr.last().1[x - a.len()].0;
        assert(refs_prepare(s, tr)[x] == b[x - a.len()]);
        assert(update_name_of(b[x - a.len()]) == namespaced_name(k, q));
        assert(namespaced_name(k, q).subrange(0, ns_prefix(k).len() as int) =~= ns_prefix(k));
    } else {
        let y = x - a.len() - b.len();
        assert(refs_prepare(s, tr)[x] == c[y]);
        let sc = scan_upto(s, ns_prefix(k), s.len() as int);
        lemma_prunes_scope(sc, k, signed_names(k, tr.last().1), y);
        if let UpdateView::Prune { name, .. } = c[y] {
            let i = choose|i: int| 0 <= i < sc.len() && sc[i].name == name;
            lemma_scan_sound(s, ns_prefix(k), s.len() as int, i);
        }
    }
}

/// Each update for `k` stores a special reference received from `k`.
proof fn lemma_remote_updates_source(refs: Seq<ReceivedRefView>, k: PublicKey, j: int)
    requires
        0 <= j < remote_updates(refs, k).len(),
    ensures
        exists|i: int|
            0 <= i < refs.len() && refs[i].name.remote == k && verification_update(
                #[trigger] refs[i],
            ) == Some(remote_updates(refs, k)[j]),
    decreases refs.len(),
{
    let prev = remote_updates(refs.drop_last(), k);
    if j < prev.len() {
        lemma_remote_updates_source(refs.drop_last(), k, j);
        let i = choose|i: int|
            0 <= i < refs.drop_last().len() && refs.drop_last()[i].name.remote == k
                && verification_update(#[trigger] refs.drop_last()[i]) == Some(prev[j]);
        assert(refs[i] == refs.drop_last()[i]);
        assert(remote_updates(refs, k)[j] == prev[j]);
    } else {
        let i = refs.len() - 1;
        assert(refs[i] == refs.last());
    }
}

/// Delegate taint: where the identity of a remote `r` that is no delegate
/// fails to verify, the verification stage stages nothing of `r`; every
/// staged update stores a special reference received from another remote.
pub proof fn lemma_delegate_taint(
    refs: Seq<ReceivedRefView>,
    ks: Seq<PublicKey>,
    delegates: Seq<PublicKey>,
    verified: Seq<Oid>,
    r: PublicKey,
)
    requires
        bad_identity(refs, r, verified),
        !delegates.contains(r),
    ensures
        verify_remotes(refs, ks, delegates, verified) matches Ok(x) ==> forall|j: int|
            #![trigger x[j]] 0 <= j < x.len() ==> exists|i: int|
                0 <= i < refs.len() && refs[i].name.remote != r && verification_update(
                    #[trigger] refs[i],
                ) == Some(x[j]),
    decreases ks.len(),
{
    if ks.len() > 0 {
        lemma_delegate_taint(refs, ks.drop_last(), delegates, verified, r);
        match verify_remotes(refs, ks.drop_last(), delegates, verified) {
            Err(_) => {},
            Ok(acc) => {
                let k = ks.last();
                if !bad_identity(refs, k, verified) {
                    assert(k != r);
                    let add = remote_updates(refs, k);
                    let x = acc + add;
                    assert(verify_remotes(refs, ks, delegates, verified) == Ok::<Seq<UpdateView>, PublicKey>(x));
                    assert forall|j: int| #![trigger x[j]] 0 <= j < x.len() implies exists|i: int|
                        0 <= i < refs.len() && refs[i].name.remote != r && verification_update(
                            #[trigger] refs[i],
                        ) == Some(x[j]) by {
                        if j < acc.len() {
                            assert(x[j] == acc[j]);
                        } else {
                            assert(x[j] == add[j - acc.len()]);
                            lemma_remote_updates_source(refs, k, j - acc.len());
                        }
                    }
                }
            },
        }
    }
}

/// Obtains identity and sigrefs tips for every relevant remote.
pub struct Fetch {
    pub local: PublicKey,
    pub remote: PublicKey,
    pub tracking: TrackedRemotes,
    pub delegates: Vec<PublicKey>,
    pub limit: u64,
}

/// `refs/namespaces/*`
pub open spec fn all_namespaces_lit() -> Seq<u8> {
    crate::refs::namespaces_lit().push(42u8)
}

/// The delegates other than `local`, in order.
pub open spec fn others(ds: Seq<PublicKey>, local: PublicKey) -> Seq<PublicKey>
    decreases ds.len(),
{
    if ds.len() == 0 {
        Seq::empty()
    } else if ds.last() == local {
        others(ds.drop_last(), local)
    } else {
        others(ds.drop_last(), local).push(ds.last())
    }
}

pub fn others_exec(ds: &Vec<PublicKey>, local: &PublicKey) -> (r: Vec<PublicKey>)
    ensures
        r@ == others(ds@, *local),
{
    let mut out: Vec<PublicKey> = Vec::new();
    let mut i: usize = 0;
    assert(ds@.subrange(0, 0) =~= Seq::<PublicKey>::empty());
    while i < ds.len()
        invariant
            0 <= i <= ds@.len(),
            out@ == others(ds@.subrange(0, i as int), *local),
        decreases ds@.len() - i,
    {
        let ghost sub = ds@.subrange(0, i + 1);
        assert(sub.drop_last() =~= ds@.subrange(0, i as int));
        assert(sub.last() == ds@[i as int]);
        if !ds[i].same(local) {
            out.push(ds[i]);
        }
        i = i + 1;
    }
    assert(ds@.subrange(0, ds@.len() as int) =~= ds@);
    out
}

impl Fetch {
    /// `refs/namespaces/*` when every remote is followed; else the special
    /// names of each followed remote and of each delegate but the local
    /// node, and nothing where there is none of either.
    pub fn ls_refs(&self) -> (r: Option<Vec<Vec<u8>>>)
        ensures
            self.tracking.scope == Scope::All ==> (r matches Some(v) && names_view(v@) == seq![
                all_namespaces_lit(),
            ]),
            self.tracking.scope == Scope::Trusted ==> match r {
                Some(v) => names_view(v@) == special_names(
                    self.tracking.remotes@ + others(self.delegates@, self.local),
                ) && v@.len() > 0,
                None => self.tracking.remotes@.len() == 0 && others(self.delegates@, self.local).len() == 0,
            },
    {
        match self.tracking.scope {
            Scope::All => {
                let mut p = crate::refs::namespaces_bytes();
                p.push(42u8);
                let v = vec![p];
                assert(names_view(v@) =~= seq![all_namespaces_lit()]);
                Some(v)
            },
            Scope::Trusted => {
                let mut ks: Vec<PublicKey> = Vec::new();
                let mut i: usize = 0;
                while i < self.tracking.remotes.len()
                    invariant
                        0 <= i <= self.tracking.remotes@.len(),
                        ks@ == self.tracking.remotes@.subrange(0, i as int),
                    decreases self.tracking.remotes@.len() - i,
                {
                    ks.push(self.tracking.remotes[i]);
                    assert(ks@ =~= self.tracking.remotes@.subrange(0, i + 1));
                    i = i + 1;
                }
                assert(self.tracking.remotes@.subrange(0, self.tracking.remotes@.len() as int)
                    =~= self.tracking.remotes@);
                let mut ds = others_exec(&self.delegates, &self.local);
                let ghost dv = ds@;
                ks.append(&mut ds);
                assert(ks@ =~= self.tracking.remotes@ + dv);
                let v = special_refs_of(&ks);
                proof {
                    lemma_special_names_len(ks@);
                }
                if v.len() == 0 {
                    None
                } else {
                    Some(v)
                }
            },
        }
    }

    /// The special names of every delegate but the local node must have been
    /// received.
    pub fn pre_validate(&self, refs: &Vec<ReceivedRef>) -> (r: Result<(), Layout>)
        ensures
            refs@.len() == 0 ==> r is Ok,
            refs@.len() > 0 ==> (r is Ok <==> missing(
                special_names(others(self.delegates@, self.local)),
                received_names(received_view(refs@)),
            ).len() == 0),
    {
        let ds = others_exec(&self.delegates, &self.local);
        let req = special_refs_of(&ds);
        let got = names_of(refs);
        assert(names_view(got@).len() == got@.len());
        assert(received_names(received_view(refs@)).len() == refs@.len());
        ensure_refs(&req, &got)
    }

    /// Keeps every well-formed namespaced reference.
    pub fn ref_filter(&self, r: AdvertisedRef) -> (o: Option<ReceivedRef>)
        ensures
            match o {
                Some(x) => received_of(r) == Some(x@),
                None => received_of(r) is None,
            },
    {
        receive(r)
    }

    /// The verification updates, given which identity tips verified.
    pub fn prepare_with(&self, refs: &Vec<ReceivedRef>, verified: &Vec<Oid>) -> (r: Result<
        Updates,
        PrepareError,
    >)
        ensures
            match verify_remotes(
                received_view(refs@),
                remote_order(received_view(refs@), self.local),
                self.delegates@,
                verified@,
            ) {
                Ok(x) => r matches Ok(u) && updates_view(u.tips@) == x,
                Err(k) => r matches Err(PrepareError::Verification { remote }) && remote == k,
            },
    {
        verification_refs(&self.local, refs, &self.delegates, verified)
    }

    /// Verifies each received identity tip and prepares the updates from
    /// whatever the verification gave.
    pub fn prepare<I: Identities>(&self, ids: &I, refs: &Vec<ReceivedRef>) -> (r: Result<
        Updates,
        PrepareError,
    >)
        ensures
            exists|verified: Seq<Oid>|
                match #[trigger] verify_remotes(
                    received_view(refs@),
                    remote_order(received_view(refs@), self.local),
                    self.delegates@,
                    verified,
                ) {
                    Ok(x) => r matches Ok(u) && updates_view(u.tips@) == x,
                    Err(k) => r matches Err(PrepareError::Verification { remote }) && remote == k,
                },
    {
        let verified = self.verified_tips(ids, refs);
        self.prepare_with(refs, &verified)
    }

    /// The received identity tips whose documents verify, as far as `ids`
    /// says; each is the tip of a received `rad/id`.
    pub fn verified_tips<I: Identities>(&self, ids: &I, refs: &Vec<ReceivedRef>) -> (r: Vec<Oid>)
        ensures
            tips_of_ids(received_view(refs@), r@),
    {
        let mut verified: Vec<Oid> = Vec::new();
        let mut i: usize = 0;
        while i < refs.len()
            invariant
                0 <= i <= refs@.len(),
                tips_of_ids(received_view(refs@), verified@),
            decreases refs@.len() - i,
        {
            if let Suffix::Special(Special::Id) = refs[i].name.suffix {
                if ids.verified(refs[i].tip).is_ok() {
                    let ghost v0 = verified@;
                    verified.push(refs[i].tip);
                    let ghost rv = received_view(refs@);
                    assert forall|k: int| #![trigger verified@[k]] 0 <= k < verified@.len() implies exists|j: int|
                        0 <= j < rv.len() && (#[trigger] rv[j]).tip == verified@[k] && rv[j].name.suffix
                            == SuffixView::Special(Special::Id) by {
                        if k < v0.len() {
                            assert(verified@[k] == v0[k]);
                        } else {
                            assert(rv[i as int] == refs@[i as int]@);
                        }
                    }
                }
            }
            i = i + 1;
        }
        verified
    }

    /// The remotes other than the local node whose identity failed to
    /// verify and that are no delegates: the verification stage stages
    /// nothing of them, and the exchange loads no manifest of them.
    pub fn tainted(&self, refs: &Vec<ReceivedRef>, verified: &Vec<Oid>) -> (r: Vec<PublicKey>)
        ensures
            r@ == tainted_of(
                received_view(refs@),
                remote_order(received_view(refs@), self.local),
                self.delegates@,
                verified@,
            ),
    {
        let ghost rv = received_view(refs@);
        let ks = remote_order_exec(refs, &self.local);
        let mut out: Vec<PublicKey> = Vec::new();
        let mut i: usize = 0;
        assert(ks@.subrange(0, 0) =~= Seq::<PublicKey>::empty());
        while i < ks.len()
            invariant
                0 <= i <= ks@.len(),
                rv == received_view(refs@),
                out@ == tainted_of(rv, ks@.subrange(0, i as int), self.delegates@, verified@),
            decreases ks@.len() - i,
        {
            let k = ks[i];
            let ghost sub = ks@.subrange(0, i + 1);
            assert(sub.drop_last() =~= ks@.subrange(0, i as int));
            assert(sub.last() == k);
            if bad_identity_exec(refs, &k, verified) && !contains_key(&self.delegates, &k) {
                out.push(k);
            }
            i = i + 1;
        }
        assert(ks@.subrange(0, ks@.len() as int) =~= ks@);
        out
    }
}

proof fn lemma_special_names_len(ks: Seq<PublicKey>)
    ensures
        special_names(ks).len() == 2 * ks.len(),
    decreases ks.len(),
{
    if ks.len() > 0 {
        lemma_special_names_len(ks.drop_last());
    }
}


/// A signed-refs manifest: qualified names and the objects they are signed at.
pub struct Sigrefs {
    pub refs: Vec<(Vec<u8>, Oid)>,
}

pub open spec fn sigrefs_view(s: Sigrefs) -> Seq<(Seq<u8>, Oid)> {
    s.refs@.map_values(|p: (Vec<u8>, Oid)| (p.0@, p.1))
}

/// The manifests of a set of remotes, one per remote.
pub struct RemoteRefs {
    pub remotes: Vec<(PublicKey, Sigrefs)>,
}

pub open spec fn remote_refs_view(r: RemoteRefs) -> Seq<(PublicKey, Seq<(Seq<u8>, Oid)>)> {
    r.remotes@.map_values(|p: (PublicKey, Sigrefs)| (p.0, sigrefs_view(p.1)))
}

pub open spec fn keys_of(tr: Seq<(PublicKey, Seq<(Seq<u8>, Oid)>)>) -> Seq<PublicKey> {
    tr.map_values(|p: (PublicKey, Seq<(Seq<u8>, Oid)>)| p.0)
}

/// Every signed name is a qualified name.
pub open spec fn all_qualified(tr: Seq<(PublicKey, Seq<(Seq<u8>, Oid)>)>) -> bool {
    forall|m: int, j: int| 0 <= m < tr.len() && 0 <= j < tr[m].1.len() ==> is_qualified(#[trigger] tr[m].1[j].0)
}

/// `refs/namespaces/<k>/`
pub open spec fn ns_prefix(k: PublicKey) -> Seq<u8> {
    namespaces_lit() + key_human(k.bytes@) + seq![SLASH]
}

/// `rad/`
pub open spec fn bare_rad_lit() -> Seq<u8> {
    seq![114u8, 97, 100, 47]
}

/// Under `refs/namespaces/<k>/refs/rad/` or `refs/namespaces/<k>/rad/`.
pub open spec fn is_rad_ref(k: PublicKey, name: Seq<u8>) -> bool {
    has_prefix(name, ns_prefix(k) + rad_lit()) || has_prefix(name, ns_prefix(k) + bare_rad_lit())
}

/// The signed references of `k` as forced direct updates.
pub open spec fn signed_updates(k: PublicKey, refs: Seq<(Seq<u8>, Oid)>) -> Seq<UpdateView> {
    refs.map_values(
        |p: (Seq<u8>, Oid)| UpdateView::Direct { name: namespaced_name(k, p.0), target: p.1, no_ff: Policy::Allow },
    )
}

pub open spec fn signed_names(k: PublicKey, refs: Seq<(Seq<u8>, Oid)>) -> Seq<Seq<u8>> {
    refs.map_values(|p: (Seq<u8>, Oid)| namespaced_name(k, p.0))
}

/// Prunes of the scanned references of `k` that are namespaced, not `rad`
/// references, and not signed.
pub open spec fn prunes(scan: Seq<RefView>, k: PublicKey, signed: Seq<Seq<u8>>) -> Seq<UpdateView>
    decreases scan.len(),
{
    if scan.len() == 0 {
        Seq::empty()
    } else {
        let prev = prunes(scan.drop_last(), k, signed);
        let r = scan.last();
        if is_namespaced(r.name) && !is_rad_ref(k, r.name) && !signed.contains(r.name) {
            prev.push(UpdateView::Prune { name: r.name, prev: r.target })
        } else {
            prev
        }
    }
}

/// The updates of the data stage for the manifests `tr` over the snapshot `s`.
pub open spec fn refs_prepare(
    s: Seq<crate::refdb::EntryView>,
    tr: Seq<(PublicKey, Seq<(Seq<u8>, Oid)>)>,
) -> Seq<UpdateView>
    decreases tr.len(),
{
    if tr.len() == 0 {
        Seq::empty()
    } else {
        let k = tr.last().0;
        let refs = tr.last().1;
        refs_prepare(s, tr.drop_last()) + signed_updates(k, refs) + prunes(
            scan_upto(s, ns_prefix(k), s.len() as int),
            k,
            signed_names(k, refs),
        )
    }
}

/// The signed `(namespaced name, object)` pairs of every manifest, in order.
pub open spec fn signed_pairs(tr: Seq<(PublicKey, Seq<(Seq<u8>, Oid)>)>) -> Seq<(Seq<u8>, Oid)>
    decreases tr.len(),
{
    if tr.len() == 0 {
        Seq::empty()
    } else {
        signed_pairs(tr.drop_last()) + tr.last().1.map_values(
            |p: (Seq<u8>, Oid)| (namespaced_name(tr.last().0, p.0), p.1),
        )
    }
}

/// Fetches the data that the manifests of `trusted` sign.
pub struct Refs {
    pub local: PublicKey,
    pub remote: PublicKey,
    pub trusted: RemoteRefs,
    pub limit: u64,
}

fn rad_tail_bytes() -> (r: Vec<u8>)
    ensures
        r@ == bare_rad_lit(),
{
    let r = vec![114u8, 97, 100, 47];
    assert(r@ =~= bare_rad_lit());
    r
}

fn prune_candidates(
    scan: &Vec<Ref>,
    k: &PublicKey,
    signed: &Vec<Vec<u8>>,
    tips: &mut Vec<Update>,
)
    ensures
        updates_view(final(tips)@) == updates_view(old(tips)@) + prunes(
            refs_view(scan@),
            *k,
            names_view(signed@),
        ),
{
    let empty: Vec<u8> = Vec::new();
    let prefix = namespaced_bytes(k, empty.as_slice());
    let rad = rad_bytes();
    let refs_rad = namespaced_bytes(k, rad.as_slice());
    let tail = rad_tail_bytes();
    let bare_rad = namespaced_bytes(k, tail.as_slice());
    assert(prefix@ =~= ns_prefix(*k));
    assert(refs_rad@ =~= ns_prefix(*k) + rad_lit());
    assert(bare_rad@ =~= ns_prefix(*k) + bare_rad_lit());
    let ghost sv = refs_view(scan@);
    let ghost t0 = updates_view(tips@);
    let mut i: usize = 0;
    assert(sv.subrange(0, 0) =~= Seq::<RefView>::empty());
    assert(t0 + Seq::<UpdateView>::empty() =~= t0);
    while i < scan.len()
        invariant
            0 <= i <= scan@.len(),
            sv == refs_view(scan@),
            refs_rad@ == ns_prefix(*k) + rad_lit(),
            bare_rad@ == ns_prefix(*k) + bare_rad_lit(),
            updates_view(tips@) == t0 + prunes(sv.subrange(0, i as int), *k, names_view(signed@)),
        decreases scan@.len() - i,
    {
        let r = &scan[i];
        let ghost sub = sv.subrange(0, i + 1);
        assert(sub.drop_last() =~= sv.subrange(0, i as int));
        assert(sub.last() == r@);
        let keep = split_namespaced(r.name.as_slice()).is_some() && !(starts_with(
            r.name.as_slice(),
            refs_rad.as_slice(),
        ) || starts_with(r.name.as_slice(), bare_rad.as_slice())) && !contains_name(signed, r.name.as_slice());
        if keep {
            let u = Update::Prune { name: copy_bytes(&r.name), prev: r.target.copy() };
            let ghost before = updates_view(tips@);
            tips.push(u);
            assert(updates_view(tips@) =~= before.push(u@));
        }
        i = i + 1;
    }
    assert(sv.subrange(0, scan@.len() as int) =~= sv);
}

impl Refs {
    pub open spec fn manifests(&self) -> Seq<(PublicKey, Seq<(Seq<u8>, Oid)>)> {
        remote_refs_view(self.trusted)
    }

    fn keys(&self) -> (r: Vec<PublicKey>)
        ensures
            r@ == keys_of(self.manifests()),
    {
        let mut out: Vec<PublicKey> = Vec::new();
        let mut i: usize = 0;
        while i < self.trusted.remotes.len()
            invariant
                0 <= i <= self.trusted.remotes@.len(),
                out@ == keys_of(self.manifests()).subrange(0, i as int),
            decreases self.trusted.remotes@.len() - i,
        {
            out.push(self.trusted.remotes[i].0);
            assert(out@ =~= keys_of(self.manifests()).subrange(0, i + 1));
            i = i + 1;
        }
        assert(keys_of(self.manifests()).subrange(0, self.trusted.remotes@.len() as int) =~= keys_of(
            self.manifests(),
        ));
        out
    }

    /// The special names of every remote with a manifest; nothing where there
    /// is none.
    pub fn ls_refs(&self) -> (r: Option<Vec<Vec<u8>>>)
        ensures
            match r {
                Some(v) => names_view(v@) == special_names(keys_of(self.manifests())) && v@.len() > 0,
                None => self.manifests().len() == 0,
            },
    {
        let ks = self.keys();
        let v = special_refs_of(&ks);
        proof {
            lemma_special_names_len(ks@);
        }
        if v.len() == 0 {
            None
        } else {
            Some(v)
        }
    }

    pub fn pre_validate(&self, refs: &Vec<ReceivedRef>) -> (r: Result<(), Layout>)
        ensures
            r is Ok,
    {
        Ok(())
    }

    /// Keeps the special references of remotes with a manifest.
    pub fn ref_filter(&self, r: AdvertisedRef) -> (o: Option<ReceivedRef>)
        ensures
            match o {
                Some(x) => received_of(r) == Some(x@) && x@.name.suffix is Special && keys_of(
                    self.manifests(),
                ).contains(x@.name.remote),
                None => match received_of(r) {
                    Some(v) => !(v.name.suffix is Special) || !keys_of(self.manifests()).contains(
                        v.name.remote,
                    ),
                    None => true,
                },
            },
    {
        let ks = self.keys();
        match receive(r) {
            Some(x) => match x.name.suffix {
                Suffix::Special(_) => if contains_key(&ks, &x.name.remote) {
                    Some(x)
                } else {
                    None
                },
                Suffix::Qualified(_) => None,
            },
            None => None,
        }
    }

    /// The wants and haves of every signed reference (by the rule of
    /// `WantsHavesBuilder::add_signed`) and of every received reference (by
    /// that of `add_one`).
    pub fn wants_haves(&self, refdb: &Refdb, refs: &Vec<ReceivedRef>) -> (r: Result<
        Option<WantsHaves>,
        PrepareError,
    >)
        ensures
            r is Err <==> !all_qualified(self.manifests()),
            r matches Ok(o) ==> ({
                let sp = signed_pairs(self.manifests());
                let rp = received_pairs(received_view(refs@));
                let w = wants_from(refdb.snapshot(), refdb.odb, sp + rp);
                let h = haves_from(refdb.snapshot(), refdb.odb, sp, true).union(
                    haves_from(refdb.snapshot(), refdb.odb, rp, false),
                );
                match o {
                    Some(x) => oid_set(x.wants@) == w.difference(h) && x.wants@.len() > 0 && oid_set(
                        x.haves@,
                    ) == h,
                    None => w.difference(h) == Set::<Oid>::empty(),
                }
            }),
    {
        let ghost tr = self.manifests();
        let ghost st = refdb.snapshot();
        let mut b = WantsHavesBuilder::new();
        let mut m: usize = 0;
        assert(tr.subrange(0, 0) =~= Seq::<(PublicKey, Seq<(Seq<u8>, Oid)>)>::empty());
        assert(oid_set(b.wants@) =~= wants_from(st, refdb.odb, signed_pairs(tr.subrange(0, 0))));
        assert(oid_set(b.haves@) =~= haves_from(st, refdb.odb, signed_pairs(tr.subrange(0, 0)), true));
        while m < self.trusted.remotes.len()
            invariant
                0 <= m <= self.trusted.remotes@.len(),
                tr == self.manifests(),
                st == refdb.snapshot(),
                all_qualified(tr.subrange(0, m as int)),
                b.wf(),
                oid_set(b.wants@) == wants_from(st, refdb.odb, signed_pairs(tr.subrange(0, m as int))),
                oid_set(b.haves@) == haves_from(st, refdb.odb, signed_pairs(tr.subrange(0, m as int)), true),
            decreases self.trusted.remotes@.len() - m,
        {
            let k = &self.trusted.remotes[m].0;
            let sig = &self.trusted.remotes[m].1;
            let ghost sv = sigrefs_view(*sig);
            let ghost base = signed_pairs(tr.subrange(0, m as int));
            let ghost nsv = sv.map_values(|p: (Seq<u8>, Oid)| (namespaced_name(*k, p.0), p.1));
            assert(tr[m as int] == (*k, sv));
            let mut j: usize = 0;
            assert(base + nsv.subrange(0, 0) =~= base);
            while j < sig.refs.len()
                invariant
                    0 <= j <= sig.refs@.len(),
                    sv == sigrefs_view(*sig),
                    nsv == sv.map_values(|p: (Seq<u8>, Oid)| (namespaced_name(*k, p.0), p.1)),
                    tr == self.manifests(),
                    st == refdb.snapshot(),
                    m < self.trusted.remotes@.len(),
                    tr[m as int] == (*k, sv),
                    all_qualified(tr.subrange(0, m as int)),
                    forall|x: int| 0 <= x < j ==> is_qualified(#[trigger] sv[x].0),
                    b.wf(),
                    oid_set(b.wants@) == wants_from(st, refdb.odb, base + nsv.subrange(0, j as int)),
                    oid_set(b.haves@) == haves_from(st, refdb.odb, base + nsv.subrange(0, j as int), true),
                decreases sig.refs@.len() - j,
            {
                let name = &sig.refs[j].0;
                let tip = sig.refs[j].1;
                assert(sv[j as int] == (name@, tip));
                if !is_qualified_exec(name.as_slice()) {
                    proof {
                        lemma_not_all_qualified(tr, m as int, j as int);
                    }
                    return Err(PrepareError::NotQualified { name: copy_bytes(name) });
                }
                let n = namespaced_bytes(k, name.as_slice());
                b.add_signed(refdb, n.as_slice(), tip);
                proof {
                    let pre = base + nsv.subrange(0, j as int);
                    assert(base + nsv.subrange(0, j + 1) =~= pre + seq![(n@, tip)]);
                    lemma_wants_haves_append(st, refdb.odb, pre, seq![(n@, tip)]);
                }
                j = j + 1;
            }
            assert(nsv.subrange(0, sig.refs@.len() as int) =~= nsv);
            let ghost sub = tr.subrange(0, m + 1);
            assert(sub.drop_last() =~= tr.subrange(0, m as int));
            assert(sub.last() == (*k, sv));
            assert(signed_pairs(sub) == base + nsv);
            assert forall|a: int, c: int| 0 <= a < sub.len() && 0 <= c < sub[a].1.len() implies is_qualified(
                #[trigger] sub[a].1[c].0,
            ) by {
                if a < m {
                    assert(sub[a] == tr.subrange(0, m as int)[a]);
                } else {
                    assert(sub[a].1 == sv);
                }
            }
            m = m + 1;
        }
        assert(tr.subrange(0, self.trusted.remotes@.len() as int) =~= tr);
        b.add(refdb, refs);
        proof {
            lemma_wants_haves_append(st, refdb.odb, signed_pairs(tr), received_pairs(received_view(refs@)));
        }
        let out = b.build();
        Ok(out)
    }

    /// A forced direct update of every signed reference, then a prune of every
    /// stored reference of that remote which is neither signed nor a `rad`
    /// reference.
    pub fn prepare(&self, refdb: &Refdb) -> (r: Result<Updates, PrepareError>)
        ensures
            r is Err <==> !all_qualified(self.manifests()),
            r matches Ok(u) ==> updates_view(u.tips@) == refs_prepare(refdb.snapshot(), self.manifests()),
    {
        let ghost tr = self.manifests();
        let mut tips: Vec<Update> = Vec::new();
        let mut m: usize = 0;
        assert(tr.subrange(0, 0) =~= Seq::<(PublicKey, Seq<(Seq<u8>, Oid)>)>::empty());
        assert(updates_view(tips@) =~= Seq::<UpdateView>::empty());
        while m < self.trusted.remotes.len()
            invariant
                0 <= m <= self.trusted.remotes@.len(),
                tr == self.manifests(),
                all_qualified(tr.subrange(0, m as int)),
                updates_view(tips@) == refs_prepare(refdb.snapshot(), tr.subrange(0, m as int)),
            decreases self.trusted.remotes@.len() - m,
        {
            let k = &self.trusted.remotes[m].0;
            let sig = &self.trusted.remotes[m].1;
            let ghost sv = sigrefs_view(*sig);
            assert(tr[m as int] == (*k, sv));
            let ghost t0 = updates_view(tips@);
            let mut signed: Vec<Vec<u8>> = Vec::new();
            let mut j: usize = 0;
            assert(names_view(signed@) =~= signed_names(*k, sv.subrange(0, 0)));
            assert(updates_view(tips@) =~= t0 + signed_updates(*k, sv.subrange(0, 0)));
            while j < sig.refs.len()
                invariant
                    0 <= j <= sig.refs@.len(),
                    sv == sigrefs_view(*sig),
                    tr == self.manifests(),
                    m < self.trusted.remotes@.len(),
                    tr[m as int] == (*k, sv),
                    *k == self.trusted.remotes@[m as int].0,
                    *sig == self.trusted.remotes@[m as int].1,
                    all_qualified(tr.subrange(0, m as int)),
                    t0 == refs_prepare(refdb.snapshot(), tr.subrange(0, m as int)),
                    forall|x: int| 0 <= x < j ==> is_qualified(#[trigger] sv[x].0),
                    names_view(signed@) == signed_names(*k, sv.subrange(0, j as int)),
                    updates_view(tips@) == t0 + signed_updates(*k, sv.subrange(0, j as int)),
                decreases sig.refs@.len() - j,
            {
                let name = &sig.refs[j].0;
                let tip = sig.refs[j].1;
                assert(sv[j as int] == (name@, tip));
                if !is_qualified_exec(name.as_slice()) {
                    proof {
                        assert(!is_qualified(tr[m as int].1[j as int].0));
                        lemma_not_all_qualified(tr, m as int, j as int);
                    }
                    return Err(PrepareError::NotQualified { name: copy_bytes(name) });
                }
                let n = namespaced_bytes(k, name.as_slice());
                let ghost bn = names_view(signed@);
                let ghost bt = updates_view(tips@);
                let c = copy_bytes(&n);
                signed.push(c);
                let u = Update::Direct { name: n, target: tip, no_ff: Policy::Allow };
                tips.push(u);
                assert(sv.subrange(0, j + 1) =~= sv.subrange(0, j as int).push(sv[j as int]));
                assert(names_view(signed@) =~= bn.push(c@));
                assert(updates_view(tips@) =~= bt.push(u@));
                assert(signed_names(*k, sv.subrange(0, j + 1)) =~= signed_names(*k, sv.subrange(0, j as int)).push(
                    namespaced_name(*k, name@),
                ));
                assert(signed_updates(*k, sv.subrange(0, j + 1)) =~= signed_updates(*k, sv.subrange(0, j as int)).push(
                    u@,
                ));
                assert(names_view(signed@) =~= signed_names(*k, sv.subrange(0, j + 1)));
                assert(updates_view(tips@) =~= t0 + signed_updates(*k, sv.subrange(0, j + 1)));
                j = j + 1;
            }
            assert(sv.subrange(0, sig.refs@.len() as int) =~= sv);
            let empty: Vec<u8> = Vec::new();
            let prefix = namespaced_bytes(k, empty.as_slice());
            assert(prefix@ =~= ns_prefix(*k));
            let scan = refdb.scan(prefix.as_slice());
            prune_candidates(&scan, k, &signed, &mut tips);
            let ghost sub = tr.subrange(0, m + 1);
            assert(sub.drop_last() =~= tr.subrange(0, m as int));
            assert(sub.last() == (*k, sv));
            assert(updates_view(tips@) =~= refs_prepare(refdb.snapshot(), sub));
            assert forall|a: int, b: int| 0 <= a < sub.len() && 0 <= b < sub[a].1.len() implies is_qualified(
                #[trigger] sub[a].1[b].0,
            ) by {
                if a < m {
                    assert(sub[a] == tr.subrange(0, m as int)[a]);
                } else {
                    assert(sub[a].1 == sv);
                }
            }
            m = m + 1;
        }
        assert(tr.subrange(0, self.trusted.remotes@.len() as int) =~= tr);
        Ok(Updates { tips })
    }
}

proof fn lemma_not_all_qualified(tr: Seq<(PublicKey, Seq<(Seq<u8>, Oid)>)>, m: int, j: int)
    requires
        0 <= m < tr.len(),
        0 <= j < tr[m].1.len(),
        !is_qualified(tr[m].1[j].0),
    ensures
        !all_qualified(tr),
{
}

/// Each update a prune pass emits is a prune of a reference under the
/// remote's namespace that is not a `rad` reference.
proof fn lemma_prunes_scope(scan: Seq<RefView>, k: PublicKey, signed: Seq<Seq<u8>>, x: int)
    requires
        0 <= x < prunes(scan, k, signed).len(),
    ensures
        prunes(scan, k, signed)[x] matches UpdateView::Prune { name, .. } && !is_rad_ref(k, name)
            && exists|i: int| 0 <= i < scan.len() && scan[i].name == name,
    decreases scan.len(),
{
    let prev = prunes(scan.drop_last(), k, signed);
    if x < prev.len() {
        lemma_prunes_scope(scan.drop_last(), k, signed, x);
        assert(prunes(scan, k, signed)[x] == prev[x]);
        if let UpdateView::Prune { name, .. } = prev[x] {
            let i = choose|i: int| 0 <= i < scan.drop_last().len() && scan.drop_last()[i].name == name;
            assert(scan[i] == scan.drop_last()[i]);
        }
    } else {
        assert(scan[scan.len() - 1] == scan.last());
    }
}

/// Prune scope: the data stage never prunes a `rad` reference. Every prune
/// it emits names a reference under the namespace of one of the remotes,
/// outside `refs/namespaces/<remote>/refs/rad/` and
/// `refs/namespaces/<remote>/rad/`.
pub proof fn lemma_prune_scope(
    s: Seq<crate::refdb::EntryView>,
    tr: Seq<(PublicKey, Seq<(Seq<u8>, Oid)>)>,
    x: int,
)
    requires
        0 <= x < refs_prepare(s, tr).len(),
        refs_prepare(s, tr)[x] is Prune,
    ensures
        exists|m: int| #![trigger tr[m]]
            0 <= m < tr.len() && has_prefix(update_name_of(refs_prepare(s, tr)[x]), ns_prefix(tr[m].0))
                && !is_rad_ref(tr[m].0, update_name_of(refs_prepare(s, tr)[x])),
    decreases tr.len(),
{
    let d = tr.drop_last();
    let k = tr.last().0;
    let a = refs_prepare(s, d);
    let b = signed_updates(k, tr.last().1);
    let c = prunes(scan_upto(s, ns_prefix(k), s.len() as int), k, signed_names(k, tr.last().1));
    assert(refs_prepare(s, tr) == a + b + c);
    if x < a.len() {
        assert(refs_prepare(s, tr)[x] == a[x]);
        lemma_prune_scope(s, d, x);
        let m = choose|m: int| #![trigger d[m]]
            0 <= m < d.len() && has_prefix(update_name_of(a[x]), ns_prefix(d[m].0))
                && !is_rad_ref(d[m].0, update_name_of(a[x]));
        assert(tr[m] == d[m]);
    } else if x < a.len() + b.len() {
        assert(refs_prepare(s, tr)[x] == b[x - a.len()]);
    } else {
        let y = x - a.len() - b.len();
        assert(refs_prepare(s, tr)[x] == c[y]);
        let sc = scan_upto(s, ns_prefix(k), s.len() as int);
        lemma_prunes_scope(sc, k, signed_names(k, tr.last().1), y);
        if let UpdateView::Prune { name, .. } = c[y] {
            let i = choose|i: int| 0 <= i < sc.len() && sc[i].name == name;
            lemma_scan_sound(s, ns_prefix(k), s.len() as int, i);
            assert(tr[tr.len() - 1] == tr.last());
        }
    }
}

pub open spec fn update_name_of(u: UpdateView) -> Seq<u8> {
    crate::update::update_name(u)
}

} // verus!
