use radicle_fetch::odb::Odb;
use radicle_fetch::oid::{Oid, PublicKey};
use radicle_fetch::protocol::{commit_identity, commit_rest, Error, Exchange, FetchLimit};
use radicle_fetch::refdb::{Entry, Refdb, UserInfo};
use radicle_fetch::refs::{parse, ReceivedRef, Refname};
use radicle_fetch::stage::{current, Identities, Scope, Sigrefs, TrackedRemotes, Verified};
use radicle_fetch::state::FetchState;
use radicle_fetch::transport::{agent_name, repo_path, sort_prefixes};
use radicle_fetch::update::{Applied, Policy, Target, Update, Updated};
use radicle_fetch::worker::{as_ref_updates, RefUpdate};

fn key(n: u8) -> PublicKey {
    PublicKey::new([n; 32])
}

fn oid(n: u8) -> Oid {
    Oid::new([n; 20])
}

fn ns(k: &PublicKey, suffix: &str) -> Vec<u8> {
    format!("refs/namespaces/{}/{}", radicle_crypto::PublicKey::from(k.bytes).to_human(), suffix)
        .into_bytes()
}

struct Doc(Vec<PublicKey>);

impl Verified for Doc {
    fn delegates(&self) -> Vec<PublicKey> {
        self.0.clone()
    }
}

/// Identities whose documents verify at the listed tips only.
struct Ids {
    good: Vec<(Oid, Vec<PublicKey>)>,
}

impl Identities for Ids {
    type VerifiedIdentity = Doc;

    fn verified(&self, head: Oid) -> Result<Doc, ()> {
        self.good
            .iter()
            .find(|(o, _)| o.bytes == head.bytes)
            .map(|(_, ds)| Doc(ds.clone()))
            .ok_or(())
    }
}

#[test]
fn exchange_with_self_fails_first() {
    let k = key(1);
    let followed = TrackedRemotes { scope: Scope::All, remotes: vec![] };
    let r = Exchange::start(k, k, &vec![k], followed, FetchLimit::default());
    assert!(matches!(r, Err(Error::ReplicateSelf)));
}

#[test]
fn exchange_start_sets_up_fetch_stage() {
    let (local, a, b) = (key(0), key(1), key(2));
    let followed = TrackedRemotes { scope: Scope::Trusted, remotes: vec![b] };
    let (x, f) = Exchange::start(local, a, &vec![local, a], followed, FetchLimit::default()).unwrap();
    assert_eq!(x.delegates.len(), 1);
    assert_eq!(x.delegates[0].bytes, a.bytes);
    assert_eq!(x.trusted.len(), 2);
    assert_eq!(f.delegates.len(), 1);
    assert_eq!(f.limit, FetchLimit::default().special);
    let keys = x.manifest_keys();
    assert_eq!(keys.iter().map(|k| k.bytes).collect::<Vec<_>>(), vec![b.bytes, a.bytes]);
}

#[test]
fn missing_delegate_manifest_fails() {
    let (local, a, b) = (key(0), key(1), key(2));
    let followed = TrackedRemotes { scope: Scope::Trusted, remotes: vec![b] };
    let (x, _) = Exchange::start(local, a, &vec![a], followed, FetchLimit::default()).unwrap();
    let r = x.manifests(vec![(b, Some(Sigrefs { refs: vec![] })), (a, None)], &vec![]);
    assert!(matches!(r, Err(Error::MissingSigrefs { remote }) if remote.bytes == a.bytes));
    let m = x.manifests(vec![(b, None), (a, Some(Sigrefs { refs: vec![] }))], &vec![]).unwrap();
    assert_eq!(m.remotes.len(), 1);
    assert_eq!(m.remotes[0].0.bytes, a.bytes);
    let stage = x.refs_stage(m, FetchLimit::default());
    assert_eq!(stage.limit, FetchLimit::default().refs);
}

#[test]
fn identity_commit_before_data() {
    let r = key(1);
    let mut db = Refdb::new(UserInfo { pk: key(0) }, Odb::new(vec![], vec![]), vec![]);
    let mut st = FetchState::new();
    st.update_all(vec![
        Update::Direct { name: ns(&r, "refs/heads/main"), target: oid(3), no_ff: Policy::Allow },
        Update::Direct { name: Refname::rad_id(r), target: oid(1), no_ff: Policy::Abort },
    ]);
    let mut applied = commit_identity(&mut st, &mut db).unwrap();
    assert_eq!(db.refname_to_id(&Refname::rad_id(r)).unwrap().bytes, oid(1).bytes);
    assert!(db.refname_to_id(&ns(&r, "refs/heads/main")).is_none());
    commit_rest(&mut st, &mut db, &mut applied).unwrap();
    assert_eq!(db.refname_to_id(&ns(&r, "refs/heads/main")).unwrap().bytes, oid(3).bytes);
    assert_eq!(applied.updated.len(), 2);
    assert!(st.updates().is_empty());
}

#[test]
fn failed_final_commit_keeps_identity() {
    let r = key(1);
    let (a, b) = (oid(1), oid(2));
    let entries = vec![Entry { name: ns(&r, "refs/heads/main"), target: Some(Target::Direct(a)) }];
    let mut db = Refdb::new(UserInfo { pk: key(0) }, Odb::new(vec![a, b], vec![]), entries);
    let mut st = FetchState::new();
    st.update_all(vec![
        Update::Direct { name: ns(&r, "refs/heads/main"), target: b, no_ff: Policy::Abort },
        Update::Direct { name: Refname::rad_id(r), target: oid(5), no_ff: Policy::Abort },
    ]);
    let mut applied = commit_identity(&mut st, &mut db).unwrap();
    assert!(commit_rest(&mut st, &mut db, &mut applied).is_err());
    assert_eq!(db.refname_to_id(&ns(&r, "refs/heads/main")).unwrap().bytes, a.bytes);
    assert_eq!(db.refname_to_id(&Refname::rad_id(r)).unwrap().bytes, oid(5).bytes);
}

#[test]
fn node_ref_updates() {
    let r = key(1);
    let entries = vec![Entry { name: b"refs/t".to_vec(), target: Some(Target::Direct(oid(4))) }];
    let db = Refdb::new(UserInfo { pk: key(0) }, Odb::new(vec![], vec![]), entries);
    let ups = vec![
        Updated::Direct { name: ns(&r, "refs/heads/main"), target: oid(2) },
        Updated::Symbolic { name: b"refs/s".to_vec(), target: b"refs/t".to_vec() },
        Updated::Prune { name: ns(&r, "refs/heads/old") },
    ];
    let u = as_ref_updates(&db, &ups).unwrap();
    assert_eq!(u.refs.len(), 3);
    assert!(matches!(&u.refs[1], RefUpdate::Updated { new, old, .. } if new.bytes == oid(4).bytes && old.bytes == [0; 20]));
    assert!(matches!(&u.refs[2], RefUpdate::Deleted { .. }));
    assert_eq!(u.namespaces.len(), 1);
    assert_eq!(u.namespaces[0].bytes, r.bytes);
    let bad = vec![Updated::Symbolic { name: b"refs/s".to_vec(), target: b"refs/none".to_vec() }];
    assert_eq!(as_ref_updates(&db, &bad).err(), Some(b"refs/none".to_vec()));
}

#[test]
fn current_identity() {
    let local = key(1);
    let ids = Ids { good: vec![(oid(1), vec![local])] };
    let empty = Refdb::new(UserInfo { pk: local }, Odb::new(vec![], vec![]), vec![]);
    assert!(matches!(current(&local, &ids, &empty), Ok(None)));
    let entries = vec![Entry { name: Refname::rad_id(local), target: Some(Target::Direct(oid(1))) }];
    let db = Refdb::new(UserInfo { pk: local }, Odb::new(vec![], vec![]), entries);
    let ds = current(&local, &ids, &db).unwrap().unwrap();
    assert_eq!(ds[0].bytes, local.bytes);
    let entries = vec![Entry { name: Refname::rad_id(local), target: Some(Target::Direct(oid(9))) }];
    let db = Refdb::new(UserInfo { pk: local }, Odb::new(vec![], vec![]), entries);
    assert!(current(&local, &ids, &db).is_err());
}

#[test]
fn stages_verify_through_identities() {
    let (local, a, b) = (key(0), key(1), key(2));
    let ids = Ids { good: vec![(oid(1), vec![a])] };
    let refs = vec![
        ReceivedRef::new(oid(1), parse(&Refname::rad_id(a)).unwrap()),
        ReceivedRef::new(oid(3), parse(&Refname::rad_id(b)).unwrap()),
        ReceivedRef::new(oid(4), parse(&Refname::rad_sigrefs(b)).unwrap()),
    ];
    let f = radicle_fetch::stage::Fetch {
        local,
        remote: a,
        tracking: TrackedRemotes { scope: Scope::All, remotes: vec![] },
        delegates: vec![a],
        limit: 1,
    };
    let ups = f.prepare(&ids, &refs).unwrap();
    assert_eq!(ups.tips.len(), 1);
    assert_eq!(ups.tips[0].refname().clone(), Refname::rad_id(a));

    let c = radicle_fetch::stage::Clone { remote: a, limit: 1 };
    let mut st = FetchState::new();
    assert!(c.prepare(&st, &ids, &refs).is_err());
    st.record_tips(&refs);
    let ups = c.prepare(&st, &ids, &refs).unwrap();
    assert_eq!(ups.tips.len(), 3);
}

#[test]
fn prefixes_sorted_once() {
    let v = vec![b"refs/b".to_vec(), b"refs/a".to_vec(), b"refs/b".to_vec(), b"refs".to_vec()];
    assert_eq!(sort_prefixes(&v), vec![b"refs".to_vec(), b"refs/a".to_vec(), b"refs/b".to_vec()]);
    assert!(sort_prefixes(&vec![]).is_empty());
}

#[test]
fn applied_append() {
    let mut a = Applied::new();
    let mut b = Applied::new();
    b.updated.push(Updated::Prune { name: b"refs/x".to_vec() });
    a.append(&mut b);
    assert_eq!(a.updated.len(), 1);
    assert!(b.updated.is_empty());
}

#[test]
fn agent_and_repo_path() {
    assert_eq!(agent_name(b"2.40.1"), b"git/2.40.1".to_vec());
    assert_eq!(agent_name(b"git/2.40.1"), b"git/2.40.1".to_vec());
    assert_eq!(repo_path(b"rad:z3gq"), b"/rad:z3gq".to_vec());
}

#[test]
fn tainted_remote_gets_no_manifest() {
    let (local, a, b) = (key(0), key(1), key(2));
    let ids = Ids { good: vec![(oid(1), vec![a])] };
    let refs = vec![
        ReceivedRef::new(oid(1), parse(&Refname::rad_id(a)).unwrap()),
        ReceivedRef::new(oid(3), parse(&Refname::rad_id(b)).unwrap()),
    ];
    let followed = TrackedRemotes { scope: Scope::Trusted, remotes: vec![b] };
    let (x, f) = Exchange::start(local, a, &vec![a], followed, FetchLimit::default()).unwrap();
    let verified = f.verified_tips(&ids, &refs);
    assert_eq!(verified.len(), 1);
    let tainted = f.tainted(&refs, &verified);
    assert_eq!(tainted.iter().map(|k| k.bytes).collect::<Vec<_>>(), vec![b.bytes]);
    let loaded = vec![(b, Some(Sigrefs { refs: vec![] })), (a, Some(Sigrefs { refs: vec![] }))];
    let m = x.manifests(loaded, &tainted).unwrap();
    assert_eq!(m.remotes.iter().map(|p| p.0.bytes).collect::<Vec<_>>(), vec![a.bytes]);
}

#[test]
fn followed_twice_is_trusted_once() {
    let (local, a, c) = (key(0), key(1), key(3));
    let (_, tr) = radicle_fetch::protocol::trusted(&local, &vec![a], &vec![c, c]);
    let flags: Vec<([u8; 32], bool)> = tr.iter().map(|(k, d)| (k.bytes, *d)).collect();
    assert_eq!(flags, vec![(c.bytes, false), (a.bytes, true)]);
}
