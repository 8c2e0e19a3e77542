use radicle_fetch::oid::{Oid, PublicKey};
use radicle_fetch::protocol::{ensure_not_self, trusted, Error, FetchLimit, FETCH_REFS_LIMIT, FETCH_SPECIAL_LIMIT};
use radicle_fetch::refs::{parse, ReceivedRef, Refname};
use radicle_fetch::state::FetchState;
use radicle_fetch::update::{Policy, SymrefTarget, Update};

fn key(n: u8) -> PublicKey {
    PublicKey::new([n; 32])
}

fn oid(n: u8) -> Oid {
    Oid::new([n; 20])
}

#[test]
fn replicate_self_fails() {
    assert!(matches!(ensure_not_self(&key(1), &key(1)), Err(Error::ReplicateSelf)));
    assert!(ensure_not_self(&key(1), &key(2)).is_ok());
}

#[test]
fn default_limits() {
    let l = FetchLimit::default();
    assert_eq!(l.special, 5 * 1024 * 1024);
    assert_eq!(l.refs, 5 * 1024 * 1024 * 1024);
    assert_eq!(l.special, FETCH_SPECIAL_LIMIT);
    assert_eq!(l.refs, FETCH_REFS_LIMIT);
}

#[test]
fn delegates_and_trusted() {
    let (local, a, b, c) = (key(0), key(1), key(2), key(3));
    let (ds, tr) = trusted(&local, &vec![local, a, b], &vec![c, a]);
    assert_eq!(ds.iter().map(|k| k.bytes).collect::<Vec<_>>(), vec![a.bytes, b.bytes]);
    let flags: Vec<([u8; 32], bool)> = tr.iter().map(|(k, d)| (k.bytes, *d)).collect();
    assert_eq!(flags, vec![(c.bytes, false), (a.bytes, true), (b.bytes, true)]);
}

#[test]
fn identity_updates_are_taken_first() {
    let r = key(1);
    let mut st = FetchState::new();
    let main = format!(
        "refs/namespaces/{}/refs/heads/main",
        radicle_crypto::PublicKey::from(r.bytes).to_human()
    )
    .into_bytes();
    let ups = vec![
        Update::Direct { name: main.clone(), target: oid(3), no_ff: Policy::Allow },
        Update::Direct { name: Refname::rad_id(r), target: oid(1), no_ff: Policy::Abort },
        Update::Direct { name: Refname::rad_sigrefs(r), target: oid(2), no_ff: Policy::Abort },
        Update::Symbolic {
            name: b"refs/x".to_vec(),
            target: SymrefTarget { name: Refname::rad_id(r), target: oid(1) },
            type_change: Policy::Abort,
        },
    ];
    let ap = st.update_all(ups);
    assert_eq!(ap.updated.len(), 4);
    assert_eq!(st.refs.refname_to_id(&main).unwrap().bytes, oid(3).bytes);
    let ids = st.take_identity_updates();
    assert_eq!(ids.len(), 2);
    assert_eq!(ids[0].refname().clone(), Refname::rad_id(r));
    assert_eq!(ids[1].refname().clone(), b"refs/x".to_vec());
    let rest = st.drain_updates();
    assert_eq!(rest.len(), 2);
    assert_eq!(rest[0].refname().clone(), main);
    assert!(st.updates().is_empty());
}

#[test]
fn tips_are_recorded_and_cleared() {
    let r = key(1);
    let mut st = FetchState::new();
    let refs = vec![
        ReceivedRef::new(oid(1), parse(&Refname::rad_id(r)).unwrap()),
        ReceivedRef::new(oid(2), parse(&Refname::rad_sigrefs(r)).unwrap()),
    ];
    st.record_tips(&refs);
    assert_eq!(st.id_tip(&r).unwrap().bytes, oid(1).bytes);
    assert_eq!(st.sigrefs_tip(&r).unwrap().bytes, oid(2).bytes);
    assert_eq!(st.id_tips().len(), 1);
    st.clear_rad_refs();
    assert!(st.id_tip(&r).is_none());
    assert!(st.sigrefs_tip(&r).is_none());
}

#[test]
fn shadow_prunes_only_present() {
    let mut st = FetchState::new();
    let ups = vec![Update::Prune {
        name: b"refs/x".to_vec(),
        prev: radicle_fetch::update::Target::Direct(oid(1)),
    }];
    let ap = st.update_all(ups);
    assert!(ap.updated.is_empty());
}

#[test]
fn shadow_scan_and_reload() {
    let mut st = FetchState::new();
    st.update_all(vec![
        Update::Direct { name: b"refs/a/x".to_vec(), target: oid(1), no_ff: Policy::Allow },
        Update::Direct { name: b"refs/b/y".to_vec(), target: oid(2), no_ff: Policy::Allow },
        Update::Direct { name: b"refs/a/x".to_vec(), target: oid(3), no_ff: Policy::Allow },
    ]);
    let found = st.refs.scan(b"refs/a/");
    assert_eq!(found.len(), 1);
    assert_eq!(found[0].0, b"refs/a/x".to_vec());
    assert_eq!(found[0].1.bytes, oid(3).bytes);
    assert!(st.refs.reload().is_ok());
    assert_eq!(st.refs.scan(b"refs/").len(), 2);
}

#[test]
fn later_tips_override() {
    let r = key(1);
    let mut st = FetchState::new();
    let refs = vec![
        ReceivedRef::new(oid(1), parse(&Refname::rad_id(r)).unwrap()),
        ReceivedRef::new(oid(5), parse(&Refname::rad_id(r)).unwrap()),
    ];
    st.record_tips(&refs);
    assert_eq!(st.id_tips().len(), 2);
    assert_eq!(st.id_tip(&r).unwrap().bytes, oid(5).bytes);
}
