use radicle_fetch::odb::Odb;
use radicle_fetch::oid::{Oid, PublicKey};
use radicle_fetch::refdb::{Entry, Refdb, UpdateError, UserInfo};
use radicle_fetch::update::{Policy, SymrefTarget, Target, Update, Updated};

fn oid(n: u8) -> Oid {
    Oid::new([n; 20])
}

fn name(s: &str) -> Vec<u8> {
    s.as_bytes().to_vec()
}

fn db(entries: Vec<(&str, Target)>, objects: Vec<Oid>, ancestry: Vec<(Oid, Oid)>) -> Refdb {
    let entries = entries
        .into_iter()
        .map(|(n, t)| Entry { name: name(n), target: Some(t) })
        .collect();
    Refdb::new(UserInfo { pk: PublicKey::new([0; 32]) }, Odb::new(objects, ancestry), entries)
}

fn direct(n: &str, t: Oid, p: Policy) -> Update {
    Update::Direct { name: name(n), target: t, no_ff: p }
}

#[test]
fn fast_forward_applies() {
    let (a, b) = (oid(1), oid(2));
    let mut r = db(vec![("refs/x", Target::Direct(a))], vec![a, b], vec![(b, a)]);
    let ap = r.update(vec![direct("refs/x", b, Policy::Abort)]).unwrap();
    assert_eq!(ap.updated.len(), 1);
    assert!(ap.rejected.is_empty());
    assert_eq!(r.refname_to_id(b"refs/x").unwrap().bytes, b.bytes);
}

#[test]
fn same_target_is_fast_forward() {
    let a = oid(1);
    let mut r = db(vec![("refs/x", Target::Direct(a))], vec![], vec![]);
    assert!(r.update(vec![direct("refs/x", a, Policy::Abort)]).is_ok());
}

#[test]
fn non_fast_forward_aborts() {
    let (a, b) = (oid(1), oid(2));
    let mut r = db(vec![("refs/x", Target::Direct(a))], vec![a, b], vec![]);
    match r.update(vec![direct("refs/x", b, Policy::Abort)]) {
        Err(UpdateError::NonFastForward { name: n, new, cur }) => {
            assert_eq!(n, name("refs/x"));
            assert_eq!(new.bytes, b.bytes);
            assert_eq!(cur.bytes, a.bytes);
        }
        _ => panic!("expected a non-fast-forward error"),
    }
    assert_eq!(r.refname_to_id(b"refs/x").unwrap().bytes, a.bytes);
}

#[test]
fn missing_object_is_no_fast_forward() {
    let (a, b) = (oid(1), oid(2));
    let mut r = db(vec![("refs/x", Target::Direct(a))], vec![b], vec![(b, a)]);
    assert!(r.update(vec![direct("refs/x", b, Policy::Abort)]).is_err());
}

#[test]
fn reject_keeps_the_rest() {
    let (a, b, c) = (oid(1), oid(2), oid(3));
    let mut r = db(vec![("refs/x", Target::Direct(a))], vec![a, b, c], vec![]);
    let ap = r
        .update(vec![direct("refs/x", b, Policy::Reject), direct("refs/y", c, Policy::Abort)])
        .unwrap();
    assert_eq!(ap.rejected.len(), 1);
    assert_eq!(ap.updated.len(), 1);
    assert_eq!(r.refname_to_id(b"refs/x").unwrap().bytes, a.bytes);
    assert_eq!(r.refname_to_id(b"refs/y").unwrap().bytes, c.bytes);
}

#[test]
fn allow_forces() {
    let (a, b) = (oid(1), oid(2));
    let mut r = db(vec![("refs/x", Target::Direct(a))], vec![a, b], vec![]);
    let ap = r.update(vec![direct("refs/x", b, Policy::Allow)]).unwrap();
    assert!(ap.rejected.is_empty());
    assert_eq!(r.refname_to_id(b"refs/x").unwrap().bytes, b.bytes);
}

#[test]
fn atomic_batch() {
    let (a, b, c) = (oid(1), oid(2), oid(3));
    let mut r = db(vec![("refs/x", Target::Direct(a))], vec![a, b, c], vec![]);
    let res = r.update(vec![direct("refs/y", c, Policy::Abort), direct("refs/x", b, Policy::Abort)]);
    assert!(res.is_err());
    assert!(r.refname_to_id(b"refs/y").is_none());
    assert_eq!(r.refname_to_id(b"refs/x").unwrap().bytes, a.bytes);
}

#[test]
fn type_change_aborts() {
    let (a, b) = (oid(1), oid(2));
    let mut r = db(vec![("refs/n", Target::Direct(a))], vec![], vec![]);
    let up = Update::Symbolic {
        name: name("refs/n"),
        target: SymrefTarget { name: name("refs/t"), target: b },
        type_change: Policy::Abort,
    };
    match r.update(vec![up, direct("refs/z", b, Policy::Abort)]) {
        Err(UpdateError::TypeChange { name: n }) => assert_eq!(n, name("refs/n")),
        _ => panic!("expected a type-change error"),
    }
    assert!(r.refname_to_id(b"refs/z").is_none());
}

#[test]
fn type_change_rejected() {
    let (a, b) = (oid(1), oid(2));
    let mut r = db(vec![("refs/n", Target::Direct(a))], vec![], vec![]);
    let up = Update::Symbolic {
        name: name("refs/n"),
        target: SymrefTarget { name: name("refs/t"), target: b },
        type_change: Policy::Reject,
    };
    let ap = r.update(vec![up]).unwrap();
    assert_eq!(ap.rejected.len(), 1);
    assert!(ap.updated.is_empty());
}

#[test]
fn symbolic_creates_target() {
    let b = oid(2);
    let mut r = db(vec![], vec![], vec![]);
    let up = Update::Symbolic {
        name: name("refs/s"),
        target: SymrefTarget { name: name("refs/t"), target: b },
        type_change: Policy::Abort,
    };
    let ap = r.update(vec![up]).unwrap();
    assert_eq!(ap.updated.len(), 2);
    assert!(matches!(&ap.updated[0], Updated::Direct { .. }));
    assert!(matches!(&ap.updated[1], Updated::Symbolic { .. }));
    assert_eq!(r.refname_to_id(b"refs/s").unwrap().bytes, b.bytes);
}

#[test]
fn symbolic_target_must_be_direct() {
    let b = oid(2);
    let mut r = db(vec![("refs/t", Target::Symbolic(name("refs/u")))], vec![], vec![]);
    let up = Update::Symbolic {
        name: name("refs/s"),
        target: SymrefTarget { name: name("refs/t"), target: b },
        type_change: Policy::Abort,
    };
    match r.update(vec![up]) {
        Err(UpdateError::TargetSymbolic { name: n }) => assert_eq!(n, name("refs/u")),
        _ => panic!("expected a target-symbolic error"),
    }
}

#[test]
fn prune_removes() {
    let a = oid(1);
    let mut r = db(vec![("refs/x", Target::Direct(a))], vec![], vec![]);
    let ap = r
        .update(vec![Update::Prune { name: name("refs/x"), prev: Target::Direct(a) }])
        .unwrap();
    assert!(matches!(&ap.updated[0], Updated::Prune { .. }));
    assert!(r.refname_to_id(b"refs/x").is_none());
}

#[test]
fn prune_of_changed_ref_fails() {
    let (a, b) = (oid(1), oid(2));
    let mut r = db(vec![("refs/x", Target::Direct(a))], vec![], vec![]);
    match r.update(vec![Update::Prune { name: name("refs/x"), prev: Target::Direct(b) }]) {
        Err(UpdateError::Mismatch { name: n }) => assert_eq!(n, name("refs/x")),
        _ => panic!("expected a mismatch"),
    }
    assert_eq!(r.refname_to_id(b"refs/x").unwrap().bytes, a.bytes);
}

#[test]
fn dangling_symbolic_ref() {
    let mut r = db(vec![("refs/s", Target::Symbolic(name("refs/gone")))], vec![], vec![]);
    match r.update(vec![direct("refs/s", oid(1), Policy::Allow)]) {
        Err(UpdateError::Dangling { name: n }) => assert_eq!(n, name("refs/s")),
        _ => panic!("expected a dangling error"),
    }
}

#[test]
fn scan_by_prefix() {
    let (a, b) = (oid(1), oid(2));
    let r = db(
        vec![
            ("refs/a/x", Target::Direct(a)),
            ("refs/b/y", Target::Direct(b)),
            ("refs/a/x", Target::Direct(b)),
        ],
        vec![],
        vec![],
    );
    let found = r.scan(b"refs/a/");
    assert_eq!(found.len(), 1);
    assert_eq!(found[0].name, name("refs/a/x"));
    assert_eq!(found[0].peeled.unwrap().bytes, b.bytes);
}

#[test]
fn ancestry_path() {
    let (a, b, c) = (oid(1), oid(2), oid(3));
    let o = Odb::new(vec![a, b], vec![(b, a)]);
    assert!(o.is_in_ancestry_path(b, a));
    assert!(!o.is_in_ancestry_path(a, b));
    assert!(o.is_in_ancestry_path(c, c));
    assert!(!o.is_in_ancestry_path(c, a));
    assert!(o.contains(&a));
    assert!(!o.contains(&c));
}

#[test]
fn rad_refs_force_reflog() {
    let k = radicle_crypto::PublicKey::from([2u8; 32]).to_human();
    let id = format!("refs/namespaces/{k}/refs/rad/id");
    let heads = format!("refs/namespaces/{k}/refs/heads/main");
    assert!(radicle_fetch::refdb::force_reflog_exec(id.as_bytes()));
    assert!(!radicle_fetch::refdb::force_reflog_exec(heads.as_bytes()));
    assert!(!radicle_fetch::refdb::force_reflog_exec(b"refs/rad/id"));
}
