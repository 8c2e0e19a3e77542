use radicle_fetch::odb::Odb;
use radicle_fetch::oid::{Oid, PublicKey};
use radicle_fetch::protocol::{validate, Validation};
use radicle_fetch::refdb::{Entry, Refdb, UserInfo};
use radicle_fetch::refs::{parse, ReceivedRef, Refname};
use radicle_fetch::stage::{
    ensure_refs, special_refs, verification_refs, wants_haves, AdvertisedRef, Fetch, Layout,
    PrepareError, RemoteRefs, Refs, Scope, Sigrefs, TrackedRemotes,
};
use radicle_fetch::transport::{check_pack, PackError, WantsHavesBuilder};
use radicle_fetch::update::{Policy, Target, Update};

fn key(n: u8) -> PublicKey {
    PublicKey::new([n; 32])
}

fn oid(n: u8) -> Oid {
    Oid::new([n; 20])
}

fn human(k: &PublicKey) -> String {
    radicle_crypto::PublicKey::from(k.bytes).to_human()
}

fn ns(k: &PublicKey, suffix: &str) -> Vec<u8> {
    format!("refs/namespaces/{}/{}", human(k), suffix).into_bytes()
}

fn received(k: &PublicKey, suffix: &str, tip: Oid) -> ReceivedRef {
    ReceivedRef::new(tip, parse(&ns(k, suffix)).unwrap())
}

fn empty_db() -> Refdb {
    Refdb::new(UserInfo { pk: key(0) }, Odb::new(vec![], vec![]), vec![])
}

fn names(tips: &[Update]) -> Vec<Vec<u8>> {
    tips.iter().map(|u| u.refname().clone()).collect()
}

#[test]
fn clone_asks_for_special_refs() {
    let r = key(1);
    let c = radicle_fetch::stage::Clone { remote: r, limit: 10 };
    let ls = c.ls_refs().unwrap();
    assert_eq!(ls, vec![Refname::rad_id(r), Refname::rad_sigrefs(r)]);
    assert_eq!(ls, special_refs(r));
}

#[test]
fn clone_pre_validate() {
    let r = key(1);
    let c = radicle_fetch::stage::Clone { remote: r, limit: 10 };
    assert!(c.pre_validate(&vec![]).is_ok());
    let only_id = vec![received(&r, "refs/rad/id", oid(1))];
    match c.pre_validate(&only_id) {
        Err(Layout::MissingRequiredRefs(m)) => assert_eq!(m, vec![Refname::rad_sigrefs(r)]),
        _ => panic!("expected missing refs"),
    }
    let both = vec![received(&r, "refs/rad/id", oid(1)), received(&r, "refs/rad/sigrefs", oid(2))];
    assert!(c.pre_validate(&both).is_ok());
}

#[test]
fn clone_filters_specials() {
    let r = key(1);
    let c = radicle_fetch::stage::Clone { remote: r, limit: 10 };
    let adv = AdvertisedRef::Direct { name: ns(&r, "refs/rad/id"), object: oid(1) };
    assert!(c.ref_filter(adv).is_some());
    let adv = AdvertisedRef::Direct { name: ns(&r, "refs/heads/main"), object: oid(1) };
    assert!(c.ref_filter(adv).is_none());
    let adv = AdvertisedRef::Unborn { name: ns(&r, "refs/rad/id") };
    assert!(c.ref_filter(adv).is_none());
}

#[test]
fn clone_gate_on_failed_verification() {
    let r = key(1);
    let c = radicle_fetch::stage::Clone { remote: r, limit: 10 };
    let refs = vec![received(&r, "refs/rad/id", oid(1)), received(&r, "refs/rad/sigrefs", oid(2))];
    match c.prepare_with(Err(()), &refs) {
        Err(PrepareError::Verification { remote }) => assert_eq!(remote.bytes, r.bytes),
        _ => panic!("expected a verification error"),
    }
}

#[test]
fn clone_of_non_delegate_stages_nothing() {
    let r = key(1);
    let c = radicle_fetch::stage::Clone { remote: r, limit: 10 };
    let refs = vec![received(&r, "refs/rad/id", oid(1))];
    let ups = c.prepare_with(Ok(vec![key(2)]), &refs).unwrap();
    assert!(ups.tips.is_empty());
    let ups = c.prepare_with(Ok(vec![key(2), r]), &refs).unwrap();
    assert_eq!(names(&ups.tips), vec![Refname::rad_id(r)]);
}

#[test]
fn fetch_ls_refs_by_scope() {
    let (a, b) = (key(1), key(2));
    let all = Fetch {
        local: key(0),
        remote: a,
        tracking: TrackedRemotes { scope: Scope::All, remotes: vec![] },
        delegates: vec![a],
        limit: 1,
    };
    assert_eq!(all.ls_refs().unwrap(), vec![b"refs/namespaces/*".to_vec()]);
    let some = Fetch {
        local: key(0),
        remote: a,
        tracking: TrackedRemotes { scope: Scope::Trusted, remotes: vec![a, b] },
        delegates: vec![a],
        limit: 1,
    };
    let ls = some.ls_refs().unwrap();
    assert_eq!(ls.len(), 6);
    assert_eq!(ls[2], Refname::rad_id(b));
    assert_eq!(ls[4], Refname::rad_id(a));
    let delegates_only = Fetch {
        local: key(0),
        remote: a,
        tracking: TrackedRemotes { scope: Scope::Trusted, remotes: vec![] },
        delegates: vec![key(0), a],
        limit: 1,
    };
    assert_eq!(delegates_only.ls_refs().unwrap(), special_refs(a));
    let none = Fetch {
        local: key(0),
        remote: a,
        tracking: TrackedRemotes { scope: Scope::Trusted, remotes: vec![] },
        delegates: vec![key(0)],
        limit: 1,
    };
    assert!(none.ls_refs().is_none());
}

#[test]
fn fetch_pre_validate_skips_local_delegate() {
    let (local, a) = (key(0), key(1));
    let f = Fetch {
        local,
        remote: a,
        tracking: TrackedRemotes { scope: Scope::All, remotes: vec![] },
        delegates: vec![local, a],
        limit: 1,
    };
    let refs = vec![received(&a, "refs/rad/id", oid(1)), received(&a, "refs/rad/sigrefs", oid(2))];
    assert!(f.pre_validate(&refs).is_ok());
    let refs = vec![received(&a, "refs/rad/id", oid(1))];
    assert!(f.pre_validate(&refs).is_err());
}

#[test]
fn non_delegate_taint() {
    let (local, a, b) = (key(0), key(1), key(2));
    let refs = vec![
        received(&a, "refs/rad/id", oid(1)),
        received(&a, "refs/rad/sigrefs", oid(2)),
        received(&b, "refs/rad/sigrefs", oid(4)),
        received(&b, "refs/rad/id", oid(3)),
        received(&b, "refs/heads/main", oid(5)),
    ];
    let ups = verification_refs(&local, &refs, &vec![a], &vec![oid(1)]).unwrap();
    assert_eq!(names(&ups.tips), vec![Refname::rad_id(a), Refname::rad_sigrefs(a)]);
}

#[test]
fn delegate_failure_is_fatal() {
    let (local, a) = (key(0), key(1));
    let refs = vec![received(&a, "refs/rad/id", oid(1))];
    match verification_refs(&local, &refs, &vec![a], &vec![]) {
        Err(PrepareError::Verification { remote }) => assert_eq!(remote.bytes, a.bytes),
        _ => panic!("expected a verification error"),
    }
}

#[test]
fn local_refs_are_skipped() {
    let local = key(0);
    let refs = vec![received(&local, "refs/rad/id", oid(1))];
    let ups = verification_refs(&local, &refs, &vec![], &vec![]).unwrap();
    assert!(ups.tips.is_empty());
}

#[test]
fn ensure_refs_lists_missing() {
    let req = vec![b"a".to_vec(), b"b".to_vec(), b"c".to_vec()];
    assert!(ensure_refs(&req, &vec![]).is_ok());
    match ensure_refs(&req, &vec![b"b".to_vec()]) {
        Err(Layout::MissingRequiredRefs(m)) => assert_eq!(m, vec![b"a".to_vec(), b"c".to_vec()]),
        _ => panic!("expected missing refs"),
    }
    let unordered = vec![b"c".to_vec(), b"a".to_vec(), b"c".to_vec()];
    match ensure_refs(&unordered, &vec![b"b".to_vec()]) {
        Err(Layout::MissingRequiredRefs(m)) => assert_eq!(m, vec![b"a".to_vec(), b"c".to_vec()]),
        _ => panic!("expected missing refs"),
    }
    assert!(ensure_refs(&req, &req).is_ok());
}

fn manifest(r: PublicKey, refs: Vec<(&str, Oid)>) -> RemoteRefs {
    RemoteRefs {
        remotes: vec![(
            r,
            Sigrefs { refs: refs.into_iter().map(|(n, o)| (n.as_bytes().to_vec(), o)).collect() },
        )],
    }
}

#[test]
fn refs_stage_prunes_unsigned() {
    let r = key(1);
    let entries = vec![
        Entry { name: ns(&r, "refs/heads/old"), target: Some(Target::Direct(oid(7))) },
        Entry { name: ns(&r, "refs/heads/main"), target: Some(Target::Direct(oid(8))) },
        Entry { name: ns(&r, "refs/rad/id"), target: Some(Target::Direct(oid(1))) },
        Entry { name: ns(&r, "refs/rad/sigrefs"), target: Some(Target::Direct(oid(2))) },
    ];
    let db = Refdb::new(UserInfo { pk: key(0) }, Odb::new(vec![], vec![]), entries);
    let stage = Refs { local: key(0), remote: r, trusted: manifest(r, vec![("refs/heads/main", oid(9))]), limit: 1 };
    let ups = stage.prepare(&db).unwrap();
    assert_eq!(ups.tips.len(), 2);
    match &ups.tips[0] {
        Update::Direct { name, target, no_ff } => {
            assert_eq!(*name, ns(&r, "refs/heads/main"));
            assert_eq!(target.bytes, oid(9).bytes);
            assert_eq!(*no_ff, Policy::Allow);
        }
        _ => panic!("expected a direct update"),
    }
    match &ups.tips[1] {
        Update::Prune { name, .. } => assert_eq!(*name, ns(&r, "refs/heads/old")),
        _ => panic!("expected a prune"),
    }
}

#[test]
fn refs_stage_rejects_unqualified_names() {
    let r = key(1);
    let stage = Refs { local: key(0), remote: r, trusted: manifest(r, vec![("main", oid(9))]), limit: 1 };
    match stage.prepare(&empty_db()) {
        Err(PrepareError::NotQualified { name }) => assert_eq!(name, b"main".to_vec()),
        _ => panic!("expected an unqualified name"),
    }
    assert!(stage.wants_haves(&empty_db(), &vec![]).is_err());
}

#[test]
fn refs_stage_forces_non_fast_forward() {
    let r = key(1);
    let (m1, m2) = (oid(1), oid(2));
    let entries = vec![Entry { name: ns(&r, "refs/heads/main"), target: Some(Target::Direct(m1)) }];
    let mut db = Refdb::new(UserInfo { pk: key(0) }, Odb::new(vec![m1, m2], vec![]), entries);
    let stage = Refs { local: key(0), remote: r, trusted: manifest(r, vec![("refs/heads/main", m2)]), limit: 1 };
    let ups = stage.prepare(&db).unwrap();
    db.update(ups.tips).unwrap();
    assert_eq!(db.refname_to_id(&ns(&r, "refs/heads/main")).unwrap().bytes, m2.bytes);
}

#[test]
fn refs_stage_ls_and_filter() {
    let r = key(1);
    let stage = Refs { local: key(0), remote: r, trusted: manifest(r, vec![]), limit: 1 };
    assert_eq!(stage.ls_refs().unwrap(), special_refs(r));
    let adv = AdvertisedRef::Peeled { name: ns(&r, "refs/rad/sigrefs"), tag: oid(3), object: oid(4) };
    let got = stage.ref_filter(adv).unwrap();
    assert_eq!(got.tip.bytes, oid(4).bytes);
    let other = key(2);
    let adv = AdvertisedRef::Direct { name: ns(&other, "refs/rad/id"), object: oid(4) };
    assert!(stage.ref_filter(adv).is_none());
    let empty = Refs { local: key(0), remote: r, trusted: RemoteRefs { remotes: vec![] }, limit: 1 };
    assert!(empty.ls_refs().is_none());
}

#[test]
fn wants_and_haves() {
    let r = key(1);
    let (a, b, c) = (oid(1), oid(2), oid(3));
    let entries = vec![Entry { name: ns(&r, "refs/rad/id"), target: Some(Target::Direct(a)) }];
    let db = Refdb::new(UserInfo { pk: key(0) }, Odb::new(vec![a], vec![]), entries);
    let refs = vec![received(&r, "refs/rad/id", b), received(&r, "refs/rad/sigrefs", c)];
    let wh = wants_haves(&db, &refs).unwrap();
    assert_eq!(wh.wants.len(), 2);
    assert_eq!(wh.haves.len(), 1);
    assert_eq!(wh.haves[0].bytes, a.bytes);
    let up_to_date = vec![received(&r, "refs/rad/id", a)];
    assert!(wants_haves(&db, &up_to_date).is_none());
}

#[test]
fn held_tip_gives_no_have() {
    let r = key(1);
    let (a, b) = (oid(1), oid(2));
    let entries = vec![Entry { name: ns(&r, "refs/rad/id"), target: Some(Target::Direct(a)) }];
    let db = Refdb::new(UserInfo { pk: key(0) }, Odb::new(vec![a, b], vec![]), entries);
    let mut builder = WantsHavesBuilder::new();
    builder.add(&db, &vec![received(&r, "refs/rad/id", b), received(&r, "refs/rad/sigrefs", oid(3))]);
    assert!(builder.haves.is_empty());
    assert_eq!(builder.wants.len(), 1);
    let mut builder = WantsHavesBuilder::new();
    builder.add(&db, &vec![received(&r, "refs/rad/id", a)]);
    assert!(builder.haves.is_empty());
    assert!(builder.wants.is_empty());
}

#[test]
fn signed_names_always_have() {
    let r = key(1);
    let a = oid(1);
    let entries = vec![Entry { name: ns(&r, "refs/heads/main"), target: Some(Target::Direct(a)) }];
    let db = Refdb::new(UserInfo { pk: key(0) }, Odb::new(vec![a], vec![]), entries);
    let stage = Refs { local: key(0), remote: r, trusted: manifest(r, vec![("refs/heads/main", a)]), limit: 1 };
    assert!(stage.wants_haves(&db, &vec![]).unwrap().is_none());
}

#[test]
fn build_sorts_and_dedups() {
    let mut b = WantsHavesBuilder::new();
    b.want(oid(3));
    b.want(oid(1));
    b.want(oid(3));
    b.want(oid(2));
    b.have(oid(2));
    b.have(oid(0));
    let w = b.build().unwrap();
    assert_eq!(w.wants.iter().map(|o| o.bytes[0]).collect::<Vec<_>>(), vec![1, 3]);
    assert_eq!(w.haves.iter().map(|o| o.bytes[0]).collect::<Vec<_>>(), vec![0, 2]);
}

#[test]
fn haves_are_not_wanted() {
    let mut b = WantsHavesBuilder::new();
    b.want(oid(1));
    b.want(oid(1));
    b.have(oid(1));
    assert!(b.build().is_none());
    let mut b = WantsHavesBuilder::new();
    b.want(oid(1));
    b.want(oid(2));
    b.have(oid(1));
    let w = b.build().unwrap();
    assert_eq!(w.wants.len(), 1);
    assert_eq!(w.wants[0].bytes, oid(2).bytes);
}

#[test]
fn missing_want_fails() {
    let wants = vec![oid(1), oid(2)];
    match check_pack(&wants, Some(&vec![oid(1)])) {
        Err(PackError::NotFound(o)) => assert_eq!(o.bytes, oid(2).bytes),
        _ => panic!("expected a missing want"),
    }
    assert!(check_pack(&wants, Some(&vec![oid(2), oid(1)])).is_ok());
    assert!(matches!(check_pack(&wants, None), Err(PackError::NoPack)));
}

#[test]
fn clone_happy_path() {
    let r = key(1);
    let (x, y, m) = (oid(1), oid(2), oid(3));
    let mut db = Refdb::new(UserInfo { pk: key(0) }, Odb::new(vec![x, y, m], vec![]), vec![]);
    let c = radicle_fetch::stage::Clone { remote: r, limit: 10 };
    let advertised = vec![
        AdvertisedRef::Direct { name: Refname::rad_id(r), object: x },
        AdvertisedRef::Direct { name: Refname::rad_sigrefs(r), object: y },
    ];
    let refs: Vec<ReceivedRef> = advertised.into_iter().filter_map(|a| c.ref_filter(a)).collect();
    assert!(c.pre_validate(&refs).is_ok());
    let special = c.prepare_with(Ok(vec![r]), &refs).unwrap();
    db.update(special.tips).unwrap();
    let stage = Refs { local: key(0), remote: r, trusted: manifest(r, vec![("refs/heads/main", m)]), limit: 1 };
    let data = stage.prepare(&db).unwrap();
    db.update(data.tips).unwrap();
    assert_eq!(db.refname_to_id(&Refname::rad_id(r)).unwrap().bytes, x.bytes);
    assert_eq!(db.refname_to_id(&Refname::rad_sigrefs(r)).unwrap().bytes, y.bytes);
    assert_eq!(db.refname_to_id(&ns(&r, "refs/heads/main")).unwrap().bytes, m.bytes);
    let sig = Sigrefs { refs: vec![(b"refs/heads/main".to_vec(), m)] };
    assert!(validate(&db, &r, &sig).is_empty());
}

#[test]
fn validation_reports_discrepancies() {
    let r = key(1);
    let entries = vec![Entry { name: ns(&r, "refs/heads/main"), target: Some(Target::Direct(oid(1))) }];
    let db = Refdb::new(UserInfo { pk: key(0) }, Odb::new(vec![], vec![]), entries);
    let sig = Sigrefs {
        refs: vec![(b"refs/heads/main".to_vec(), oid(2)), (b"refs/heads/dev".to_vec(), oid(3))],
    };
    let ws = validate(&db, &r, &sig);
    assert_eq!(ws.len(), 2);
    assert!(matches!(&ws[0], Validation::Mismatch { .. }));
    assert!(matches!(&ws[1], Validation::MissingRef { .. }));
}

#[test]
fn prune_scenario_applies() {
    let r = key(1);
    let entries = vec![
        Entry { name: ns(&r, "refs/heads/old"), target: Some(Target::Direct(oid(7))) },
        Entry { name: ns(&r, "refs/rad/id"), target: Some(Target::Direct(oid(1))) },
        Entry { name: ns(&r, "refs/rad/sigrefs"), target: Some(Target::Direct(oid(2))) },
    ];
    let mut db = Refdb::new(UserInfo { pk: key(0) }, Odb::new(vec![], vec![]), entries);
    let stage = Refs { local: key(0), remote: r, trusted: manifest(r, vec![]), limit: 1 };
    let ups = stage.prepare(&db).unwrap();
    let ap = db.update(ups.tips).unwrap();
    assert_eq!(ap.updated.len(), 1);
    match &ap.updated[0] {
        radicle_fetch::update::Updated::Prune { name } => assert_eq!(*name, ns(&r, "refs/heads/old")),
        _ => panic!("expected a prune"),
    }
    assert!(db.refname_to_id(&ns(&r, "refs/heads/old")).is_none());
    assert_eq!(db.refname_to_id(&ns(&r, "refs/rad/id")).unwrap().bytes, oid(1).bytes);
    assert_eq!(db.refname_to_id(&ns(&r, "refs/rad/sigrefs")).unwrap().bytes, oid(2).bytes);
}

#[test]
fn other_namespaces_are_not_pruned() {
    let (r, other) = (key(1), key(2));
    let entries = vec![Entry { name: ns(&other, "refs/heads/x"), target: Some(Target::Direct(oid(7))) }];
    let db = Refdb::new(UserInfo { pk: key(0) }, Odb::new(vec![], vec![]), entries);
    let stage = Refs { local: key(0), remote: r, trusted: manifest(r, vec![]), limit: 1 };
    assert!(stage.prepare(&db).unwrap().tips.is_empty());
}

#[test]
fn refdb_reload_replaces_snapshot() {
    let mut db = empty_db();
    db.reload(vec![Entry { name: b"refs/x".to_vec(), target: Some(Target::Direct(oid(1))) }]);
    assert_eq!(db.refname_to_id(b"refs/x").unwrap().bytes, oid(1).bytes);
    assert!(db.contains(&oid(1)) == false);
}
