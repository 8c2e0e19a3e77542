use radicle_fetch::oid::{Oid, PublicKey};
use radicle_fetch::refs::{parse, Error, ReceivedRef, Refname, Special, Suffix};
use radicle_fetch::update::{Policy, Update};

fn key(n: u8) -> PublicKey {
    PublicKey::new([n; 32])
}

fn human(k: &PublicKey) -> String {
    radicle_crypto::PublicKey::from(k.bytes).to_human()
}

#[test]
fn rad_id_parses_back() {
    let k = key(7);
    let name = Refname::rad_id(k);
    let expected = format!("refs/namespaces/{}/refs/rad/id", human(&k));
    assert_eq!(name, expected.as_bytes().to_vec());
    let parsed = parse(&name).unwrap();
    assert_eq!(parsed.remote.bytes, k.bytes);
    assert!(matches!(parsed.suffix, Suffix::Special(Special::Id)));
}

#[test]
fn rad_sigrefs_parses_back() {
    let k = key(9);
    let name = Refname::rad_sigrefs(k);
    let parsed = parse(&name).unwrap();
    assert_eq!(parsed.remote.bytes, k.bytes);
    assert!(matches!(parsed.suffix, Suffix::Special(Special::SignedRefs)));
}

#[test]
fn ordinary_name_round_trips() {
    let k = key(3);
    let s = format!("refs/namespaces/{}/refs/heads/main", human(&k));
    let parsed = parse(s.as_bytes()).unwrap();
    match &parsed.suffix {
        Suffix::Qualified(q) => assert_eq!(q.as_slice(), b"refs/heads/main"),
        _ => panic!("expected a qualified suffix"),
    }
    assert_eq!(parsed.namespaced(), s.as_bytes().to_vec());
    assert_eq!(parsed.to_qualified(), b"refs/heads/main".to_vec());
    assert!(!parsed.is_special());
}

#[test]
fn cob_name_round_trips() {
    let k = key(4);
    let s = format!("refs/namespaces/{}/refs/cobs/xyz.issue/abc", human(&k));
    let parsed = parse(s.as_bytes()).unwrap();
    assert_eq!(parsed.namespaced(), s.as_bytes().to_vec());
}

#[test]
fn malformed_rad_suffix() {
    let k = key(5);
    let s = format!("refs/namespaces/{}/refs/rad/foo", human(&k));
    assert_eq!(parse(s.as_bytes()).err(), Some(Error::MalformedSuffix));
    let s = format!("refs/namespaces/{}/refs/rad/id/more", human(&k));
    assert_eq!(parse(s.as_bytes()).err(), Some(Error::MalformedSuffix));
}

#[test]
fn not_qualified() {
    assert_eq!(parse(b"refs/heads").err(), Some(Error::NotQualified));
    assert_eq!(parse(b"HEAD").err(), Some(Error::NotQualified));
}

#[test]
fn not_namespaced() {
    assert_eq!(parse(b"refs/heads/main").err(), Some(Error::NotNamespaced));
    let k = key(6);
    let s = format!("refs/namespaces/{}/HEAD", human(&k));
    assert_eq!(parse(s.as_bytes()).err(), Some(Error::NotNamespaced));
    let s = format!("refs/namespaces/{}/refs/heads", human(&k));
    assert_eq!(parse(s.as_bytes()).err(), Some(Error::NotNamespaced));
}

#[test]
fn bad_key() {
    assert_eq!(
        parse(b"refs/namespaces/notakey/refs/heads/main").err(),
        Some(Error::PublicKey)
    );
}

#[test]
fn bad_ref_format() {
    assert_eq!(parse(b"refs/heads/ma..in").err(), Some(Error::Check));
    assert_eq!(parse(b"refs//heads").err(), Some(Error::Check));
    assert_eq!(parse(&[0xff, 0xfe]).err(), Some(Error::Check));
}

#[test]
fn verification_update_of_special_ref() {
    let k = key(8);
    let tip = Oid::new([1; 20]);
    let r = ReceivedRef::new(tip, parse(&Refname::rad_id(k)).unwrap());
    match r.as_verification_ref_update() {
        Some(Update::Direct { name, target, no_ff }) => {
            assert_eq!(name, Refname::rad_id(k));
            assert_eq!(target.bytes, tip.bytes);
            assert_eq!(no_ff, Policy::Abort);
        }
        _ => panic!("expected a direct update"),
    }
    let q = Refname::remote(k, b"refs/heads/main".to_vec());
    let r = ReceivedRef::new(tip, q);
    assert!(r.as_verification_ref_update().is_none());
    assert_eq!(r.remote().bytes, k.bytes);
}
