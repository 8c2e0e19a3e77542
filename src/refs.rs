//! Namespaced reference names: `refs/namespaces/<key>/refs/...`.
use vstd::prelude::*;

use crate::bytes::{
    bytes_eq, extend, find_byte, find_from, has_prefix, lemma_find_from_bounds,
    lemma_find_from_exact, slice_to_vec, starts_with,
};
use crate::oid::{Oid, PublicKey};
use crate::update::{Policy, Update, UpdateView};

verus! {

/// The human-readable form of a public key, as radicle-crypto renders it.
pub uninterp spec fn key_human(k: Seq<u8>) -> Seq<u8>;

/// The key that radicle-crypto reads from a human-readable form, if any.
pub uninterp spec fn key_decode(s: Seq<u8>) -> Option<PublicKey>;

/// Whether a byte string is a valid reference name, as git-ref-format checks it.
pub uninterp spec fn ref_format_ok(s: Seq<u8>) -> bool;

/// Relies on radicle_crypto::PublicKey::to_human: the multibase (base58-btc)
/// form of the multicodec-prefixed key. Its alphabet holds no `/`, and
/// `PublicKey::from_str` reads the key back from it.
#[verifier::external_body]
pub(crate) fn key_to_human(k: &PublicKey) -> (r: Vec<u8>)
    ensures
        r@ == key_human(k.bytes@),
        key_decode(r@) == Some(*k),
        r@.len() > 0,
        forall|i: int| 0 <= i < r@.len() ==> r@[i] != SLASH,
{
    radicle_crypto::PublicKey::from(k.bytes).to_human().into_bytes()
}

/// Relies on radicle_crypto::PublicKey::from_str: reads a key from its
/// multibase form. Bytes that are not UTF-8 are no key.
#[verifier::external_body]
pub(crate) fn key_from_human(s: &[u8]) -> (r: Option<PublicKey>)
    ensures
        match r {
            Some(k) => key_decode(s@) == Some(k),
            None => key_decode(s@) is None,
        },
{
    let text = std::str::from_utf8(s).ok()?;
    let key = text.parse::<radicle_crypto::PublicKey>().ok()?;
    Some(PublicKey { bytes: key.into_inner() })
}

/// Relies on git_ref_format::check_ref_format (one-level names allowed, no
/// patterns), which `RefString::try_from` applies. Bytes that are not UTF-8
/// are no reference name.
#[verifier::external_body]
pub(crate) fn check_ref_format(s: &[u8]) -> (r: bool)
    ensures
        r == ref_format_ok(s@),
{
    match std::str::from_utf8(s) {
        Ok(text) => git_ref_format::check_ref_format(
            git_ref_format::Options { allow_onelevel: true, allow_pattern: false },
            text,
        ).is_ok(),
        Err(_) => false,
    }
}

pub const SLASH: u8 = 47;

/// `refs/`
pub open spec fn refs_lit() -> Seq<u8> {
    seq![114u8, 101, 102, 115, 47]
}

/// `refs/namespaces/`
pub open spec fn namespaces_lit() -> Seq<u8> {
    refs_lit() + seq![110u8, 97, 109, 101, 115, 112, 97, 99, 101, 115, 47]
}

/// `refs/rad/`
pub open spec fn rad_lit() -> Seq<u8> {
    refs_lit() + seq![114u8, 97, 100, 47]
}

/// `id`
pub open spec fn id_lit() -> Seq<u8> {
    seq![105u8, 100]
}

/// `sigrefs`
pub open spec fn sigrefs_lit() -> Seq<u8> {
    seq![115u8, 105, 103, 114, 101, 102, 115]
}

pub fn refs_bytes() -> (r: Vec<u8>)
    ensures
        r@ == refs_lit(),
{
    let r = vec![114u8, 101, 102, 115, 47];
    assert(r@ =~= refs_lit());
    r
}

pub fn namespaces_bytes() -> (r: Vec<u8>)
    ensures
        r@ == namespaces_lit(),
{
    let r = vec![114u8, 101, 102, 115, 47, 110, 97, 109, 101, 115, 112, 97, 99, 101, 115, 47];
    assert(r@ =~= namespaces_lit());
    r
}

pub fn rad_bytes() -> (r: Vec<u8>)
    ensures
        r@ == rad_lit(),
{
    let r = vec![114u8, 101, 102, 115, 47, 114, 97, 100, 47];
    assert(r@ =~= rad_lit());
    r
}

fn id_bytes() -> (r: Vec<u8>)
    ensures
        r@ == id_lit(),
{
    let r = vec![105u8, 100];
    assert(r@ =~= id_lit());
    r
}

fn sigrefs_bytes() -> (r: Vec<u8>)
    ensures
        r@ == sigrefs_lit(),
{
    let r = vec![115u8, 105, 103, 114, 101, 102, 115];
    assert(r@ =~= sigrefs_lit());
    r
}


/// The two special references of a namespace.
#[derive(Clone, Copy, Debug, PartialEq, Eq, Structural)]
pub enum Special {
    /// `refs/rad/id`
    Id,
    /// `refs/rad/sigrefs`
    SignedRefs,
}

/// What follows the namespace: a special reference, or any other qualified name.
#[derive(Clone, Debug)]
pub enum Suffix {
    Special(Special),
    Qualified(Vec<u8>),
}

/// A reference name under a `remote` namespace.
#[derive(Clone, Debug)]
pub struct Refname {
    pub remote: PublicKey,
    pub suffix: Suffix,
}

/// Why a byte string is no namespaced reference name.
#[derive(Clone, Copy, Debug, PartialEq, Eq, Structural)]
pub enum Error {
    /// Not a valid reference name (or not UTF-8).
    Check,
    /// Not of the form `refs/<a>/<b>...`.
    NotQualified,
    /// Not of the form `refs/namespaces/<ns>/refs/<a>/<b>...`.
    NotNamespaced,
    /// The namespace is not a public key.
    PublicKey,
    /// Under `refs/rad/`, but neither `id` nor `sigrefs`.
    MalformedSuffix,
}

pub enum SuffixView {
    Special(Special),
    Qualified(Seq<u8>),
}

pub struct RefnameView {
    pub remote: PublicKey,
    pub suffix: SuffixView,
}

impl Suffix {
    pub open spec fn view(&self) -> SuffixView {
        match self {
            Suffix::Special(s) => SuffixView::Special(*s),
            Suffix::Qualified(q) => SuffixView::Qualified(q@),
        }
    }
}

impl Refname {
    pub open spec fn view(&self) -> RefnameView {
        RefnameView { remote: self.remote, suffix: self.suffix.view() }
    }
}

/// The qualified name of a special reference.
pub open spec fn special_name(s: Special) -> Seq<u8> {
    match s {
        Special::Id => rad_lit() + id_lit(),
        Special::SignedRefs => rad_lit() + sigrefs_lit(),
    }
}

/// The qualified (un-namespaced) form of a suffix.
pub open spec fn suffix_name(s: SuffixView) -> Seq<u8> {
    match s {
        SuffixView::Special(sp) => special_name(sp),
        SuffixView::Qualified(q) => q,
    }
}

/// `refs/namespaces/<key>/<suffix>`.
pub open spec fn namespaced_name(remote: PublicKey, suffix: Seq<u8>) -> Seq<u8> {
    namespaces_lit() + key_human(remote.bytes@) + seq![SLASH] + suffix
}

/// The fully namespaced form of a reference name.
pub open spec fn refname_string(r: RefnameView) -> Seq<u8> {
    namespaced_name(r.remote, suffix_name(r.suffix))
}

/// At least three components, the first being `refs`.
pub open spec fn is_qualified(s: Seq<u8>) -> bool {
    has_prefix(s, refs_lit()) && find_from(s, SLASH, 5) < s.len()
}

/// End of the namespace component of a name that starts `refs/namespaces/`.
pub open spec fn ns_end(s: Seq<u8>) -> int {
    find_from(s, SLASH, 16)
}

/// What follows `refs/namespaces/<ns>/`.
pub open spec fn ns_rest(s: Seq<u8>) -> Seq<u8> {
    s.subrange(ns_end(s) + 1, s.len() as int)
}

/// The namespace component.
pub open spec fn ns_component(s: Seq<u8>) -> Seq<u8> {
    s.subrange(16, ns_end(s))
}

pub open spec fn is_namespaced(s: Seq<u8>) -> bool {
    &&& has_prefix(s, namespaces_lit())
    &&& ns_end(s) < s.len()
    &&& is_qualified(ns_rest(s))
}

/// The suffix that a qualified name under a namespace denotes.
pub open spec fn parse_suffix(q: Seq<u8>) -> Option<SuffixView> {
    if has_prefix(q, rad_lit()) {
        let tail = q.subrange(9, q.len() as int);
        if tail == id_lit() {
            Some(SuffixView::Special(Special::Id))
        } else if tail == sigrefs_lit() {
            Some(SuffixView::Special(Special::SignedRefs))
        } else {
            None
        }
    } else {
        Some(SuffixView::Qualified(q))
    }
}

/// How a byte string reads as a namespaced reference name.
pub open spec fn parse_refname(s: Seq<u8>) -> Result<RefnameView, Error> {
    if !ref_format_ok(s) {
        Err(Error::Check)
    } else if !is_qualified(s) {
        Err(Error::NotQualified)
    } else if !is_namespaced(s) {
        Err(Error::NotNamespaced)
    } else {
        match key_decode(ns_component(s)) {
            None => Err(Error::PublicKey),
            Some(k) => match parse_suffix(ns_rest(s)) {
                None => Err(Error::MalformedSuffix),
                Some(sfx) => Ok(RefnameView { remote: k, suffix: sfx }),
            },
        }
    }
}

/// The namespace component is the canonical form of the key it names.
pub open spec fn canonical_namespace(s: Seq<u8>) -> bool {
    match key_decode(ns_component(s)) {
        Some(k) => key_human(k.bytes@) == ns_component(s),
        None => false,
    }
}

pub(crate) fn is_qualified_exec(s: &[u8]) -> (r: bool)
    ensures
        r == is_qualified(s@),
{
    let refs = refs_bytes();
    if !starts_with(s, refs.as_slice()) {
        return false;
    }
    find_byte(s, SLASH, 5) < s.len()
}

/// Whether `s` is `refs/namespaces/<ns>/<qualified>`; if so, also the
/// qualified rest.
pub(crate) fn split_namespaced(s: &[u8]) -> (r: Option<Vec<u8>>)
    ensures
        r is Some == is_namespaced(s@),
        r matches Some(rest) ==> rest@ == ns_rest(s@),
{
    let nsp = namespaces_bytes();
    if !starts_with(s, nsp.as_slice()) {
        return None;
    }
    let end = find_byte(s, SLASH, 16);
    proof {
        lemma_find_from_bounds(s@, SLASH, 16);
    }
    if end >= s.len() {
        return None;
    }
    let rest = slice_to_vec(s, end + 1, s.len());
    if !is_qualified_exec(rest.as_slice()) {
        return None;
    }
    Some(rest)
}

/// The key that names the namespace of `s`, if `s` is namespaced.
pub open spec fn namespace_of(s: Seq<u8>) -> Option<PublicKey> {
    if is_namespaced(s) {
        key_decode(ns_component(s))
    } else {
        None
    }
}

/// The key that names the namespace of `s`, if `s` is namespaced.
pub fn namespace_key(s: &[u8]) -> (r: Option<PublicKey>)
    ensures
        r == namespace_of(s@),
{
    if split_namespaced(s).is_none() {
        return None;
    }
    let end = find_byte(s, SLASH, 16);
    proof {
        lemma_find_from_bounds(s@, SLASH, 16);
    }
    let comp = slice_to_vec(s, 16, end);
    key_from_human(comp.as_slice())
}

/// Reads a namespaced reference name.
pub fn parse(s: &[u8]) -> (r: Result<Refname, Error>)
    ensures
        match r {
            Ok(n) => parse_refname(s@) == Ok::<RefnameView, Error>(n@),
            Err(e) => parse_refname(s@) == Err::<RefnameView, Error>(e),
        },
{
    if !check_ref_format(s) {
        return Err(Error::Check);
    }
    if !is_qualified_exec(s) {
        return Err(Error::NotQualified);
    }
    let nsp = namespaces_bytes();
    if !starts_with(s, nsp.as_slice()) {
        return Err(Error::NotNamespaced);
    }
    let end = find_byte(s, SLASH, 16);
    proof {
        lemma_find_from_bounds(s@, SLASH, 16);
    }
    if end >= s.len() {
        return Err(Error::NotNamespaced);
    }
    let rest = slice_to_vec(s, end + 1, s.len());
    if !is_qualified_exec(rest.as_slice()) {
        return Err(Error::NotNamespaced);
    }
    let comp = slice_to_vec(s, 16, end);
    let remote = match key_from_human(comp.as_slice()) {
        None => {
            return Err(Error::PublicKey);
        },
        Some(k) => k,
    };
    let rad = rad_bytes();
    if starts_with(rest.as_slice(), rad.as_slice()) {
        let tail = slice_to_vec(rest.as_slice(), 9, rest.len());
        let idb = id_bytes();
        let sigb = sigrefs_bytes();
        if bytes_eq(tail.as_slice(), idb.as_slice()) {
            Ok(Refname { remote, suffix: Suffix::Special(Special::Id) })
        } else if bytes_eq(tail.as_slice(), sigb.as_slice()) {
            Ok(Refname { remote, suffix: Suffix::Special(Special::SignedRefs) })
        } else {
            Err(Error::MalformedSuffix)
        }
    } else {
        Ok(Refname { remote, suffix: Suffix::Qualified(rest) })
    }
}

/// A name read by `parse` whose namespace is in canonical form renders back
/// to the very bytes it was read from.
pub proof fn lemma_refname_round_trip(s: Seq<u8>)
    requires
        parse_refname(s) is Ok,
        canonical_namespace(s),
    ensures
        refname_string(parse_refname(s)->Ok_0) == s,
{
    let v = parse_refname(s)->Ok_0;
    lemma_find_from_bounds(s, SLASH, 16);
    let e = ns_end(s);
    assert(v.remote == key_decode(ns_component(s))->Some_0);
    assert(key_human(v.remote.bytes@) == ns_component(s));
    let q = ns_rest(s);
    assert(suffix_name(v.suffix) == q) by {
        if has_prefix(q, rad_lit()) {
            let tail = q.subrange(9, q.len() as int);
            assert(q =~= rad_lit() + tail);
        }
    }
    assert(s.subrange(0, 16) == namespaces_lit());
    assert(s =~= s.subrange(0, 16) + ns_component(s) + seq![SLASH] + q);
}


/// A name built from a key and a qualified suffix reads back as that key and suffix.
proof fn lemma_namespaced_shape(k: PublicKey, q: Seq<u8>)
    requires
        key_human(k.bytes@).len() > 0,
        forall|i: int| 0 <= i < key_human(k.bytes@).len() ==> key_human(k.bytes@)[i] != SLASH,
        key_decode(key_human(k.bytes@)) == Some(k),
        is_qualified(q),
    ensures
        is_qualified(namespaced_name(k, q)),
        is_namespaced(namespaced_name(k, q)),
        ns_component(namespaced_name(k, q)) == key_human(k.bytes@),
        ns_rest(namespaced_name(k, q)) == q,
{
    let h = key_human(k.bytes@);
    let s = namespaced_name(k, q);
    let j: int = 16int + h.len() as int;
    assert(s.subrange(0, 16) =~= namespaces_lit());
    assert(s.subrange(0, 5) =~= refs_lit());
    assert(s[15] == SLASH);
    assert forall|i: int| 5 <= i < 15 implies s[i] != SLASH by {
        assert(s[i] == namespaces_lit()[i]);
    }
    lemma_find_from_exact(s, SLASH, 5, 15);
    assert forall|i: int| 16 <= i < j implies s[i] != SLASH by {
        assert(s[i] == h[i - 16]);
    }
    assert(s[j] == SLASH);
    lemma_find_from_exact(s, SLASH, 16, j);
    assert(ns_component(s) =~= h);
    assert(ns_rest(s) =~= q);
}

/// `refs/rad/id` and `refs/rad/sigrefs` are qualified names.
proof fn lemma_special_qualified(sp: Special)
    ensures
        is_qualified(special_name(sp)),
        parse_suffix(special_name(sp)) == Some(SuffixView::Special(sp)),
{
    let q = special_name(sp);
    assert(q.subrange(0, 5) =~= refs_lit());
    assert(q[8] == SLASH);
    assert forall|i: int| 5 <= i < 8 implies q[i] != SLASH by {
        assert(q[i] == rad_lit()[i]);
    }
    lemma_find_from_exact(q, SLASH, 5, 8);
    assert(q.subrange(0, 9) =~= rad_lit());
    match sp {
        Special::Id => {
            assert(q.subrange(9, q.len() as int) =~= id_lit());
        },
        Special::SignedRefs => {
            assert(q.subrange(9, q.len() as int) =~= sigrefs_lit());
            assert(sigrefs_lit() != id_lit());
        },
    }
}

pub fn copy_bytes(v: &Vec<u8>) -> (r: Vec<u8>)
    ensures
        r@ == v@,
{
    slice_to_vec(v.as_slice(), 0, v.len())
}

fn special_bytes(sp: Special) -> (r: Vec<u8>)
    ensures
        r@ == special_name(sp),
{
    let mut r = rad_bytes();
    match sp {
        Special::Id => {
            let t = id_bytes();
            extend(&mut r, t.as_slice());
        },
        Special::SignedRefs => {
            let t = sigrefs_bytes();
            extend(&mut r, t.as_slice());
        },
    }
    r
}

/// `refs/namespaces/<remote>/<suffix>`.
pub fn namespaced_bytes(remote: &PublicKey, suffix: &[u8]) -> (r: Vec<u8>)
    ensures
        r@ == namespaced_name(*remote, suffix@),
{
    let mut r = namespaces_bytes();
    let h = key_to_human(remote);
    extend(&mut r, h.as_slice());
    r.push(SLASH);
    extend(&mut r, suffix);
    r
}

impl Refname {
    pub fn is_special(&self) -> (r: bool)
        ensures
            r == (self.suffix is Special),
    {
        match self.suffix {
            Suffix::Special(_) => true,
            Suffix::Qualified(_) => false,
        }
    }

    /// A name under `remote` with an ordinary qualified suffix.
    pub fn remote(remote: PublicKey, suffix: Vec<u8>) -> (r: Refname)
        ensures
            r@ == (RefnameView { remote: remote, suffix: SuffixView::Qualified(suffix@) }),
    {
        Refname { remote, suffix: Suffix::Qualified(suffix) }
    }

    /// `refs/namespaces/<remote>/refs/rad/id`; it reads back as the `Id`
    /// special reference of `remote`.
    pub fn rad_id(remote: PublicKey) -> (r: Vec<u8>)
        ensures
            r@ == refname_string(
                RefnameView { remote: remote, suffix: SuffixView::Special(Special::Id) },
            ),
            ref_format_ok(r@) ==> parse_refname(r@) == Ok::<RefnameView, Error>(
                RefnameView { remote: remote, suffix: SuffixView::Special(Special::Id) },
            ),
    {
        let n = Refname { remote, suffix: Suffix::Special(Special::Id) };
        n.namespaced()
    }

    /// `refs/namespaces/<remote>/refs/rad/sigrefs`; it reads back as the
    /// `SignedRefs` special reference of `remote`.
    pub fn rad_sigrefs(remote: PublicKey) -> (r: Vec<u8>)
        ensures
            r@ == refname_string(
                RefnameView { remote: remote, suffix: SuffixView::Special(Special::SignedRefs) },
            ),
            ref_format_ok(r@) ==> parse_refname(r@) == Ok::<RefnameView, Error>(
                RefnameView { remote: remote, suffix: SuffixView::Special(Special::SignedRefs) },
            ),
    {
        let n = Refname { remote, suffix: Suffix::Special(Special::SignedRefs) };
        n.namespaced()
    }

    /// The qualified name without the namespace.
    pub fn to_qualified(&self) -> (r: Vec<u8>)
        ensures
            r@ == suffix_name(self.suffix@),
    {
        match &self.suffix {
            Suffix::Special(sp) => special_bytes(*sp),
            Suffix::Qualified(q) => copy_bytes(q),
        }
    }

    /// The qualified name without the namespace.
    pub fn to_ref_string(&self) -> (r: Vec<u8>)
        ensures
            r@ == suffix_name(self.suffix@),
    {
        self.to_qualified()
    }

    /// The full namespaced name. For a special suffix it reads back as `self`.
    pub fn namespaced(&self) -> (r: Vec<u8>)
        ensures
            r@ == refname_string(self@),
            (self.suffix is Special && ref_format_ok(r@)) ==> parse_refname(r@)
                == Ok::<RefnameView, Error>(self@),
    {
        let q = self.to_qualified();
        let mut r = namespaces_bytes();
        let h = key_to_human(&self.remote);
        extend(&mut r, h.as_slice());
        r.push(SLASH);
        extend(&mut r, q.as_slice());
        assert(r@ =~= namespaced_name(self.remote, q@));
        proof {
            if let Suffix::Special(sp) = self.suffix {
                lemma_special_qualified(sp);
                lemma_namespaced_shape(self.remote, q@);
                if ref_format_ok(r@) {
                    assert(key_decode(ns_component(r@)) == Some(self.remote));
                    assert(parse_suffix(ns_rest(r@)) == Some(SuffixView::Special(sp)));
                    assert(parse_refname(r@) == Ok::<RefnameView, Error>(self@));
                }
            }
        }
        r
    }
}


/// A reference as the remote advertised it, after parsing its name.
pub struct ReceivedRef {
    pub tip: Oid,
    pub name: Refname,
}

pub struct ReceivedRefView {
    pub tip: Oid,
    pub name: RefnameView,
}

impl ReceivedRef {
    pub open spec fn view(&self) -> ReceivedRefView {
        ReceivedRefView { tip: self.tip, name: self.name@ }
    }

    pub fn new(tip: Oid, name: Refname) -> (r: ReceivedRef)
        ensures
            r.tip == tip,
            r.name@ == name@,
    {
        ReceivedRef { tip, name }
    }

    pub fn remote(&self) -> (r: &PublicKey)
        ensures
            *r == self.name.remote,
    {
        &self.name.remote
    }

    /// For a special reference, the update that stores it: a direct update of
    /// its namespaced name that must fast-forward.
    pub fn as_verification_ref_update(&self) -> (r: Option<Update>)
        ensures
            match r {
                Some(u) => verification_update(self@) == Some(u@),
                None => verification_update(self@) is None,
            },
    {
        match self.name.suffix {
            Suffix::Special(_) => Some(
                Update::Direct { name: self.name.namespaced(), target: self.tip, no_ff: Policy::Abort },
            ),
            Suffix::Qualified(_) => None,
        }
    }
}

pub open spec fn received_view(v: Seq<ReceivedRef>) -> Seq<ReceivedRefView> {
    v.map_values(|r: ReceivedRef| r@)
}

/// The update that stores a special reference as received.
pub open spec fn verification_update(r: ReceivedRefView) -> Option<UpdateView> {
    match r.name.suffix {
        SuffixView::Special(_) => Some(
            UpdateView::Direct { name: refname_string(r.name), target: r.tip, no_ff: Policy::Abort },
        ),
        SuffixView::Qualified(_) => None,
    }
}

} // verus!
