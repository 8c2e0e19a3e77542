//! Git packet lines and the request line of an upload-pack session.
use vstd::prelude::*;

use crate::bytes::{find_byte, find_from, has_prefix, lemma_find_from_bounds, slice_to_vec, starts_with};

verus! {

/// Length of a packet-line header.
pub const HEADER_LEN: usize = 4;

/// Size of the buffer a request line is read into.
pub const MAX_PKTLINE: usize = 1024;

/// Whether the bytes are UTF-8, as `std::str::from_utf8` decides.
pub uninterp spec fn is_utf8(b: Seq<u8>) -> bool;

/// Relies on std::str::from_utf8: whether the bytes are valid UTF-8.
#[verifier::external_body]
fn utf8_ok(b: &[u8]) -> (r: bool)
    ensures
        r == is_utf8(b@),
{
    std::str::from_utf8(b).is_ok()
}

/// The value of an ASCII hexadecimal digit.
pub open spec fn hex_digit(c: u8) -> Option<nat> {
    if 48 <= c <= 57 {
        Some((c - 48) as nat)
    } else if 97 <= c <= 102 {
        Some((c - 87) as nat)
    } else if 65 <= c <= 70 {
        Some((c - 55) as nat)
    } else {
        None
    }
}

/// The value of a string of digits in base `b` (16 or 10); `None` where one
/// is no digit.
pub open spec fn digits_value(s: Seq<u8>, b: nat) -> Option<nat>
    decreases s.len(),
{
    if s.len() == 0 {
        Some(0)
    } else {
        match (digits_value(s.drop_last(), b), digit(s.last(), b)) {
            (Some(v), Some(d)) => Some(v * b + d),
            _ => None,
        }
    }
}

pub open spec fn digit(c: u8, b: nat) -> Option<nat> {
    if b == 10 {
        if 48 <= c <= 57 {
            Some((c - 48) as nat)
        } else {
            None
        }
    } else {
        hex_digit(c)
    }
}

/// An unsigned number as `from_str_radix` reads it: an optional `+`, then at
/// least one digit.
pub open spec fn unsigned_value(s: Seq<u8>, b: nat) -> Option<nat> {
    let d = if s.len() > 0 && s[0] == 43u8 {
        s.subrange(1, s.len() as int)
    } else {
        s
    };
    if d.len() == 0 {
        None
    } else {
        digits_value(d, b)
    }
}

proof fn lemma_digits_prefix(s: Seq<u8>, b: nat, k: int)
    requires
        0 <= k <= s.len(),
        b >= 10,
    ensures
        digits_value(s, b) matches Some(x) ==> (digits_value(s.subrange(0, k), b) matches Some(p)
            && p <= x),
    decreases s.len() - k,
{
    if k < s.len() {
        lemma_digits_prefix(s, b, k + 1);
        let t = s.subrange(0, k + 1);
        assert(t.drop_last() =~= s.subrange(0, k));
        if let Some(x) = digits_value(s, b) {
            if let Some(whole) = digits_value(t, b) {
                if let Some(p) = digits_value(s.subrange(0, k), b) {
                    let dd = digit(t.last(), b)->Some_0;
                    assert(whole == p * b + dd);
                    assert(p * b + dd >= p) by (nonlinear_arith)
                        requires b >= 10;
                }
            }
        }
    } else {
        assert(s.subrange(0, k) =~= s);
    }
}

fn digit_exec(c: u8, b: u64) -> (r: Option<u64>)
    requires
        b == 10 || b == 16,
    ensures
        match r {
            Some(d) => digit(c, b as nat) == Some(d as nat) && d < b,
            None => digit(c, b as nat) is None,
        },
{
    if 48 <= c && c <= 57 {
        Some((c - 48) as u64)
    } else if b == 16 && 97 <= c && c <= 102 {
        Some((c - 87) as u64)
    } else if b == 16 && 65 <= c && c <= 70 {
        Some((c - 55) as u64)
    } else {
        None
    }
}

/// Reads an unsigned number in base `b`; `None` where it is malformed or
/// exceeds `max`.
pub fn parse_unsigned(s: &[u8], b: u64, max: u64) -> (r: Option<u64>)
    requires
        b == 10 || b == 16,
        max < 0x1_0000_0000,
    ensures
        match r {
            Some(v) => unsigned_value(s@, b as nat) == Some(v as nat) && v <= max,
            None => match unsigned_value(s@, b as nat) {
                Some(v) => v > max,
                None => true,
            },
        },
{
    let start: usize = if s.len() > 0 && s[0] == 43u8 { 1 } else { 0 };
    let ghost d = if s@.len() > 0 && s@[0] == 43u8 { s@.subrange(1, s@.len() as int) } else { s@ };
    assert(d == s@.subrange(start as int, s@.len() as int));
    if start >= s.len() {
        return None;
    }
    let mut v: u64 = 0;
    let mut i: usize = start;
    let mut over = false;
    assert(d.subrange(0, 0) =~= Seq::<u8>::empty());
    while i < s.len()
        invariant
            start <= i <= s@.len(),
            d == s@.subrange(start as int, s@.len() as int),
            d == (if s@.len() > 0 && s@[0] == 43u8 { s@.subrange(1, s@.len() as int) } else { s@ }),
            d.len() > 0,
            b == 10 || b == 16,
            max < 0x1_0000_0000,
            !over ==> digits_value(d.subrange(0, i - start), b as nat) == Some(v as nat) && v <= max,
            over ==> match digits_value(d.subrange(0, i - start), b as nat) {
                Some(x) => x > max,
                None => true,
            },
        decreases s@.len() - i,
    {
        let ghost sub = d.subrange(0, i - start + 1);
        assert(sub.drop_last() =~= d.subrange(0, i - start));
        assert(sub.last() == s@[i as int]);
        match digit_exec(s[i], b) {
            None => {
                proof {
                    assert(digit(sub.last(), b as nat) is None);
                    assert(digits_value(sub, b as nat) is None);
                    lemma_digits_prefix(d, b as nat, i - start + 1);
                    assert(digits_value(d, b as nat) is None);
                    assert(unsigned_value(s@, b as nat) == digits_value(d, b as nat));
                }
                return None;
            },
            Some(x) => {
                if !over {
                    let nv = v * b + x;
                    if nv > max {
                        over = true;
                    } else {
                        v = nv;
                    }
                } else {
                    proof {
                        if let Some(p) = digits_value(d.subrange(0, i - start), b as nat) {
                            assert(p * (b as nat) + x >= p) by (nonlinear_arith)
                                requires b >= 10;
                        }
                    }
                }
            },
        }
        i = i + 1;
    }
    assert(d.subrange(0, s@.len() - start) =~= d);
    if over {
        None
    } else {
        Some(v)
    }
}


pub const NUL: u8 = 0;

/// The pieces of `s[from..]` between NUL bytes; a trailing NUL ends the
/// last piece and starts none.
pub open spec fn split_nul(s: Seq<u8>, from: int) -> Seq<Seq<u8>>
    decreases s.len() - from,
{
    if from >= s.len() || from < 0 {
        Seq::empty()
    } else {
        let e = find_from(s, NUL, from);
        if e >= s.len() || e < from {
            seq![s.subrange(from, s.len() as int)]
        } else {
            seq![s.subrange(from, e)] + split_nul(s, e + 1)
        }
    }
}

pub open spec fn bytes_view(v: Seq<Vec<u8>>) -> Seq<Seq<u8>> {
    v.map_values(|x: Vec<u8>| x@)
}

fn split_nul_exec(s: &[u8], from: usize) -> (r: Vec<Vec<u8>>)
    requires
        from <= s@.len(),
    ensures
        bytes_view(r@) == split_nul(s@, from as int),
{
    let mut out: Vec<Vec<u8>> = Vec::new();
    let mut at = from;
    assert(bytes_view(out@) + split_nul(s@, at as int) =~= split_nul(s@, from as int));
    while at < s.len()
        invariant
            from <= at <= s@.len(),
            bytes_view(out@) + split_nul(s@, at as int) == split_nul(s@, from as int),
        decreases s@.len() - at,
    {
        let e = find_byte(s, NUL, at);
        proof {
            lemma_find_from_bounds(s@, NUL, at as int);
        }
        let piece = slice_to_vec(s, at, e);
        let ghost before = bytes_view(out@);
        out.push(piece);
        assert(bytes_view(out@) =~= before.push(piece@));
        if e >= s.len() {
            assert(split_nul(s@, at as int) =~= seq![piece@]);
            assert(split_nul(s@, s@.len() as int) =~= Seq::<Seq<u8>>::empty());
            assert(bytes_view(out@) + split_nul(s@, s@.len() as int) =~= split_nul(s@, from as int));
            at = s.len();
        } else {
            assert(split_nul(s@, at as int) == seq![piece@] + split_nul(s@, e + 1));
            assert(bytes_view(out@) + split_nul(s@, e + 1) =~= before + (seq![piece@] + split_nul(s@, e + 1)));
            at = e + 1;
        }
    }
    assert(split_nul(s@, at as int) =~= Seq::<Seq<u8>>::empty());
    assert(bytes_view(out@) =~= bytes_view(out@) + split_nul(s@, at as int));
    out
}

/// `git-upload-pack `
pub open spec fn service_lit() -> Seq<u8> {
    seq![103u8, 105, 116, 45, 117, 112, 108, 111, 97, 100, 45, 112, 97, 99, 107, 32]
}

fn service_bytes() -> (r: Vec<u8>)
    ensures
        r@ == service_lit(),
{
    let r = vec![103u8, 105, 116, 45, 117, 112, 108, 111, 97, 100, 45, 112, 97, 99, 107, 32];
    assert(r@ =~= service_lit());
    r
}

/// `host=`
pub open spec fn host_lit() -> Seq<u8> {
    seq![104u8, 111, 115, 116, 61]
}

pub const COLON: u8 = 58;

pub const EQUALS: u8 = 61;

/// Splits at the first `=`.
pub open spec fn split_eq(p: Seq<u8>) -> (Seq<u8>, Option<Seq<u8>>) {
    let e = find_from(p, EQUALS, 0);
    if e < p.len() {
        (p.subrange(0, e), Some(p.subrange(e + 1, p.len() as int)))
    } else {
        (p, None)
    }
}

/// The first index at or after `k` whose piece is not empty.
pub open spec fn skip_empty(ps: Seq<Seq<u8>>, k: int) -> int
    decreases ps.len() - k,
{
    if k >= ps.len() {
        ps.len() as int
    } else if ps[k].len() == 0 {
        skip_empty(ps, k + 1)
    } else {
        k
    }
}

/// Why a request line is not a valid upload-pack header.
#[derive(Clone, Copy, Debug, PartialEq, Eq, Structural)]
pub enum HeaderError {
    UnsupportedService,
    MissingPath,
    EmptyPath,
    InvalidHost,
    InvalidPort,
}

pub struct HeaderView {
    pub path: Seq<u8>,
    pub host: Option<(Seq<u8>, Option<u16>)>,
    pub extra: Seq<(Seq<u8>, Option<Seq<u8>>)>,
}

/// The host piece: absent or empty gives none; else `host=<name>[:<port>]`.
pub open spec fn host_of(ps: Seq<Seq<u8>>) -> Result<Option<(Seq<u8>, Option<u16>)>, HeaderError> {
    if ps.len() < 2 || ps[1].len() == 0 {
        Ok(None)
    } else if !has_prefix(ps[1], host_lit()) {
        Err(HeaderError::InvalidHost)
    } else {
        let h = ps[1].subrange(5, ps[1].len() as int);
        let c = find_from(h, COLON, 0);
        if c >= h.len() {
            Ok(Some((h, None)))
        } else {
            match unsigned_value(h.subrange(c + 1, h.len() as int), 10) {
                Some(v) => if v <= 65535 {
                    Ok(Some((h.subrange(0, c), Some(v as u16))))
                } else {
                    Err(HeaderError::InvalidPort)
                },
                None => Err(HeaderError::InvalidPort),
            }
        }
    }
}

/// The pieces after the host, leading empty ones skipped, each split at `=`.
pub open spec fn extras_of(ps: Seq<Seq<u8>>) -> Seq<(Seq<u8>, Option<Seq<u8>>)> {
    let k = skip_empty(ps, 2);
    ps.subrange(k, ps.len() as int).map_values(|p: Seq<u8>| split_eq(p))
}

pub open spec fn extra_view(e: (Vec<u8>, Option<Vec<u8>>)) -> (Seq<u8>, Option<Seq<u8>>) {
    (e.0@, match e.1 {
        Some(v) => Some(v@),
        None => None,
    })
}

/// How a request line reads; the path may be empty here.
pub open spec fn request_of(s: Seq<u8>) -> Result<HeaderView, HeaderError> {
    if !has_prefix(s, service_lit()) {
        Err(HeaderError::UnsupportedService)
    } else {
        let ps = split_nul(s, 16);
        if ps.len() == 0 {
            Err(HeaderError::MissingPath)
        } else {
            match host_of(ps) {
                Err(e) => Err(e),
                Ok(h) => Ok(HeaderView { path: ps[0], host: h, extra: extras_of(ps) }),
            }
        }
    }
}

/// How an upload-pack header reads.
pub open spec fn header_of(s: Seq<u8>) -> Result<HeaderView, HeaderError> {
    match request_of(s) {
        Ok(h) => if h.path.len() == 0 {
            Err(HeaderError::EmptyPath)
        } else {
            Ok(h)
        },
        Err(e) => Err(e),
    }
}

/// The header of an upload-pack request: path, optional host and port, and
/// extra parameters.
#[derive(Debug)]
pub struct Header {
    pub path: Vec<u8>,
    pub host: Option<(Vec<u8>, Option<u16>)>,
    pub extra: Vec<(Vec<u8>, Option<Vec<u8>>)>,
}

impl Header {
    pub open spec fn view(&self) -> HeaderView {
        HeaderView {
            path: self.path@,
            host: match self.host {
                Some((h, p)) => Some((h@, p)),
                None => None,
            },
            extra: self.extra@.map_values(|e: (Vec<u8>, Option<Vec<u8>>)| extra_view(e)),
        }
    }

    /// Reads a header line.
    pub fn from_bytes(s: &[u8]) -> (r: Result<Header, HeaderError>)
        ensures
            match r {
                Ok(h) => header_of(s@) == Ok::<HeaderView, HeaderError>(h@),
                Err(e) => header_of(s@) == Err::<HeaderView, HeaderError>(e),
            },
    {
        match parse_request(s) {
            Err(e) => Err(e),
            Ok(h) => if h.path.len() == 0 {
                Err(HeaderError::EmptyPath)
            } else {
                Ok(h)
            },
        }
    }
}

/// `rad:`
pub open spec fn rad_scheme_lit() -> Seq<u8> {
    seq![114u8, 97, 100, 58]
}

/// `version`
pub open spec fn version_lit() -> Seq<u8> {
    seq![118u8, 101, 114, 115, 105, 111, 110]
}

/// The protocol version the first `version=<v>` parameter asks for: 2 for
/// `2`, 1 for `1`, else 0; 0 where there is none.
pub open spec fn protocol_version_of(extra: Seq<(Seq<u8>, Option<Seq<u8>>)>) -> u8
    decreases extra.len(),
{
    if extra.len() == 0 {
        0
    } else if extra[0].0 == version_lit() && extra[0].1 is Some {
        let v = extra[0].1->Some_0;
        if v == seq![50u8] {
            2
        } else if v == seq![49u8] {
            1
        } else {
            0
        }
    } else {
        protocol_version_of(extra.skip(1))
    }
}

/// The repository a header's path names: the path without a leading
/// `rad:`, then without a leading `/`.
pub open spec fn repo_of_path(path: Seq<u8>) -> Seq<u8> {
    let n = if has_prefix(path, rad_scheme_lit()) {
        path.subrange(4, path.len() as int)
    } else {
        path
    };
    if n.len() > 0 && n[0] == SLASH_BYTE {
        n.subrange(1, n.len() as int)
    } else {
        n
    }
}

impl Header {
    /// The protocol version the client asks for.
    pub fn protocol_version(&self) -> (r: u8)
        ensures
            r == protocol_version_of(self@.extra),
    {
        let ghost ev = self@.extra;
        let mut i: usize = 0;
        assert(ev.skip(0) =~= ev);
        while i < self.extra.len()
            invariant
                0 <= i <= self.extra@.len(),
                ev == self@.extra,
                protocol_version_of(ev) == protocol_version_of(ev.skip(i as int)),
            decreases self.extra@.len() - i,
        {
            let (k, v) = &self.extra[i];
            let ghost rest = ev.skip(i as int);
            assert(rest[0] == extra_view(self.extra@[i as int]));
            let name = vec![118u8, 101, 114, 115, 105, 111, 110];
            assert(name@ =~= version_lit());
            if crate::bytes::bytes_eq(k.as_slice(), name.as_slice()) {
                if let Some(v) = v {
                    let two = vec![50u8];
                    let one = vec![49u8];
                    assert(two@ =~= seq![50u8]);
                    assert(one@ =~= seq![49u8]);
                    if crate::bytes::bytes_eq(v.as_slice(), two.as_slice()) {
                        return 2;
                    } else if crate::bytes::bytes_eq(v.as_slice(), one.as_slice()) {
                        return 1;
                    } else {
                        return 0;
                    }
                }
            }
            assert(rest.skip(1) =~= ev.skip(i + 1));
            i = i + 1;
        }
        0
    }

    /// The repository the path names.
    pub fn repo(&self) -> (r: Vec<u8>)
        ensures
            r@ == repo_of_path(self.path@),
    {
        let scheme = vec![114u8, 97, 100, 58];
        assert(scheme@ =~= rad_scheme_lit());
        let n = if starts_with(self.path.as_slice(), scheme.as_slice()) {
            slice_to_vec(self.path.as_slice(), 4, self.path.len())
        } else {
            slice_to_vec(self.path.as_slice(), 0, self.path.len())
        };
        assert(self.path@.subrange(0, self.path@.len() as int) =~= self.path@);
        if n.len() > 0 && n[0] == SLASH_BYTE {
            slice_to_vec(n.as_slice(), 1, n.len())
        } else {
            n
        }
    }
}

fn split_eq_exec(p: &Vec<u8>) -> (r: (Vec<u8>, Option<Vec<u8>>))
    ensures
        extra_view(r) == split_eq(p@),
{
    let e = find_byte(p.as_slice(), EQUALS, 0);
    proof {
        lemma_find_from_bounds(p@, EQUALS, 0);
    }
    if e < p.len() {
        (slice_to_vec(p.as_slice(), 0, e), Some(slice_to_vec(p.as_slice(), e + 1, p.len())))
    } else {
        (slice_to_vec(p.as_slice(), 0, p.len()), None)
    }
}

fn host_exec(ps: &Vec<Vec<u8>>) -> (r: Result<Option<(Vec<u8>, Option<u16>)>, HeaderError>)
    ensures
        match r {
            Ok(Some((h, p))) => host_of(bytes_view(ps@)) == Ok::<
                Option<(Seq<u8>, Option<u16>)>,
                HeaderError,
            >(Some((h@, p))),
            Ok(None) => host_of(bytes_view(ps@)) == Ok::<
                Option<(Seq<u8>, Option<u16>)>,
                HeaderError,
            >(None),
            Err(e) => host_of(bytes_view(ps@)) == Err::<Option<(Seq<u8>, Option<u16>)>, HeaderError>(e),
        },
{
    let ghost pv = bytes_view(ps@);
    if ps.len() < 2 || ps[1].len() == 0 {
        return Ok(None);
    }
    assert(pv[1] == ps@[1]@);
    let hl = vec![104u8, 111, 115, 116, 61];
    assert(hl@ =~= host_lit());
    if !starts_with(ps[1].as_slice(), hl.as_slice()) {
        return Err(HeaderError::InvalidHost);
    }
    let h = slice_to_vec(ps[1].as_slice(), 5, ps[1].len());
    let c = find_byte(h.as_slice(), COLON, 0);
    proof {
        lemma_find_from_bounds(h@, COLON, 0);
    }
    if c >= h.len() {
        return Ok(Some((h, None)));
    }
    let port = slice_to_vec(h.as_slice(), c + 1, h.len());
    match parse_unsigned(port.as_slice(), 10, 65535) {
        Some(v) => Ok(Some((slice_to_vec(h.as_slice(), 0, c), Some(v as u16)))),
        None => Err(HeaderError::InvalidPort),
    }
}

fn skip_empty_exec(ps: &Vec<Vec<u8>>, k: usize) -> (r: usize)
    requires
        k <= ps@.len(),
    ensures
        r == skip_empty(bytes_view(ps@), k as int),
        k <= r <= ps@.len(),
{
    let mut i = k;
    while i < ps.len() && ps[i].len() == 0
        invariant
            k <= i <= ps@.len(),
            skip_empty(bytes_view(ps@), k as int) == skip_empty(bytes_view(ps@), i as int),
        decreases ps@.len() - i,
    {
        assert(bytes_view(ps@)[i as int] == ps@[i as int]@);
        i = i + 1;
    }
    if i < ps.len() {
        assert(bytes_view(ps@)[i as int] == ps@[i as int]@);
    }
    i
}

/// Reads a request line without requiring a non-empty path.
fn parse_request(s: &[u8]) -> (r: Result<Header, HeaderError>)
    ensures
        match r {
            Ok(h) => request_of(s@) == Ok::<HeaderView, HeaderError>(h@),
            Err(e) => request_of(s@) == Err::<HeaderView, HeaderError>(e),
        },
{
    let svc = service_bytes();
    if !starts_with(s, svc.as_slice()) {
        return Err(HeaderError::UnsupportedService);
    }
    let ps = split_nul_exec(s, 16);
    let ghost pv = bytes_view(ps@);
    if ps.len() == 0 {
        return Err(HeaderError::MissingPath);
    }
    let host = match host_exec(&ps) {
        Err(e) => {
            return Err(e);
        },
        Ok(h) => h,
    };
    let k = if ps.len() < 2 { ps.len() } else { skip_empty_exec(&ps, 2) };
    proof {
        if ps@.len() < 2 {
            assert(skip_empty(pv, 2) == pv.len());
        }
    }
    let mut extra: Vec<(Vec<u8>, Option<Vec<u8>>)> = Vec::new();
    let mut i = k;
    assert(extra@.map_values(|e: (Vec<u8>, Option<Vec<u8>>)| extra_view(e)) =~= pv.subrange(k as int, k as int).map_values(|p: Seq<u8>| split_eq(p)));
    while i < ps.len()
        invariant
            k <= i <= ps@.len(),
            pv == bytes_view(ps@),
            extra@.map_values(|e: (Vec<u8>, Option<Vec<u8>>)| extra_view(e)) == pv.subrange(k as int, i as int).map_values(|p: Seq<u8>| split_eq(p)),
        decreases ps@.len() - i,
    {
        let e = split_eq_exec(&ps[i]);
        let ghost before = extra@.map_values(|e: (Vec<u8>, Option<Vec<u8>>)| extra_view(e));
        extra.push(e);
        assert(pv[i as int] == ps@[i as int]@);
        assert(extra@.map_values(|e: (Vec<u8>, Option<Vec<u8>>)| extra_view(e)) =~= before.push(extra_view(e)));
        assert(pv.subrange(k as int, i + 1).map_values(|p: Seq<u8>| split_eq(p)) =~= pv.subrange(
            k as int,
            i as int,
        ).map_values(|p: Seq<u8>| split_eq(p)).push(split_eq(pv[i as int])));
        i = i + 1;
    }
    let path = slice_to_vec(ps[0].as_slice(), 0, ps[0].len());
    assert(pv[0] == ps@[0]@);
    assert(pv.subrange(k as int, ps@.len() as int) =~= pv.subrange(skip_empty(pv, 2), pv.len() as int));
    let hd = Header { path, host, extra };
    assert(hd@.extra =~= extras_of(pv));
    assert(hd@.host == host_of(pv)->Ok_0);
    assert(hd@.path == pv[0]);
    assert(request_of(s@) == Ok::<HeaderView, HeaderError>(HeaderView { path: pv[0], host: host_of(pv)->Ok_0, extra: extras_of(pv) }));
    Ok(hd)
}


/// The textual identifier of a repository, as a request path names it.
#[derive(Debug)]
pub struct RepoId {
    pub text: Vec<u8>,
}

/// A request for `git-upload-pack` of the repository at `/<repo>`.
#[derive(Debug)]
pub struct GitRequest {
    pub repo: RepoId,
    pub path: Vec<u8>,
    pub host: Option<(Vec<u8>, Option<u16>)>,
    pub extra: Vec<(Vec<u8>, Option<Vec<u8>>)>,
}

pub struct GitRequestView {
    pub repo: Seq<u8>,
    pub header: HeaderView,
}

/// How a request packet's payload reads: UTF-8, a valid request line, and a
/// path `/<repo>` with a non-empty repository.
pub open spec fn git_request_of(s: Seq<u8>) -> Option<GitRequestView> {
    if !is_utf8(s) {
        None
    } else {
        match request_of(s) {
            Err(_) => None,
            Ok(h) => if h.path.len() > 1 && h.path[0] == SLASH_BYTE {
                Some(GitRequestView { repo: h.path.subrange(1, h.path.len() as int), header: h })
            } else {
                None
            },
        }
    }
}

pub const SLASH_BYTE: u8 = 47;

impl GitRequest {
    pub open spec fn view(&self) -> GitRequestView {
        GitRequestView {
            repo: self.repo.text@,
            header: HeaderView {
                path: self.path@,
                host: match self.host {
                    Some((h, p)) => Some((h@, p)),
                    None => None,
                },
                extra: self.extra@.map_values(|e: (Vec<u8>, Option<Vec<u8>>)| extra_view(e)),
            },
        }
    }

    /// Reads a request line from a packet's payload.
    pub fn parse(input: &[u8]) -> (r: Option<GitRequest>)
        ensures
            match r {
                Some(g) => git_request_of(input@) == Some(g@),
                None => git_request_of(input@) is None,
            },
    {
        if !utf8_ok(input) {
            return None;
        }
        let h = match parse_request(input) {
            Ok(h) => h,
            Err(_) => {
                return None;
            },
        };
        if h.path.len() > 1 && h.path[0] == SLASH_BYTE {
            let repo = RepoId { text: slice_to_vec(h.path.as_slice(), 1, h.path.len()) };
            let g = GitRequest { repo, path: h.path, host: h.host, extra: h.extra };
            Some(g)
        } else {
            None
        }
    }
}

/// Why a packet could not be read.
#[derive(Clone, Copy, Debug, PartialEq, Eq, Structural)]
pub enum PktError {
    /// The stream ended inside a packet.
    UnexpectedEof,
    /// The packet is malformed.
    InvalidInput,
}

/// The packet at `pos` of `s` and the position after it: a four-digit hex
/// length that counts itself, at least the header and at most one buffer.
pub open spec fn next_packet(s: Seq<u8>, pos: int) -> Result<(Seq<u8>, int), PktError> {
    if pos + 4 > s.len() {
        Err(PktError::UnexpectedEof)
    } else {
        match unsigned_value(s.subrange(pos, pos + 4), 16) {
            None => Err(PktError::InvalidInput),
            Some(n) => if n < 4 || n > 1024 {
                Err(PktError::InvalidInput)
            } else if pos + n > s.len() {
                Err(PktError::UnexpectedEof)
            } else {
                Ok((s.subrange(pos, pos + n), pos + n))
            },
        }
    }
}

/// Reads packet lines from the bytes received on a stream.
pub struct Reader {
    pub stream: Vec<u8>,
    pub pos: usize,
}

impl Reader {
    pub fn new(stream: Vec<u8>) -> (r: Reader)
        ensures
            r.stream@ == stream@,
            r.pos == 0,
    {
        Reader { stream, pos: 0 }
    }

    /// Reads the next packet, header included.
    pub fn read_pktline(&mut self) -> (r: Result<Vec<u8>, PktError>)
        requires
            old(self).pos <= old(self).stream@.len(),
        ensures
            final(self).stream@ == old(self).stream@,
            final(self).pos <= final(self).stream@.len(),
            match next_packet(old(self).stream@, old(self).pos as int) {
                Ok((p, n)) => r matches Ok(v) && v@ == p && final(self).pos == n,
                Err(e) => r matches Err(x) && x == e && final(self).pos == old(self).pos,
            },
    {
        let len = self.stream.len();
        if len - self.pos < HEADER_LEN {
            return Err(PktError::UnexpectedEof);
        }
        let header = slice_to_vec(self.stream.as_slice(), self.pos, self.pos + HEADER_LEN);
        let n = match parse_unsigned(header.as_slice(), 16, 0xffff) {
            None => {
                proof {
                    if let Some(v) = unsigned_value(header@, 16) {
                        lemma_four_hex_bound(header@);
                    }
                }
                return Err(PktError::InvalidInput);
            },
            Some(n) => n as usize,
        };
        if n < HEADER_LEN || n > MAX_PKTLINE {
            return Err(PktError::InvalidInput);
        }
        if len - self.pos < n {
            return Err(PktError::UnexpectedEof);
        }
        let pkt = slice_to_vec(self.stream.as_slice(), self.pos, self.pos + n);
        self.pos = self.pos + n;
        Ok(pkt)
    }

    /// Reads a request packet and parses its payload.
    pub fn read_request_pktline(&mut self) -> (r: Result<(GitRequest, Vec<u8>), PktError>)
        requires
            old(self).pos <= old(self).stream@.len(),
        ensures
            final(self).stream@ == old(self).stream@,
            match next_packet(old(self).stream@, old(self).pos as int) {
                Ok((p, n)) => final(self).pos == n && match git_request_of(p.subrange(4, p.len() as int)) {
                    Some(g) => r matches Ok((x, v)) && x@ == g && v@ == p,
                    None => r matches Err(x) && x == PktError::InvalidInput,
                },
                Err(e) => final(self).pos == old(self).pos && (r matches Err(x) && x == e),
            },
    {
        let pkt = self.read_pktline()?;
        let payload = slice_to_vec(pkt.as_slice(), HEADER_LEN, pkt.len());
        match GitRequest::parse(payload.as_slice()) {
            Some(g) => Ok((g, pkt)),
            None => Err(PktError::InvalidInput),
        }
    }
}

/// Four hex digits (after an optional `+`) stay below `0x10000`.
proof fn lemma_four_hex_bound(h: Seq<u8>)
    requires
        h.len() == 4,
    ensures
        unsigned_value(h, 16) matches Some(v) ==> v <= 0xffff,
{
    let d = if h.len() > 0 && h[0] == 43u8 { h.subrange(1, h.len() as int) } else { h };
    if let Some(v) = digits_value(d, 16) {
        lemma_digits_bound(d, 16);
        assert(pow16(0) == 1);
        assert(pow16(1) == 16);
        assert(pow16(2) == 256);
        assert(pow16(3) == 0x1000);
        assert(pow16(4) == 0x10000);
    }
}

pub open spec fn pow16(n: nat) -> nat
    decreases n,
{
    if n == 0 {
        1
    } else {
        16 * pow16((n - 1) as nat)
    }
}

proof fn lemma_digits_bound(s: Seq<u8>, b: nat)
    requires
        b == 16,
    ensures
        digits_value(s, b) matches Some(v) ==> v < pow16(s.len()),
    decreases s.len(),
{
    if s.len() > 0 {
        lemma_digits_bound(s.drop_last(), b);
        if let Some(v) = digits_value(s, b) {
            let p = digits_value(s.drop_last(), b)->Some_0;
            let d = digit(s.last(), b)->Some_0;
            assert(d < 16);
            let q = pow16(s.drop_last().len());
            assert(p < q);
            assert(p * 16 + d < q * 16) by (nonlinear_arith)
                requires p < q, d < 16;
        }
    }
}

} // verus!
