//! The pure parts of the transport: what to ask for, and what to check of the
//! answer.
use vstd::prelude::*;

use crate::odb::Odb;
use crate::oid::Oid;
use crate::refs::copy_bytes;
use crate::refdb::{EntryView, Refdb, peel};
use crate::refs::{ReceivedRef, ReceivedRefView, received_view, refname_string};

verus! {

/// The set of objects a sequence holds.
pub open spec fn oid_set(v: Seq<Oid>) -> Set<Oid> {
    Set::new(|o: Oid| v.contains(o))
}

/// Whether an object is wanted for a reference `name` whose remote tip is `tip`.
pub open spec fn want_of(s: Seq<EntryView>, odb: Odb, name: Seq<u8>, tip: Oid) -> bool {
    match peel(s, name) {
        Some(o) => o != tip && !odb.has(tip),
        None => !odb.has(tip),
    }
}

/// The objects wanted for a sequence of `(name, tip)` pairs.
pub open spec fn wants_from(s: Seq<EntryView>, odb: Odb, ps: Seq<(Seq<u8>, Oid)>) -> Set<Oid>
    decreases ps.len(),
{
    if ps.len() == 0 {
        Set::empty()
    } else {
        let rest = wants_from(s, odb, ps.drop_last());
        if want_of(s, odb, ps.last().0, ps.last().1) {
            rest.insert(ps.last().1)
        } else {
            rest
        }
    }
}

/// Whether the local object of `name` is advertised as held: where it
/// differs from the remote `tip` and the tip is not held, or `always`.
pub open spec fn have_of(s: Seq<EntryView>, odb: Odb, name: Seq<u8>, tip: Oid, always: bool) -> Option<Oid> {
    match peel(s, name) {
        Some(o) => if always || (o != tip && !odb.has(tip)) {
            Some(o)
        } else {
            None
        },
        None => None,
    }
}

/// The objects advertised as held for a sequence of `(name, tip)` pairs.
pub open spec fn haves_from(s: Seq<EntryView>, odb: Odb, ps: Seq<(Seq<u8>, Oid)>, always: bool) -> Set<Oid>
    decreases ps.len(),
{
    if ps.len() == 0 {
        Set::empty()
    } else {
        let rest = haves_from(s, odb, ps.drop_last(), always);
        match have_of(s, odb, ps.last().0, ps.last().1, always) {
            Some(o) => rest.insert(o),
            None => rest,
        }
    }
}

pub proof fn lemma_wants_haves_append(
    s: Seq<EntryView>,
    odb: Odb,
    a: Seq<(Seq<u8>, Oid)>,
    b: Seq<(Seq<u8>, Oid)>,
)
    ensures
        wants_from(s, odb, a + b) == wants_from(s, odb, a).union(wants_from(s, odb, b)),
        forall|always: bool| #[trigger] haves_from(s, odb, a + b, always) == haves_from(s, odb, a, always).union(
            haves_from(s, odb, b, always),
        ),
    decreases b.len(),
{
    if b.len() == 0 {
        assert(a + b =~= a);
        assert(wants_from(s, odb, a) =~= wants_from(s, odb, a).union(Set::empty()));
        assert forall|always: bool| #[trigger] haves_from(s, odb, a + b, always) == haves_from(s, odb, a, always).union(
            haves_from(s, odb, b, always),
        ) by {
            assert(haves_from(s, odb, a, always) =~= haves_from(s, odb, a, always).union(Set::empty()));
        }
    } else {
        lemma_wants_haves_append(s, odb, a, b.drop_last());
        assert((a + b).drop_last() =~= a + b.drop_last());
        assert((a + b).last() == b.last());
        assert(wants_from(s, odb, a + b) =~= wants_from(s, odb, a).union(wants_from(s, odb, b)));
        assert forall|always: bool| #[trigger] haves_from(s, odb, a + b, always) == haves_from(s, odb, a, always).union(
            haves_from(s, odb, b, always),
        ) by {
            assert(haves_from(s, odb, a + b.drop_last(), always) == haves_from(s, odb, a, always).union(
                haves_from(s, odb, b.drop_last(), always),
            ));
            assert(haves_from(s, odb, (a + b).drop_last(), always) == haves_from(s, odb, a + b.drop_last(), always));
            assert(haves_from(s, odb, a + b, always) =~= haves_from(s, odb, a, always).union(
                haves_from(s, odb, b, always),
            ));
        }
    }
}

/// The `(name, tip)` pairs of received references.
pub open spec fn received_pairs(v: Seq<ReceivedRefView>) -> Seq<(Seq<u8>, Oid)> {
    v.map_values(|r: ReceivedRefView| (refname_string(r.name), r.tip))
}

/// The objects to request, and those to advertise as held.
pub struct WantsHaves {
    pub wants: Vec<Oid>,
    pub haves: Vec<Oid>,
}

/// Collects wants and haves as sets.
pub struct WantsHavesBuilder {
    pub wants: Vec<Oid>,
    pub haves: Vec<Oid>,
}

fn contains_oid(v: &Vec<Oid>, o: &Oid) -> (r: bool)
    ensures
        r == v@.contains(*o),
{
    let mut i: usize = 0;
    while i < v.len()
        invariant
            0 <= i <= v@.len(),
            forall|k: int| 0 <= k < i ==> v@[k] != *o,
        decreases v@.len() - i,
    {
        if v[i].same(o) {
            return true;
        }
        i = i + 1;
    }
    false
}

/// The objects ascend in byte order, each once.
pub open spec fn oids_sorted(v: Seq<Oid>) -> bool {
    forall|a: int, b: int| 0 <= a < b < v.len() ==> lex_lt(v[a].bytes@, v[b].bytes@)
}

/// Inserts `o` at its place in an ascending sequence, unless it is there.
fn insert_oid(v: &mut Vec<Oid>, o: Oid)
    requires
        oids_sorted(old(v)@),
    ensures
        oids_sorted(final(v)@),
        oid_set(final(v)@) == oid_set(old(v)@).insert(o),
{
    let ghost v0 = v@;
    let mut j: usize = 0;
    while j < v.len() && lex_less(v[j].bytes.as_slice(), o.bytes.as_slice())
        invariant
            j <= v@.len(),
            v@ == v0,
            forall|m: int| 0 <= m < j ==> lex_lt(#[trigger] v0[m].bytes@, o.bytes@),
        decreases v@.len() - j,
    {
        j = j + 1;
    }
    if j < v.len() && v[j].same(&o) {
        assert(v0[j as int] == o);
        assert(oid_set(v@) =~= oid_set(v0).insert(o));
        return;
    }
    proof {
        if j < v0.len() {
            assert(v0[j as int] != o);
            assert(v0[j as int].bytes@ != o.bytes@) by {
                if v0[j as int].bytes@ == o.bytes@ {
                    assert(v0[j as int].bytes@ =~= o.bytes@);
                    assert(v0[j as int].bytes == o.bytes);
                }
            }
            lemma_lex_total(v0[j as int].bytes@, o.bytes@);
            assert forall|m: int| j <= m < v0.len() implies lex_lt(o.bytes@, #[trigger] v0[m].bytes@) by {
                if m > j {
                    lemma_lex_trans(o.bytes@, v0[j as int].bytes@, v0[m].bytes@);
                }
            }
        }
    }
    v.insert(j, o);
    let ghost nv = v@;
    assert(nv =~= v0.insert(j as int, o));
    assert forall|a: int, b: int| 0 <= a < b < nv.len() implies lex_lt(nv[a].bytes@, nv[b].bytes@) by {
        if b < j {
            assert(nv[a] == v0[a]);
            assert(nv[b] == v0[b]);
        } else if a < j && b == j {
            assert(nv[a] == v0[a]);
        } else if a < j && b > j {
            assert(nv[a] == v0[a]);
            assert(nv[b] == v0[b - 1]);
            lemma_lex_trans(v0[a].bytes@, o.bytes@, v0[b - 1].bytes@);
        } else if a == j {
            assert(nv[b] == v0[b - 1]);
        } else {
            assert(nv[a] == v0[a - 1]);
            assert(nv[b] == v0[b - 1]);
        }
    }
    assert forall|x: Oid| nv.contains(x) <==> (v0.contains(x) || x == o) by {
        if nv.contains(x) {
            let m = choose|m: int| 0 <= m < nv.len() && nv[m] == x;
            if m < j {
                assert(v0[m] == x);
            } else if m > j {
                assert(v0[m - 1] == x);
            }
        }
        if v0.contains(x) {
            let m = choose|m: int| 0 <= m < v0.len() && v0[m] == x;
            if m < j {
                assert(nv[m] == x);
            } else {
                assert(nv[m + 1] == x);
            }
        }
        if x == o {
            assert(nv[j as int] == o);
        }
    }
    assert(oid_set(nv) =~= oid_set(v0).insert(o));
}

/// Whether `o` is in `v`.
pub fn contains_oid_pub(v: &Vec<Oid>, o: &Oid) -> (r: bool)
    ensures
        r == v@.contains(*o),
{
    contains_oid(v, o)
}

impl WantsHavesBuilder {
    /// Wants and haves each ascend in byte order, each object once.
    pub open spec fn wf(&self) -> bool {
        oids_sorted(self.wants@) && oids_sorted(self.haves@)
    }

    pub fn new() -> (r: WantsHavesBuilder)
        ensures
            r.wf(),
            oid_set(r.wants@) == Set::<Oid>::empty(),
            oid_set(r.haves@) == Set::<Oid>::empty(),
    {
        let r = WantsHavesBuilder { wants: Vec::new(), haves: Vec::new() };
        assert(oid_set(r.wants@) =~= Set::<Oid>::empty());
        assert(oid_set(r.haves@) =~= Set::<Oid>::empty());
        r
    }

    pub fn want(&mut self, oid: Oid)
        requires
            old(self).wf(),
        ensures
            final(self).wf(),
            oid_set(final(self).wants@) == oid_set(old(self).wants@).insert(oid),
            final(self).haves@ == old(self).haves@,
    {
        insert_oid(&mut self.wants, oid);
    }

    pub fn have(&mut self, oid: Oid)
        requires
            old(self).wf(),
        ensures
            final(self).wf(),
            oid_set(final(self).haves@) == oid_set(old(self).haves@).insert(oid),
            final(self).wants@ == old(self).wants@,
    {
        insert_oid(&mut self.haves, oid);
    }

    fn add_rule(&mut self, refdb: &Refdb, name: &[u8], tip: Oid, always: bool)
        requires
            old(self).wf(),
        ensures
            final(self).wf(),
            oid_set(final(self).wants@) == oid_set(old(self).wants@).union(
                wants_from(refdb.snapshot(), refdb.odb, seq![(name@, tip)]),
            ),
            oid_set(final(self).haves@) == oid_set(old(self).haves@).union(
                haves_from(refdb.snapshot(), refdb.odb, seq![(name@, tip)], always),
            ),
    {
        let ghost ps = seq![(name@, tip)];
        assert(ps.drop_last() =~= Seq::<(Seq<u8>, Oid)>::empty());
        assert(ps.last() == (name@, tip));
        assert(wants_from(refdb.snapshot(), refdb.odb, ps.drop_last()) == Set::<Oid>::empty());
        assert(haves_from(refdb.snapshot(), refdb.odb, ps.drop_last(), always) == Set::<Oid>::empty());
        let held = refdb.contains(&tip);
        let want = match refdb.refname_to_id(name) {
            Some(oid) => {
                let differs = !oid.same(&tip);
                if always || (differs && !held) {
                    self.have(oid);
                } else {
                    assert(oid_set(self.haves@) =~= oid_set(self.haves@).union(Set::empty()));
                }
                differs && !held
            },
            None => {
                assert(oid_set(self.haves@) =~= oid_set(self.haves@).union(Set::empty()));
                !held
            },
        };
        if want {
            self.want(tip);
        } else {
            assert(oid_set(self.wants@) =~= oid_set(self.wants@).union(Set::empty()));
        }
        assert(oid_set(self.wants@) =~= oid_set(old(self).wants@).union(
            wants_from(refdb.snapshot(), refdb.odb, ps),
        ));
        assert(oid_set(self.haves@) =~= oid_set(old(self).haves@).union(
            haves_from(refdb.snapshot(), refdb.odb, ps, always),
        ));
    }

    /// Applies the rule for one reference: the remote tip is a want where the
    /// reference is not stored, or stored at another object, and the tip is
    /// not held; in the second case the stored object is a have.
    pub fn add_one(&mut self, refdb: &Refdb, name: &[u8], tip: Oid)
        requires
            old(self).wf(),
        ensures
            final(self).wf(),
            oid_set(final(self).wants@) == oid_set(old(self).wants@).union(
                wants_from(refdb.snapshot(), refdb.odb, seq![(name@, tip)]),
            ),
            oid_set(final(self).haves@) == oid_set(old(self).haves@).union(
                haves_from(refdb.snapshot(), refdb.odb, seq![(name@, tip)], false),
            ),
    {
        self.add_rule(refdb, name, tip, false)
    }

    /// The rule for a signed reference: as `add_one`, but a stored object of
    /// the name is always a have.
    pub fn add_signed(&mut self, refdb: &Refdb, name: &[u8], tip: Oid)
        requires
            old(self).wf(),
        ensures
            final(self).wf(),
            oid_set(final(self).wants@) == oid_set(old(self).wants@).union(
                wants_from(refdb.snapshot(), refdb.odb, seq![(name@, tip)]),
            ),
            oid_set(final(self).haves@) == oid_set(old(self).haves@).union(
                haves_from(refdb.snapshot(), refdb.odb, seq![(name@, tip)], true),
            ),
    {
        self.add_rule(refdb, name, tip, true)
    }

    /// Applies the rule to every received reference.
    pub fn add(&mut self, refdb: &Refdb, refs: &Vec<ReceivedRef>)
        requires
            old(self).wf(),
        ensures
            final(self).wf(),
            oid_set(final(self).wants@) == oid_set(old(self).wants@).union(
                wants_from(refdb.snapshot(), refdb.odb, received_pairs(received_view(refs@))),
            ),
            oid_set(final(self).haves@) == oid_set(old(self).haves@).union(
                haves_from(refdb.snapshot(), refdb.odb, received_pairs(received_view(refs@)), false),
            ),
    {
        let ghost ps = received_pairs(received_view(refs@));
        let ghost s = refdb.snapshot();
        let mut i: usize = 0;
        assert(ps.subrange(0, 0) =~= Seq::<(Seq<u8>, Oid)>::empty());
        assert(oid_set(self.wants@) =~= oid_set(old(self).wants@).union(Set::empty()));
        assert(oid_set(self.haves@) =~= oid_set(old(self).haves@).union(Set::empty()));
        while i < refs.len()
            invariant
                0 <= i <= refs@.len(),
                self.wf(),
                ps == received_pairs(received_view(refs@)),
                s == refdb.snapshot(),
                oid_set(self.wants@) == oid_set(old(self).wants@).union(
                    wants_from(s, refdb.odb, ps.subrange(0, i as int)),
                ),
                oid_set(self.haves@) == oid_set(old(self).haves@).union(
                    haves_from(s, refdb.odb, ps.subrange(0, i as int), false),
                ),
            decreases refs@.len() - i,
        {
            let r = &refs[i];
            let name = r.name.namespaced();
            self.add_one(refdb, name.as_slice(), r.tip);
            let ghost sub = ps.subrange(0, i + 1);
            assert(sub.drop_last() =~= ps.subrange(0, i as int));
            assert(sub.last() == (name@, r.tip));
            let ghost one = seq![(name@, r.tip)];
            assert(one.drop_last() =~= Seq::<(Seq<u8>, Oid)>::empty());
            assert(one.last() == (name@, r.tip));
            assert(wants_from(s, refdb.odb, one.drop_last()) == Set::<Oid>::empty());
            assert(haves_from(s, refdb.odb, one.drop_last(), false) == Set::<Oid>::empty());
            assert(oid_set(self.wants@) =~= oid_set(old(self).wants@).union(
                wants_from(s, refdb.odb, sub),
            ));
            assert(oid_set(self.haves@) =~= oid_set(old(self).haves@).union(
                haves_from(s, refdb.odb, sub, false),
            ));
            i = i + 1;
        }
        assert(ps.subrange(0, refs@.len() as int) =~= ps);
    }

    /// The wants that are not also haves, with the haves; `None` where no
    /// want is left.
    /// The wants that are not haves, ascending, each once, with the haves;
    /// `None` where no want is left.
    #[verifier::rlimit(50)]
    pub fn build(self) -> (r: Option<WantsHaves>)
        requires
            self.wf(),
        ensures
            match r {
                Some(w) => {
                    &&& oids_sorted(w.wants@)
                    &&& oids_sorted(w.haves@)
                    &&& oid_set(w.wants@) == oid_set(self.wants@).difference(oid_set(self.haves@))
                    &&& w.wants@.len() > 0
                    &&& w.haves@ == self.haves@
                },
                None => oid_set(self.wants@).difference(oid_set(self.haves@)) == Set::<Oid>::empty(),
            },
    {
        let mut wants: Vec<Oid> = Vec::new();
        let mut i: usize = 0;
        while i < self.wants.len()
            invariant
                0 <= i <= self.wants@.len(),
                self.wf(),
                oids_sorted(wants@),
                forall|m: int| #![trigger wants@[m]] 0 <= m < wants@.len() ==> exists|k: int|
                    0 <= k < i && self.wants@[k] == wants@[m],
                forall|o: Oid| wants@.contains(o) <==> (exists|k: int| 0 <= k < i && self.wants@[k] == o
                    && !self.haves@.contains(o)),
            decreases self.wants@.len() - i,
        {
            let o = self.wants[i];
            let ghost w0 = wants@;
            let held = contains_oid(&self.haves, &o);
            if !held {
                assert forall|m: int| 0 <= m < w0.len() implies lex_lt(#[trigger] w0[m].bytes@, o.bytes@) by {
                    let k = choose|k: int| 0 <= k < i && self.wants@[k] == w0[m];
                }
                wants.push(o);
                assert forall|a: int, b: int| 0 <= a < b < wants@.len() implies lex_lt(
                    wants@[a].bytes@,
                    wants@[b].bytes@,
                ) by {
                    assert(wants@[a] == w0[a]);
                    if b < w0.len() {
                        assert(wants@[b] == w0[b]);
                    }
                }
                assert forall|m: int| #![trigger wants@[m]] 0 <= m < wants@.len() implies exists|k: int|
                    0 <= k < i + 1 && self.wants@[k] == wants@[m] by {
                    if m < w0.len() {
                        assert(wants@[m] == w0[m]);
                        let k = choose|k: int| 0 <= k < i && self.wants@[k] == w0[m];
                    } else {
                        assert(self.wants@[i as int] == wants@[m]);
                    }
                }
                assert forall|x: Oid| wants@.contains(x) <==> (w0.contains(x) || x == o) by {
                    if w0.contains(x) {
                        let j = choose|j: int| 0 <= j < w0.len() && w0[j] == x;
                        assert(wants@[j] == x);
                    }
                    if x == o {
                        assert(wants@[w0.len() as int] == o);
                    }
                }
            } else {
                assert(wants@ == w0);
            }
            assert(forall|x: Oid| #[trigger] wants@.contains(x) <==> (w0.contains(x) || (x == o && !held)));
            assert forall|x: Oid| wants@.contains(x) <==> (exists|k: int| 0 <= k < i + 1 && self.wants@[k] == x
                && !self.haves@.contains(x)) by {
                if wants@.contains(x) {
                    if w0.contains(x) {
                        let k = choose|k: int| 0 <= k < i && self.wants@[k] == x && !self.haves@.contains(x);
                        assert(0 <= k < i + 1 && self.wants@[k] == x && !self.haves@.contains(x));
                    } else {
                        assert(!held && x == o);
                        assert(self.wants@[i as int] == x);
                    }
                }
                if exists|k: int| 0 <= k < i + 1 && self.wants@[k] == x && !self.haves@.contains(x) {
                    let k = choose|k: int| 0 <= k < i + 1 && self.wants@[k] == x && !self.haves@.contains(x);
                    if k < i {
                        assert(w0.contains(x));
                    } else {
                        assert(x == o && !held);
                    }
                }
            }
            i = i + 1;
        }
        assert(oid_set(wants@) =~= oid_set(self.wants@).difference(oid_set(self.haves@)));
        if wants.len() == 0 {
            assert(oid_set(wants@) =~= Set::<Oid>::empty());
            None
        } else {
            Some(WantsHaves { wants, haves: self.haves })
        }
    }
}

/// The first wanted object that the received pack index does not hold.
pub open spec fn first_missing(wants: Seq<Oid>, index: Seq<Oid>, from: int) -> Option<Oid>
    decreases wants.len() - from,
{
    if from >= wants.len() {
        None
    } else if !index.contains(wants[from]) {
        Some(wants[from])
    } else {
        first_missing(wants, index, from + 1)
    }
}

/// A fetch fails where the pack it received lacks a wanted object.
#[derive(Clone, Copy, Debug)]
pub enum PackError {
    /// The pack is empty, or none was received.
    NoPack,
    /// A wanted object is not in the pack.
    NotFound(Oid),
}

/// Checks that every wanted object resolves in the objects of the received
/// pack's index.
pub fn check_pack(wants: &Vec<Oid>, index: Option<&Vec<Oid>>) -> (r: Result<(), PackError>)
    ensures
        match index {
            None => r matches Err(PackError::NoPack),
            Some(idx) => match first_missing(wants@, idx@, 0) {
                None => r is Ok,
                Some(o) => r matches Err(PackError::NotFound(x)) && x == o,
            },
        },
{
    match index {
        None => Err(PackError::NoPack),
        Some(idx) => check_index(wants, idx),
    }
}

fn check_index(wants: &Vec<Oid>, idx: &Vec<Oid>) -> (r: Result<(), PackError>)
    ensures
        match first_missing(wants@, idx@, 0) {
            None => r is Ok,
            Some(o) => r matches Err(PackError::NotFound(x)) && x == o,
        },
{
    let mut i: usize = 0;
    while i < wants.len()
        invariant
            0 <= i <= wants@.len(),
            first_missing(wants@, idx@, 0) == first_missing(wants@, idx@, i as int),
        decreases wants@.len() - i,
    {
        if !contains_oid(idx, &wants[i]) {
            return Err(PackError::NotFound(wants[i]));
        }
        i = i + 1;
    }
    Ok(())
}


/// `git/`
pub open spec fn git_lit() -> Seq<u8> {
    seq![103u8, 105, 116, 47]
}

/// The agent name advertised to a server: `name`, under `git/`.
pub fn agent_name(name: &[u8]) -> (r: Vec<u8>)
    ensures
        r@ == if crate::bytes::has_prefix(name@, git_lit()) {
            name@
        } else {
            git_lit() + name@
        },
{
    let git = vec![103u8, 105, 116, 47];
    assert(git@ =~= git_lit());
    if crate::bytes::starts_with(name, git.as_slice()) {
        let r = crate::bytes::slice_to_vec(name, 0, name.len());
        assert(name@.subrange(0, name@.len() as int) =~= name@);
        r
    } else {
        let mut r = git;
        crate::bytes::extend(&mut r, name);
        r
    }
}

/// The path of a repository on the server: `/<repo>`.
pub fn repo_path(repo: &[u8]) -> (r: Vec<u8>)
    ensures
        r@ == seq![47u8] + repo@,
{
    let mut r = vec![47u8];
    crate::bytes::extend(&mut r, repo);
    assert(r@ =~= seq![47u8] + repo@);
    r
}

/// Byte-wise lexicographic order, as byte strings compare.
pub open spec fn lex_lt(a: Seq<u8>, b: Seq<u8>) -> bool
    decreases a.len(),
{
    if a.len() == 0 {
        b.len() > 0
    } else if b.len() == 0 {
        false
    } else if a[0] < b[0] {
        true
    } else if a[0] > b[0] {
        false
    } else {
        lex_lt(a.skip(1), b.skip(1))
    }
}

pub proof fn lemma_lex_trans(a: Seq<u8>, b: Seq<u8>, c: Seq<u8>)
    requires
        lex_lt(a, b),
        lex_lt(b, c),
    ensures
        lex_lt(a, c),
    decreases a.len(),
{
    if a.len() > 0 && b.len() > 0 && c.len() > 0 && a[0] == b[0] && b[0] == c[0] {
        lemma_lex_trans(a.skip(1), b.skip(1), c.skip(1));
    }
}

pub proof fn lemma_lex_irreflexive(a: Seq<u8>)
    ensures
        !lex_lt(a, a),
    decreases a.len(),
{
    if a.len() > 0 {
        lemma_lex_irreflexive(a.skip(1));
    }
}

pub proof fn lemma_lex_total(a: Seq<u8>, b: Seq<u8>)
    requires
        a != b,
    ensures
        lex_lt(a, b) || lex_lt(b, a),
    decreases a.len(),
{
    if a.len() > 0 && b.len() > 0 && a[0] == b[0] {
        if a.skip(1) == b.skip(1) {
            assert(a =~= seq![a[0]] + a.skip(1));
            assert(b =~= seq![b[0]] + b.skip(1));
        } else {
            lemma_lex_total(a.skip(1), b.skip(1));
        }
    } else if a.len() == 0 && b.len() == 0 {
        assert(a =~= b);
    }
}

/// Whether `a` sorts before `b`.
pub fn lex_less(a: &[u8], b: &[u8]) -> (r: bool)
    ensures
        r == lex_lt(a@, b@),
{
    let mut i: usize = 0;
    assert(a@.skip(0) =~= a@);
    assert(b@.skip(0) =~= b@);
    while i < a.len() && i < b.len() && a[i] == b[i]
        invariant
            i <= a@.len(),
            i <= b@.len(),
            lex_lt(a@, b@) == lex_lt(a@.skip(i as int), b@.skip(i as int)),
        decreases a@.len() - i,
    {
        assert(a@.skip(i as int).skip(1) =~= a@.skip(i + 1));
        assert(b@.skip(i as int).skip(1) =~= b@.skip(i + 1));
        i = i + 1;
    }
    if i == a.len() {
        i < b.len()
    } else if i == b.len() {
        false
    } else {
        a[i] < b[i]
    }
}

pub open spec fn prefix_view(v: Seq<Vec<u8>>) -> Seq<Seq<u8>> {
    v.map_values(|x: Vec<u8>| x@)
}

pub open spec fn strictly_sorted(v: Seq<Seq<u8>>) -> bool {
    forall|i: int, j: int| 0 <= i < j < v.len() ==> lex_lt(v[i], v[j])
}

/// The prefixes of an ls-refs request: sorted, each once.
pub fn sort_prefixes(prefixes: &Vec<Vec<u8>>) -> (r: Vec<Vec<u8>>)
    ensures
        strictly_sorted(prefix_view(r@)),
        forall|x: Seq<u8>| #![trigger prefix_view(r@).contains(x)] #![trigger prefix_view(prefixes@).contains(x)]
            prefix_view(r@).contains(x) <==> prefix_view(prefixes@).contains(x),
{
    let ghost pv = prefix_view(prefixes@);
    let mut out: Vec<Vec<u8>> = Vec::new();
    let mut k: usize = 0;
    while k < prefixes.len()
        invariant
            0 <= k <= prefixes@.len(),
            pv == prefix_view(prefixes@),
            strictly_sorted(prefix_view(out@)),
            forall|x: Seq<u8>| #![trigger prefix_view(out@).contains(x)] #![trigger pv.subrange(0, k as int).contains(x)]
                prefix_view(out@).contains(x) <==> pv.subrange(0, k as int).contains(x),
        decreases prefixes@.len() - k,
    {
        let p = &prefixes[k];
        let ghost ov = prefix_view(out@);
        let mut j: usize = 0;
        while j < out.len() && lex_less(out[j].as_slice(), p.as_slice())
            invariant
                j <= out@.len(),
                ov == prefix_view(out@),
                forall|m: int| 0 <= m < j ==> lex_lt(#[trigger] ov[m], p@),
            decreases out@.len() - j,
        {
            j = j + 1;
        }
        let dup = j < out.len() && crate::bytes::bytes_eq(out[j].as_slice(), p.as_slice());
        assert(pv[k as int] == p@);
        let ghost s0 = pv.subrange(0, k as int);
        let ghost s1 = pv.subrange(0, k + 1);
        assert(s1 =~= s0.push(p@));
        if dup {
            assert(ov[j as int] == p@);
            assert forall|x: Seq<u8>| ov.contains(x) <==> s1.contains(x) by {
                if s1.contains(x) && !s0.contains(x) {
                    assert(x == p@);
                }
                if s0.contains(x) {
                    let m = choose|m: int| 0 <= m < k && s0[m] == x;
                    assert(s1[m] == x);
                }
            }
        } else {
            proof {
                if j < out@.len() {
                    lemma_lex_total(ov[j as int], p@);
                    assert(lex_lt(p@, ov[j as int]));
                    assert forall|m: int| j <= m < ov.len() implies lex_lt(p@, #[trigger] ov[m]) by {
                        if m > j {
                            lemma_lex_trans(p@, ov[j as int], ov[m]);
                        }
                    }
                }
            }
            let c = copy_bytes(p);
            out.insert(j, c);
            let ghost nv = prefix_view(out@);
            assert(nv =~= ov.insert(j as int, p@));
            assert forall|a: int, b: int| 0 <= a < b < nv.len() implies lex_lt(nv[a], nv[b]) by {
                if b < j {
                    assert(nv[a] == ov[a]);
                    assert(nv[b] == ov[b]);
                } else if a < j && b == j {
                } else if a < j && b > j {
                    assert(nv[b] == ov[b - 1]);
                    if b - 1 >= j {
                        lemma_lex_trans(ov[a], p@, ov[b - 1]);
                    }
                } else if a == j {
                    assert(nv[b] == ov[b - 1]);
                } else {
                    assert(nv[a] == ov[a - 1]);
                    assert(nv[b] == ov[b - 1]);
                }
            }
            assert forall|x: Seq<u8>| nv.contains(x) <==> s1.contains(x) by {
                if nv.contains(x) {
                    let m = choose|m: int| 0 <= m < nv.len() && nv[m] == x;
                    if m < j {
                        assert(ov[m] == x);
                        assert(ov.contains(x));
                    } else if m > j {
                        assert(ov[m - 1] == x);
                        assert(ov.contains(x));
                    }
                    if x != p@ {
                        let q = choose|q: int| 0 <= q < k && s0[q] == x;
                        assert(s1[q] == x);
                    } else {
                        assert(s1[k as int] == x);
                    }
                }
                if s1.contains(x) {
                    if x == p@ {
                        assert(nv[j as int] == x);
                    } else {
                        let q = choose|q: int| 0 <= q < k + 1 && s1[q] == x;
                        assert(s0[q] == x);
                        assert(ov.contains(x));
                        let m = choose|m: int| 0 <= m < ov.len() && ov[m] == x;
                        if m < j {
                            assert(nv[m] == x);
                        } else {
                            assert(nv[m + 1] == x);
                        }
                    }
                }
            }
        }
        k = k + 1;
    }
    assert(pv.subrange(0, prefixes@.len() as int) =~= pv);
    out
}

} // verus!
