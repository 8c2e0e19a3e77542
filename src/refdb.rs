//! A reference database snapshot with all-or-nothing updates under
//! fast-forward and type-change policies.
use vstd::prelude::*;

use crate::bytes::{bytes_eq, has_prefix, starts_with};
use crate::odb::Odb;
use crate::oid::{Oid, PublicKey};
use crate::refs::{copy_bytes, is_namespaced, ns_rest, rad_bytes, rad_lit, split_namespaced};
use crate::update::{
    Applied, Policy, SymrefTarget, Target, TargetView, Update, UpdateView, Updated, UpdatedView,
    updated_view, updates_view,
};

verus! {

/// Who signs the reflog entries of a transaction.
#[derive(Clone, Copy, Debug)]
pub struct UserInfo {
    pub pk: PublicKey,
}

/// One record of the snapshot: a reference set to a target, or removed.
#[derive(Debug)]
pub struct Entry {
    pub name: Vec<u8>,
    pub target: Option<Target>,
}

pub struct EntryView {
    pub name: Seq<u8>,
    pub target: Option<TargetView>,
}

impl Entry {
    pub open spec fn view(&self) -> EntryView {
        EntryView {
            name: self.name@,
            target: match self.target {
                Some(t) => Some(t@),
                None => None,
            },
        }
    }
}

pub open spec fn entries_view(v: Seq<Entry>) -> Seq<EntryView> {
    v.map_values(|e: Entry| e@)
}

/// The current target of `name`: the last record for it wins.
pub open spec fn lookup(s: Seq<EntryView>, name: Seq<u8>) -> Option<TargetView>
    decreases s.len(),
{
    if s.len() == 0 {
        None
    } else if s.last().name == name {
        s.last().target
    } else {
        lookup(s.drop_last(), name)
    }
}

/// The object `name` resolves to, following one symbolic link.
pub open spec fn peel(s: Seq<EntryView>, name: Seq<u8>) -> Option<Oid> {
    match lookup(s, name) {
        Some(TargetView::Direct(o)) => Some(o),
        Some(TargetView::Symbolic(d)) => match lookup(s, d) {
            Some(TargetView::Direct(o)) => Some(o),
            _ => None,
        },
        None => None,
    }
}

/// What an edit does to its reference.
pub enum Change {
    Write(Target),
    Delete,
}

/// What an edit expects of its reference before the transaction.
pub enum Expected {
    MustNotExist,
    MustMatch(Target),
}

/// One reference edit of a transaction.
pub struct Edit {
    pub name: Vec<u8>,
    pub change: Change,
    pub expected: Expected,
    /// Write a reflog even where none exists yet.
    pub force_reflog: bool,
}

pub enum ChangeView {
    Write(TargetView),
    Delete,
}

pub enum ExpectedView {
    MustNotExist,
    MustMatch(TargetView),
}

pub struct EditView {
    pub name: Seq<u8>,
    pub change: ChangeView,
    pub expected: ExpectedView,
    pub force_reflog: bool,
}

impl Expected {
    pub open spec fn view(&self) -> ExpectedView {
        match self {
            Expected::MustNotExist => ExpectedView::MustNotExist,
            Expected::MustMatch(t) => ExpectedView::MustMatch(t@),
        }
    }
}

impl Edit {
    pub open spec fn view(&self) -> EditView {
        EditView {
            name: self.name@,
            change: match self.change {
                Change::Write(t) => ChangeView::Write(t@),
                Change::Delete => ChangeView::Delete,
            },
            expected: self.expected@,
            force_reflog: self.force_reflog,
        }
    }
}

pub open spec fn edits_view(v: Seq<Edit>) -> Seq<EditView> {
    v.map_values(|e: Edit| e@)
}

/// Why a transaction failed.
#[derive(Debug)]
pub enum UpdateError {
    /// A direct update under `Policy::Abort` is not a fast-forward.
    NonFastForward { name: Vec<u8>, new: Oid, cur: Oid },
    /// A symbolic update under `Policy::Abort` would replace a direct reference.
    TypeChange { name: Vec<u8> },
    /// The target of a symbolic update is itself symbolic.
    TargetSymbolic { name: Vec<u8> },
    /// The reference is symbolic and its target is missing.
    Dangling { name: Vec<u8> },
    /// An edit's expectation of the reference's prior value does not hold.
    Mismatch { name: Vec<u8> },
}

pub enum UpdateErrorView {
    NonFastForward { name: Seq<u8>, new: Oid, cur: Oid },
    TypeChange { name: Seq<u8> },
    TargetSymbolic { name: Seq<u8> },
    Dangling { name: Seq<u8> },
    Mismatch { name: Seq<u8> },
}

impl UpdateError {
    pub open spec fn view(&self) -> UpdateErrorView {
        match self {
            UpdateError::NonFastForward { name, new, cur } => UpdateErrorView::NonFastForward {
                name: name@,
                new: *new,
                cur: *cur,
            },
            UpdateError::TypeChange { name } => UpdateErrorView::TypeChange { name: name@ },
            UpdateError::TargetSymbolic { name } => UpdateErrorView::TargetSymbolic { name: name@ },
            UpdateError::Dangling { name } => UpdateErrorView::Dangling { name: name@ },
            UpdateError::Mismatch { name } => UpdateErrorView::Mismatch { name: name@ },
        }
    }
}

/// Refs in the `rad` category (`refs/namespaces/<ns>/refs/rad/...`) always get
/// a reflog.
pub open spec fn force_reflog(name: Seq<u8>) -> bool {
    is_namespaced(name) && has_prefix(ns_rest(name), rad_lit())
}

/// How one update is classified against a snapshot.
pub enum Step {
    Reject,
    Edits(Seq<EditView>),
}

pub open spec fn set_edit(name: Seq<u8>, t: TargetView, e: ExpectedView, force: bool) -> EditView {
    EditView { name, change: ChangeView::Write(t), expected: e, force_reflog: force }
}

pub open spec fn classify_direct(
    s: Seq<EntryView>,
    odb: Odb,
    name: Seq<u8>,
    target: Oid,
    no_ff: Policy,
) -> Result<Step, UpdateErrorView> {
    let force = force_reflog(name);
    match lookup(s, name) {
        None => Ok(
            Step::Edits(
                seq![set_edit(name, TargetView::Direct(target), ExpectedView::MustNotExist, force)],
            ),
        ),
        Some(_) => match peel(s, name) {
            None => Err(UpdateErrorView::Dangling { name }),
            Some(prev) => {
                let e = set_edit(
                    name,
                    TargetView::Direct(target),
                    ExpectedView::MustMatch(TargetView::Direct(prev)),
                    force,
                );
                if odb.ff(target, prev) {
                    Ok(Step::Edits(seq![e]))
                } else {
                    match no_ff {
                        Policy::Abort => Err(
                            UpdateErrorView::NonFastForward { name, new: target, cur: prev },
                        ),
                        Policy::Reject => Ok(Step::Reject),
                        Policy::Allow => Ok(Step::Edits(seq![e])),
                    }
                }
            },
        },
    }
}

pub open spec fn classify_symbolic(
    s: Seq<EntryView>,
    odb: Odb,
    src: Seq<u8>,
    dst: Seq<u8>,
    dst_oid: Oid,
    type_change: Policy,
) -> Result<Step, UpdateErrorView> {
    let force = force_reflog(dst);
    let cur_src = lookup(s, src);
    if cur_src matches Some(TargetView::Direct(_)) && type_change == Policy::Abort {
        Err(UpdateErrorView::TypeChange { name: src })
    } else if cur_src matches Some(TargetView::Direct(_)) && type_change == Policy::Reject {
        Ok(Step::Reject)
    } else {
        match lookup(s, dst) {
            Some(TargetView::Symbolic(x)) => Err(UpdateErrorView::TargetSymbolic { name: x }),
            None => Ok(
                Step::Edits(
                    seq![
                        set_edit(dst, TargetView::Direct(dst_oid), ExpectedView::MustNotExist, force),
                        set_edit(src, TargetView::Symbolic(dst), ExpectedView::MustNotExist, force),
                    ],
                ),
            ),
            Some(TargetView::Direct(cur)) => {
                let first = if dst_oid != cur && odb.ff(dst_oid, cur) {
                    seq![
                        set_edit(
                            dst,
                            TargetView::Direct(dst_oid),
                            ExpectedView::MustMatch(TargetView::Direct(cur)),
                            force,
                        ),
                    ]
                } else {
                    Seq::empty()
                };
                let expected = match cur_src {
                    Some(t) => ExpectedView::MustMatch(t),
                    None => ExpectedView::MustNotExist,
                };
                Ok(Step::Edits(first.push(set_edit(src, TargetView::Symbolic(dst), expected, force))))
            },
        }
    }
}

/// How one update is classified against the snapshot `s`.
pub open spec fn classify(s: Seq<EntryView>, odb: Odb, u: UpdateView) -> Result<Step, UpdateErrorView> {
    match u {
        UpdateView::Direct { name, target, no_ff } => classify_direct(s, odb, name, target, no_ff),
        UpdateView::Symbolic { name, dst, dst_oid, type_change } => classify_symbolic(
            s,
            odb,
            name,
            dst,
            dst_oid,
            type_change,
        ),
        UpdateView::Prune { name, prev } => Ok(
            Step::Edits(
                seq![
                    EditView {
                        name,
                        change: ChangeView::Delete,
                        expected: ExpectedView::MustMatch(prev),
                        force_reflog: false,
                    },
                ],
            ),
        ),
    }
}

/// The rejected updates and the edits of a batch, each update classified
/// against the same snapshot; the first failing update decides the error.
pub open spec fn plan(s: Seq<EntryView>, odb: Odb, ups: Seq<UpdateView>) -> Result<
    (Seq<UpdateView>, Seq<EditView>),
    UpdateErrorView,
>
    decreases ups.len(),
{
    if ups.len() == 0 {
        Ok((Seq::empty(), Seq::empty()))
    } else {
        match plan(s, odb, ups.drop_last()) {
            Err(e) => Err(e),
            Ok((rj, es)) => match classify(s, odb, ups.last()) {
                Err(e) => Err(e),
                Ok(Step::Reject) => Ok((rj.push(ups.last()), es)),
                Ok(Step::Edits(x)) => Ok((rj, es + x)),
            },
        }
    }
}

pub open spec fn expectation_holds(s: Seq<EntryView>, e: EditView) -> bool {
    match e.expected {
        ExpectedView::MustNotExist => lookup(s, e.name) is None,
        ExpectedView::MustMatch(t) => lookup(s, e.name) == Some(t),
    }
}

/// Index of the first edit whose expectation fails, or `es.len()`.
pub open spec fn first_mismatch(s: Seq<EntryView>, es: Seq<EditView>, from: int) -> int
    decreases es.len() - from,
{
    if from >= es.len() {
        es.len() as int
    } else if !expectation_holds(s, es[from]) {
        from
    } else {
        first_mismatch(s, es, from + 1)
    }
}

pub proof fn lemma_first_mismatch_bound(s: Seq<EntryView>, es: Seq<EditView>, from: int)
    ensures
        first_mismatch(s, es, from) <= es.len() || from > es.len(),
    decreases es.len() - from,
{
    if from < es.len() && expectation_holds(s, es[from]) {
        lemma_first_mismatch_bound(s, es, from + 1);
    }
}

pub open spec fn edit_entry(e: EditView) -> EntryView {
    EntryView {
        name: e.name,
        target: match e.change {
            ChangeView::Write(t) => Some(t),
            ChangeView::Delete => None,
        },
    }
}

pub open spec fn edit_updated(e: EditView) -> UpdatedView {
    match e.change {
        ChangeView::Write(TargetView::Direct(o)) => UpdatedView::Direct { name: e.name, target: o },
        ChangeView::Write(TargetView::Symbolic(t)) => UpdatedView::Symbolic { name: e.name, target: t },
        ChangeView::Delete => UpdatedView::Prune { name: e.name },
    }
}

/// The snapshot after a committed batch of edits.
pub open spec fn apply_edits(s: Seq<EntryView>, es: Seq<EditView>) -> Seq<EntryView> {
    s + es.map_values(|e: EditView| edit_entry(e))
}

/// A live reference, as a scan yields it.
pub struct Ref {
    pub name: Vec<u8>,
    pub target: Target,
    /// The object the reference resolves to; `None` for a dangling symbolic one.
    pub peeled: Option<Oid>,
}

pub struct RefView {
    pub name: Seq<u8>,
    pub target: TargetView,
    pub peeled: Option<Oid>,
}

impl Ref {
    pub open spec fn view(&self) -> RefView {
        RefView { name: self.name@, target: self.target@, peeled: self.peeled }
    }
}

pub open spec fn refs_view(v: Seq<Ref>) -> Seq<RefView> {
    v.map_values(|r: Ref| r@)
}

/// Record `i` is the last record of its name.
pub open spec fn is_last_record(s: Seq<EntryView>, i: int) -> bool {
    forall|k: int| i < k < s.len() ==> s[k].name != s[i].name
}

/// The live references among the first `n` records whose names start with `p`.
pub open spec fn scan_upto(s: Seq<EntryView>, p: Seq<u8>, n: int) -> Seq<RefView>
    decreases n,
{
    if n <= 0 {
        Seq::empty()
    } else {
        let prev = scan_upto(s, p, n - 1);
        let e = s[n - 1];
        match e.target {
            Some(t) => if has_prefix(e.name, p) && is_last_record(s, n - 1) {
                prev.push(RefView { name: e.name, target: t, peeled: peel(s, e.name) })
            } else {
                prev
            },
            None => prev,
        }
    }
}

/// The last record of a name decides its lookup.
pub proof fn lemma_last_record_lookup(s: Seq<EntryView>, i: int)
    requires
        0 <= i < s.len(),
        is_last_record(s, i),
    ensures
        lookup(s, s[i].name) == s[i].target,
    decreases s.len(),
{
    if i < s.len() - 1 {
        assert(s.last().name != s[i].name);
        let d = s.drop_last();
        assert(d[i] == s[i]);
        lemma_last_record_lookup(d, i);
    }
}

/// Every reference a scan yields is live, under the prefix, and resolves as
/// the snapshot says.
pub proof fn lemma_scan_sound(s: Seq<EntryView>, p: Seq<u8>, n: int, k: int)
    requires
        0 <= n <= s.len(),
        0 <= k < scan_upto(s, p, n).len(),
    ensures
        has_prefix(scan_upto(s, p, n)[k].name, p),
        lookup(s, scan_upto(s, p, n)[k].name) == Some(scan_upto(s, p, n)[k].target),
        scan_upto(s, p, n)[k].peeled == peel(s, scan_upto(s, p, n)[k].name),
    decreases n,
{
    let prev = scan_upto(s, p, n - 1);
    if k < prev.len() {
        lemma_scan_sound(s, p, n - 1, k);
    } else {
        lemma_last_record_lookup(s, n - 1);
    }
}

/// The reference database of one repository: a snapshot and the object facts.
pub struct Refdb {
    pub info: UserInfo,
    pub odb: Odb,
    pub entries: Vec<Entry>,
}


/// One update's edits, `None` where it is rejected.
pub type EditsOutcome = Result<Option<Vec<Edit>>, UpdateError>;

/// The ancestry question one update raises: for a direct update of a
/// reference that resolves, whether its target descends from the current
/// object; for a symbolic update whose target is direct, whether the new
/// object descends from the target's.
pub open spec fn ancestry_query(s: Seq<EntryView>, u: UpdateView) -> Option<(Oid, Oid)> {
    match u {
        UpdateView::Direct { name, target, .. } => match peel(s, name) {
            Some(prev) => Some((target, prev)),
            None => None,
        },
        UpdateView::Symbolic { dst, dst_oid, .. } => match lookup(s, dst) {
            Some(TargetView::Direct(cur)) => Some((dst_oid, cur)),
            _ => None,
        },
        UpdateView::Prune { .. } => None,
    }
}

/// Every pair of `qs` is the ancestry question of one of `ups`.
pub open spec fn queries_sound(s: Seq<EntryView>, ups: Seq<UpdateView>, qs: Seq<(Oid, Oid)>) -> bool {
    forall|k: int| #![trigger qs[k]] 0 <= k < qs.len() ==> exists|j: int|
        0 <= j < ups.len() && ancestry_query(s, #[trigger] ups[j]) == Some(qs[k])
}

/// Whether an exec classification is the one the spec gives.
pub open spec fn step_matches(
    r: Result<Option<Vec<Edit>>, UpdateError>,
    x: Result<Step, UpdateErrorView>,
) -> bool {
    match (r, x) {
        (Err(e), Err(v)) => e@ == v,
        (Ok(None), Ok(Step::Reject)) => true,
        (Ok(Some(es)), Ok(Step::Edits(v))) => edits_view(es@) == v,
        _ => false,
    }
}

pub fn force_reflog_exec(name: &[u8]) -> (r: bool)
    ensures
        r == force_reflog(name@),
{
    match split_namespaced(name) {
        None => false,
        Some(rest) => {
            let rad = rad_bytes();
            starts_with(rest.as_slice(), rad.as_slice())
        },
    }
}

fn targets_eq(a: &Target, b: &Target) -> (r: bool)
    ensures
        r == (a@ == b@),
{
    match (a, b) {
        (Target::Direct(x), Target::Direct(y)) => x.same(y),
        (Target::Symbolic(x), Target::Symbolic(y)) => bytes_eq(x.as_slice(), y.as_slice()),
        _ => false,
    }
}

/// Once a prefix of a batch fails, every longer prefix fails the same way.
proof fn lemma_plan_err_extends(s: Seq<EntryView>, odb: Odb, ups: Seq<UpdateView>, n: int)
    requires
        0 < n <= ups.len(),
        plan(s, odb, ups.subrange(0, n)) is Err,
    ensures
        plan(s, odb, ups) == plan(s, odb, ups.subrange(0, n)),
    decreases ups.len() - n,
{
    if n < ups.len() {
        assert(ups.subrange(0, n + 1).drop_last() =~= ups.subrange(0, n));
        lemma_plan_err_extends(s, odb, ups, n + 1);
    } else {
        assert(ups.subrange(0, n) =~= ups);
    }
}

fn copy_target_view(t: &Target) -> (r: Target)
    ensures
        r@ == t@,
{
    t.copy()
}

fn write_edit(name: &Vec<u8>, t: Target, e: Expected, force: bool) -> (r: Edit)
    ensures
        r@ == set_edit(name@, t@, e@, force),
{
    Edit { name: copy_bytes(name), change: Change::Write(t), expected: e, force_reflog: force }
}

impl Refdb {
    /// The snapshot, as the sequence of its records.
    pub open spec fn snapshot(&self) -> Seq<EntryView> {
        entries_view(self.entries@)
    }

    /// A database over a snapshot given as records (the last record of a name
    /// wins) and the object facts of the exchange.
    pub fn new(info: UserInfo, odb: Odb, entries: Vec<Entry>) -> (r: Refdb)
        ensures
            r.snapshot() == entries_view(entries@),
            r.info == info,
            r.odb == odb,
    {
        Refdb { info, odb, entries }
    }

    /// Takes a fresh snapshot, as read again from storage.
    pub fn reload(&mut self, entries: Vec<Entry>)
        ensures
            final(self).snapshot() == entries_view(entries@),
            final(self).odb == old(self).odb,
            final(self).info == old(self).info,
    {
        self.entries = entries;
    }

    pub fn contains(&self, oid: &Oid) -> (r: bool)
        ensures
            r == self.odb.has(*oid),
    {
        self.odb.contains(oid)
    }

    /// The current target of `name`.
    pub fn find(&self, name: &[u8]) -> (r: Option<&Target>)
        ensures
            match r {
                Some(t) => lookup(self.snapshot(), name@) == Some(t@),
                None => lookup(self.snapshot(), name@) is None,
            },
    {
        let ghost sv = self.snapshot();
        let mut i = self.entries.len();
        assert(sv.subrange(0, i as int) =~= sv);
        while i > 0
            invariant
                i <= self.entries@.len(),
                sv == entries_view(self.entries@),
                lookup(sv, name@) == lookup(sv.subrange(0, i as int), name@),
            decreases i,
        {
            let e = &self.entries[i - 1];
            let ghost sub = sv.subrange(0, i as int);
            assert(sub.last() == e@);
            assert(sub.drop_last() =~= sv.subrange(0, i - 1));
            if bytes_eq(e.name.as_slice(), name) {
                return match &e.target {
                    Some(t) => Some(t),
                    None => None,
                };
            }
            i = i - 1;
        }
        None
    }

    /// The object `name` resolves to.
    pub fn refname_to_id(&self, name: &[u8]) -> (r: Option<Oid>)
        ensures
            r == peel(self.snapshot(), name@),
    {
        match self.find(name) {
            None => None,
            Some(Target::Direct(o)) => Some(*o),
            Some(Target::Symbolic(d)) => match self.find(d.as_slice()) {
                Some(Target::Direct(o)) => Some(*o),
                _ => None,
            },
        }
    }

    fn direct_edit(&self, name: &Vec<u8>, target: Oid, no_ff: Policy) -> (r: EditsOutcome)
        ensures
            step_matches(r, classify_direct(self.snapshot(), self.odb, name@, target, no_ff)),
    {
        let force = force_reflog_exec(name.as_slice());
        let exists = self.find(name.as_slice()).is_some();
        if !exists {
            let e = write_edit(name, Target::Direct(target), Expected::MustNotExist, force);
            let v = vec![e];
            assert(edits_view(v@) =~= seq![e@]);
            return Ok(Some(v));
        }
        match self.refname_to_id(name.as_slice()) {
            None => Err(UpdateError::Dangling { name: copy_bytes(name) }),
            Some(prev) => {
                let e = write_edit(
                    name,
                    Target::Direct(target),
                    Expected::MustMatch(Target::Direct(prev)),
                    force,
                );
                if self.odb.is_in_ancestry_path(target, prev) {
                    let v = vec![e];
                    assert(edits_view(v@) =~= seq![e@]);
                    Ok(Some(v))
                } else {
                    match no_ff {
                        Policy::Abort => Err(
                            UpdateError::NonFastForward { name: copy_bytes(name), new: target, cur: prev },
                        ),
                        Policy::Reject => Ok(None),
                        Policy::Allow => {
                            let v = vec![e];
                            assert(edits_view(v@) =~= seq![e@]);
                            Ok(Some(v))
                        },
                    }
                }
            },
        }
    }

    fn symbolic_edit(&self, src: &Vec<u8>, target: &SymrefTarget, type_change: Policy) -> (r: EditsOutcome)
        ensures
            step_matches(
                r,
                classify_symbolic(
                    self.snapshot(),
                    self.odb,
                    src@,
                    target.name@,
                    target.target,
                    type_change,
                ),
            ),
    {
        let cur_src = self.find(src.as_slice());
        let src_direct = match cur_src {
            Some(Target::Direct(_)) => true,
            _ => false,
        };
        if src_direct && type_change == Policy::Abort {
            return Err(UpdateError::TypeChange { name: copy_bytes(src) });
        }
        if src_direct && type_change == Policy::Reject {
            return Ok(None);
        }
        let dst = &target.name;
        let force = force_reflog_exec(dst.as_slice());
        match self.find(dst.as_slice()) {
            Some(Target::Symbolic(x)) => Err(UpdateError::TargetSymbolic { name: copy_bytes(x) }),
            None => {
                let e1 = write_edit(dst, Target::Direct(target.target), Expected::MustNotExist, force);
                let e2 = write_edit(src, Target::Symbolic(copy_bytes(dst)), Expected::MustNotExist, force);
                let v = vec![e1, e2];
                assert(edits_view(v@) =~= seq![e1@, e2@]);
                Ok(Some(v))
            },
            Some(Target::Direct(cur)) => {
                let cur = *cur;
                let mut v: Vec<Edit> = Vec::new();
                if !target.target.same(&cur) && self.odb.is_in_ancestry_path(target.target, cur) {
                    let e1 = write_edit(
                        dst,
                        Target::Direct(target.target),
                        Expected::MustMatch(Target::Direct(cur)),
                        force,
                    );
                    v.push(e1);
                }
                let expected = match cur_src {
                    Some(t) => Expected::MustMatch(copy_target_view(t)),
                    None => Expected::MustNotExist,
                };
                let e2 = write_edit(src, Target::Symbolic(copy_bytes(dst)), expected, force);
                let ghost before = edits_view(v@);
                v.push(e2);
                assert(edits_view(v@) =~= before.push(e2@));
                proof {
                    let first = if target.target != cur && self.odb.ff(target.target, cur) {
                        seq![
                            set_edit(
                                dst@,
                                TargetView::Direct(target.target),
                                ExpectedView::MustMatch(TargetView::Direct(cur)),
                                force,
                            ),
                        ]
                    } else {
                        Seq::<EditView>::empty()
                    };
                    assert(before =~= first);
                }
                Ok(Some(v))
            },
        }
    }

    /// Whether record `i` is the last record of its name.
    fn is_last(&self, i: usize) -> (r: bool)
        requires
            i < self.entries@.len(),
        ensures
            r == is_last_record(self.snapshot(), i as int),
    {
        let n = self.entries.len();
        let mut j = i + 1;
        while j < n
            invariant
                i < j <= self.entries@.len(),
                n == self.entries@.len(),
                forall|k: int| i < k < j ==> self.snapshot()[k].name != self.snapshot()[i as int].name,
            decreases self.entries@.len() - j,
        {
            if bytes_eq(self.entries[j].name.as_slice(), self.entries[i].name.as_slice()) {
                assert(self.snapshot()[j as int].name == self.snapshot()[i as int].name);
                return false;
            }
            j = j + 1;
        }
        true
    }

    /// The live references whose names start with `prefix`, in record order.
    pub fn scan(&self, prefix: &[u8]) -> (r: Vec<Ref>)
        ensures
            refs_view(r@) == scan_upto(self.snapshot(), prefix@, self.snapshot().len() as int),
    {
        let mut out: Vec<Ref> = Vec::new();
        let mut i: usize = 0;
        while i < self.entries.len()
            invariant
                0 <= i <= self.entries@.len(),
                refs_view(out@) == scan_upto(self.snapshot(), prefix@, i as int),
            decreases self.entries@.len() - i,
        {
            let ghost before = refs_view(out@);
            let e = &self.entries[i];
            assert(self.snapshot()[i as int] == e@);
            if let Some(t) = &e.target {
                if starts_with(e.name.as_slice(), prefix) && self.is_last(i) {
                    let peeled = self.refname_to_id(e.name.as_slice());
                    let r = Ref { name: copy_bytes(&e.name), target: t.copy(), peeled };
                    out.push(r);
                    assert(refs_view(out@) =~= before.push(r@));
                }
            }
            i = i + 1;
        }
        out
    }

    /// The `(new, old)` object pairs whose ancestry a transaction over
    /// `updates` asks the object store about.
    pub fn ancestry_queries(&self, updates: &Vec<Update>) -> (r: Vec<(Oid, Oid)>)
        ensures
            forall|i: int| 0 <= i < updates@.len() ==> (#[trigger] ancestry_query(self.snapshot(), updates@[i]@)
                matches Some(q) ==> r@.contains(q)),
            queries_sound(self.snapshot(), crate::update::updates_view(updates@), r@),
    {
        let mut out: Vec<(Oid, Oid)> = Vec::new();
        let mut i: usize = 0;
        while i < updates.len()
            invariant
                0 <= i <= updates@.len(),
                forall|j: int| 0 <= j < i ==> (#[trigger] ancestry_query(self.snapshot(), updates@[j]@)
                    matches Some(q) ==> out@.contains(q)),
                queries_sound(self.snapshot(), crate::update::updates_view(updates@), out@),
            decreases updates@.len() - i,
        {
            let q = match &updates[i] {
                Update::Direct { name, target, .. } => match self.refname_to_id(name.as_slice()) {
                    Some(prev) => Some((*target, prev)),
                    None => None,
                },
                Update::Symbolic { target, .. } => match self.find(target.name.as_slice()) {
                    Some(Target::Direct(cur)) => Some((target.target, *cur)),
                    _ => None,
                },
                Update::Prune { .. } => None,
            };
            assert(q == ancestry_query(self.snapshot(), updates@[i as int]@));
            let ghost o0 = out@;
            if let Some(pair) = q {
                out.push(pair);
                assert(out@[o0.len() as int] == pair);
                assert forall|j: int| 0 <= j < i + 1 implies (#[trigger] ancestry_query(self.snapshot(), updates@[j]@)
                    matches Some(x) ==> out@.contains(x)) by {
                    if j < i {
                        if let Some(x) = ancestry_query(self.snapshot(), updates@[j]@) {
                            let m = choose|m: int| 0 <= m < o0.len() && o0[m] == x;
                            assert(out@[m] == x);
                        }
                    }
                }
                let ghost uv = crate::update::updates_view(updates@);
                assert forall|k: int| #![trigger out@[k]] 0 <= k < out@.len() implies exists|j: int|
                    0 <= j < uv.len() && ancestry_query(self.snapshot(), #[trigger] uv[j]) == Some(out@[k]) by {
                    if k < o0.len() {
                        assert(out@[k] == o0[k]);
                    } else {
                        assert(uv[i as int] == updates@[i as int]@);
                        assert(ancestry_query(self.snapshot(), uv[i as int]) == Some(out@[k]));
                    }
                }
            }
            i = i + 1;
        }
        out
    }

    fn expectation_ok(&self, e: &Edit) -> (r: bool)
        ensures
            r == expectation_holds(self.snapshot(), e@),
    {
        match &e.expected {
            Expected::MustNotExist => self.find(e.name.as_slice()).is_none(),
            Expected::MustMatch(t) => match self.find(e.name.as_slice()) {
                None => false,
                Some(cur) => targets_eq(cur, t),
            },
        }
    }

    /// Runs one transaction over `updates`. Each update is classified against
    /// the snapshot as it was before the call; the first update that fails
    /// under its policy fails the whole call, and then nothing changes. Edits
    /// whose expected prior value does not hold fail it too. Otherwise the
    /// snapshot takes every edit, in order.
    pub fn update(&mut self, updates: Vec<Update>) -> (r: Result<Applied, UpdateError>)
        ensures
            final(self).odb == old(self).odb,
            final(self).info == old(self).info,
            match plan(old(self).snapshot(), old(self).odb, updates_view(updates@)) {
                Err(e) => r matches Err(x) && x@ == e && final(self).snapshot() == old(self).snapshot(),
                Ok((rj, es)) => if first_mismatch(old(self).snapshot(), es, 0) < es.len() {
                    &&& r matches Err(x) && x@ == (UpdateErrorView::Mismatch {
                        name: es[first_mismatch(old(self).snapshot(), es, 0)].name,
                    })
                    &&& final(self).snapshot() == old(self).snapshot()
                } else {
                    &&& r matches Ok(a) && updates_view(a.rejected@) == rj && updated_view(
                        a.updated@,
                    ) == es.map_values(|e: EditView| edit_updated(e))
                    &&& final(self).snapshot() == apply_edits(old(self).snapshot(), es)
                },
            },
    {
        let ghost s0 = self.snapshot();
        let ghost uv = updates_view(updates@);
        let mut rejected: Vec<Update> = Vec::new();
        let mut edits: Vec<Edit> = Vec::new();
        let mut i: usize = 0;
        assert(uv.subrange(0, 0) =~= Seq::<UpdateView>::empty());
        assert(updates_view(rejected@) =~= Seq::<UpdateView>::empty());
        assert(edits_view(edits@) =~= Seq::<EditView>::empty());
        while i < updates.len()
            invariant
                0 <= i <= updates@.len(),
                s0 == self.snapshot(),
                uv == updates_view(updates@),
                plan(s0, self.odb, uv.subrange(0, i as int)) == Ok::<
                    (Seq<UpdateView>, Seq<EditView>),
                    UpdateErrorView,
                >((updates_view(rejected@), edits_view(edits@))),
            decreases updates@.len() - i,
        {
            let ghost sub = uv.subrange(0, i + 1);
            assert(sub.drop_last() =~= uv.subrange(0, i as int));
            assert(sub.last() == updates@[i as int]@);
            match self.to_edits(&updates[i]) {
                Err(e) => {
                    proof {
                        lemma_plan_err_extends(s0, self.odb, uv, i as int + 1);
                    }
                    return Err(e);
                },
                Ok(None) => {
                    let u = updates[i].copy();
                    let ghost before = updates_view(rejected@);
                    rejected.push(u);
                    assert(updates_view(rejected@) =~= before.push(u@));
                },
                Ok(Some(mut v)) => {
                    let ghost before = edits_view(edits@);
                    let ghost add = edits_view(v@);
                    edits.append(&mut v);
                    assert(edits_view(edits@) =~= before + add);
                },
            }
            i = i + 1;
        }
        assert(uv.subrange(0, updates@.len() as int) =~= uv);
        let ghost es = edits_view(edits@);
        let mut k: usize = 0;
        while k < edits.len()
            invariant
                0 <= k <= edits@.len(),
                s0 == self.snapshot(),
                es == edits_view(edits@),
                first_mismatch(s0, es, 0) == first_mismatch(s0, es, k as int),
                plan(s0, self.odb, uv) == Ok::<(Seq<UpdateView>, Seq<EditView>), UpdateErrorView>(
                    (updates_view(rejected@), es),
                ),
                uv == updates_view(updates@),
            decreases edits@.len() - k,
        {
            if !self.expectation_ok(&edits[k]) {
                assert(es[k as int] == edits@[k as int]@);
                assert(first_mismatch(s0, es, k as int) == k);
                return Err(UpdateError::Mismatch { name: copy_bytes(&edits[k].name) });
            }
            assert(es[k as int] == edits@[k as int]@);
            k = k + 1;
        }
        let mut updated: Vec<Updated> = Vec::new();
        let mut j: usize = 0;
        assert(es.subrange(0, 0) =~= Seq::<EditView>::empty());
        assert(apply_edits(s0, es.subrange(0, 0)) =~= s0);
        assert(updated_view(updated@) =~= Seq::<UpdatedView>::empty());
        while j < edits.len()
            invariant
                0 <= j <= edits@.len(),
                es == edits_view(edits@),
                self.snapshot() == apply_edits(s0, es.subrange(0, j as int)),
                updated_view(updated@) == es.subrange(0, j as int).map_values(
                    |e: EditView| edit_updated(e),
                ),
                self.odb == old(self).odb,
                self.info == old(self).info,
                plan(s0, self.odb, uv) == Ok::<(Seq<UpdateView>, Seq<EditView>), UpdateErrorView>(
                    (updates_view(rejected@), es),
                ),
                uv == updates_view(updates@),
                first_mismatch(s0, es, 0) == es.len(),
            decreases edits@.len() - j,
        {
            let e = &edits[j];
            let entry = Entry {
                name: copy_bytes(&e.name),
                target: match &e.change {
                    Change::Write(t) => Some(t.copy()),
                    Change::Delete => None,
                },
            };
            let up = match &e.change {
                Change::Write(Target::Direct(o)) => Updated::Direct { name: copy_bytes(&e.name), target: *o },
                Change::Write(Target::Symbolic(t)) => Updated::Symbolic {
                    name: copy_bytes(&e.name),
                    target: copy_bytes(t),
                },
                Change::Delete => Updated::Prune { name: copy_bytes(&e.name) },
            };
            let ghost prev_s = self.snapshot();
            let ghost prev_u = updated_view(updated@);
            assert(entry@ == edit_entry(es[j as int]));
            assert(up@ == edit_updated(es[j as int]));
            self.entries.push(entry);
            updated.push(up);
            assert(es.subrange(0, j + 1) =~= es.subrange(0, j as int).push(es[j as int]));
            assert(self.snapshot() =~= prev_s.push(entry@));
            assert(self.snapshot() =~= apply_edits(s0, es.subrange(0, j + 1)));
            assert(updated_view(updated@) =~= prev_u.push(up@));
            assert(updated_view(updated@) =~= es.subrange(0, j + 1).map_values(
                |e: EditView| edit_updated(e),
            ));
            j = j + 1;
        }
        assert(es.subrange(0, edits@.len() as int) =~= es);
        Ok(Applied { rejected, updated })
    }

    fn to_edits(&self, u: &Update) -> (r: EditsOutcome)
        ensures
            step_matches(r, classify(self.snapshot(), self.odb, u@)),
    {
        match u {
            Update::Direct { name, target, no_ff } => self.direct_edit(name, *target, *no_ff),
            Update::Symbolic { name, target, type_change } => self.symbolic_edit(
                name,
                target,
                *type_change,
            ),
            Update::Prune { name, prev } => {
                let e = Edit {
                    name: copy_bytes(name),
                    change: Change::Delete,
                    expected: Expected::MustMatch(prev.copy()),
                    force_reflog: false,
                };
                let v = vec![e];
                assert(edits_view(v@) =~= seq![e@]);
                Ok(Some(v))
            },
        }
    }
}


/// A transaction over `ups` commits: no update fails under its policy and
/// every edit's expectation holds.
pub open spec fn commits(s: Seq<EntryView>, odb: Odb, ups: Seq<UpdateView>) -> bool {
    match plan(s, odb, ups) {
        Ok((_, es)) => first_mismatch(s, es, 0) == es.len(),
        Err(_) => false,
    }
}

/// The snapshot after a committed transaction.
pub open spec fn after(s: Seq<EntryView>, odb: Odb, ups: Seq<UpdateView>) -> Seq<EntryView> {
    match plan(s, odb, ups) {
        Ok((_, es)) => apply_edits(s, es),
        Err(_) => s,
    }
}

proof fn lemma_single_direct(s: Seq<EntryView>, odb: Odb, name: Seq<u8>, a: Oid, b: Oid, p: Policy)
    requires
        lookup(s, name) == Some(TargetView::Direct(a)),
        odb.ff(b, a) || p == Policy::Allow,
    ensures
        commits(s, odb, seq![UpdateView::Direct { name, target: b, no_ff: p }]),
        peel(after(s, odb, seq![UpdateView::Direct { name, target: b, no_ff: p }]), name) == Some(b),
        plan(s, odb, seq![UpdateView::Direct { name, target: b, no_ff: p }]) matches Ok((rj, _))
            && rj.len() == 0,
{
    let u = UpdateView::Direct { name, target: b, no_ff: p };
    let ups = seq![u];
    assert(ups.drop_last() =~= Seq::<UpdateView>::empty());
    assert(ups.last() == u);
    let e = set_edit(name, TargetView::Direct(b), ExpectedView::MustMatch(TargetView::Direct(a)), force_reflog(name));
    assert(classify(s, odb, u) == Ok::<Step, UpdateErrorView>(Step::Edits(seq![e])));
    assert(plan(s, odb, ups.drop_last()) == Ok::<(Seq<UpdateView>, Seq<EditView>), UpdateErrorView>(
        (Seq::empty(), Seq::empty()),
    ));
    let es = Seq::<EditView>::empty() + seq![e];
    assert(es =~= seq![e]);
    assert(plan(s, odb, ups) == Ok::<(Seq<UpdateView>, Seq<EditView>), UpdateErrorView>((Seq::empty(), es)));
    assert(expectation_holds(s, es[0]));
    assert(first_mismatch(s, es, 1) == 1);
    let s2 = apply_edits(s, es);
    assert(s2 =~= s.push(edit_entry(e)));
    assert(s2.last() == edit_entry(e));
    assert(lookup(s2, name) == Some(TargetView::Direct(b)));
}

/// Fast-forward discipline: a single direct update under `Policy::Abort` of a
/// reference that holds `a` commits iff `b` is `a` or has `a` as an ancestor;
/// then the reference resolves to `b`.
pub proof fn lemma_fast_forward_discipline(s: Seq<EntryView>, odb: Odb, name: Seq<u8>, a: Oid, b: Oid)
    requires
        lookup(s, name) == Some(TargetView::Direct(a)),
    ensures
        commits(s, odb, seq![UpdateView::Direct { name, target: b, no_ff: Policy::Abort }])
            <==> odb.ff(b, a),
        odb.ff(b, a) ==> peel(
            after(s, odb, seq![UpdateView::Direct { name, target: b, no_ff: Policy::Abort }]),
            name,
        ) == Some(b),
{
    if odb.ff(b, a) {
        lemma_single_direct(s, odb, name, a, b, Policy::Abort);
    } else {
        let u = UpdateView::Direct { name, target: b, no_ff: Policy::Abort };
        let ups = seq![u];
        assert(ups.drop_last() =~= Seq::<UpdateView>::empty());
        assert(ups.last() == u);
        assert(classify(s, odb, u) is Err);
    }
}

/// Allow forces: a single direct update under `Policy::Allow` commits even
/// where it is no fast-forward, rejects nothing, and the reference then
/// resolves to `b`.
pub proof fn lemma_allow_forces(s: Seq<EntryView>, odb: Odb, name: Seq<u8>, a: Oid, b: Oid)
    requires
        lookup(s, name) == Some(TargetView::Direct(a)),
    ensures
        commits(s, odb, seq![UpdateView::Direct { name, target: b, no_ff: Policy::Allow }]),
        peel(after(s, odb, seq![UpdateView::Direct { name, target: b, no_ff: Policy::Allow }]), name)
            == Some(b),
        plan(s, odb, seq![UpdateView::Direct { name, target: b, no_ff: Policy::Allow }]) matches Ok(
            (rj, _),
        ) && rj.len() == 0,
{
    lemma_single_direct(s, odb, name, a, b, Policy::Allow);
}

/// An update that conflicts with the snapshot under a `Reject` policy: a
/// direct update that is no fast-forward, or a symbolic update of a direct
/// reference.
pub open spec fn rejected_conflict(s: Seq<EntryView>, odb: Odb, u: UpdateView) -> bool {
    match u {
        UpdateView::Direct { name, target, no_ff } => no_ff == Policy::Reject && lookup(s, name) is Some
            && match peel(s, name) {
            Some(prev) => !odb.ff(target, prev),
            None => false,
        },
        UpdateView::Symbolic { name, type_change, .. } => type_change == Policy::Reject && lookup(
            s,
            name,
        ) matches Some(TargetView::Direct(_)),
        UpdateView::Prune { .. } => false,
    }
}

/// Reject does not fail: a conflicting update under a `Reject` policy lands in
/// the rejected list, and the batch fails or commits exactly as it would
/// without it, with the same edits.
pub proof fn lemma_reject_does_not_fail(s: Seq<EntryView>, odb: Odb, ups: Seq<UpdateView>, i: int)
    requires
        0 <= i < ups.len(),
        rejected_conflict(s, odb, ups[i]),
    ensures
        match plan(s, odb, ups) {
            Ok((rj, es)) => rj.contains(ups[i]) && match plan(s, odb, ups.remove(i)) {
                Ok((_, es2)) => es2 == es,
                Err(_) => false,
            },
            Err(e) => plan(s, odb, ups.remove(i)) == Err::<(Seq<UpdateView>, Seq<EditView>), UpdateErrorView>(e),
        },
    decreases ups.len(),
{
    assert(classify(s, odb, ups[i]) == Ok::<Step, UpdateErrorView>(Step::Reject));
    if i == ups.len() - 1 {
        assert(ups.remove(i) =~= ups.drop_last());
        if let Ok((rj, es)) = plan(s, odb, ups) {
            assert(rj.last() == ups[i]);
            assert(rj.contains(ups[i]));
        }
    } else {
        let d = ups.drop_last();
        assert(d[i] == ups[i]);
        lemma_reject_does_not_fail(s, odb, d, i);
        assert(ups.remove(i).drop_last() =~= d.remove(i));
        assert(ups.remove(i).last() == ups.last());
        if let Ok((rj, es)) = plan(s, odb, ups) {
            if let Ok((rj0, es0)) = plan(s, odb, d) {
                assert(rj0.contains(ups[i]));
                let k = choose|k: int| 0 <= k < rj0.len() && rj0[k] == ups[i];
                match classify(s, odb, ups.last()) {
                    Ok(Step::Reject) => {
                        assert(rj == rj0.push(ups.last()));
                        assert(rj[k] == ups[i]);
                    },
                    _ => {},
                }
            }
        }
    }
}

/// A direct update under `Policy::Abort` that is no fast-forward.
pub open spec fn abort_conflict(s: Seq<EntryView>, odb: Odb, u: UpdateView) -> bool {
    match u {
        UpdateView::Direct { name, target, no_ff } => no_ff == Policy::Abort && lookup(s, name) is Some
            && match peel(s, name) {
            Some(prev) => !odb.ff(target, prev),
            None => false,
        },
        _ => false,
    }
}

/// Atomicity: where one direct update of a batch under `Policy::Abort` is no
/// fast-forward, the batch fails (and `Refdb::update` then changes nothing).
pub proof fn lemma_atomicity(s: Seq<EntryView>, odb: Odb, ups: Seq<UpdateView>, i: int)
    requires
        0 <= i < ups.len(),
        abort_conflict(s, odb, ups[i]),
    ensures
        plan(s, odb, ups) is Err,
        !commits(s, odb, ups),
    decreases ups.len(),
{
    assert(classify(s, odb, ups[i]) is Err);
    if i < ups.len() - 1 {
        let d = ups.drop_last();
        assert(d[i] == ups[i]);
        lemma_atomicity(s, odb, d, i);
    }
}

} // verus!
