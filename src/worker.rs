//! Worker-side types: fetch requests, their errors, and the tracking
//! decision for a repository.
use vstd::prelude::*;

use crate::oid::{Oid, PublicKey};
use crate::pktline::RepoId;
use crate::refdb::{Refdb, peel};
use crate::refs::{copy_bytes, namespace_key, namespace_of};
use crate::stage::contains_key;
use crate::update::{Updated, UpdatedView, updated_view};
use crate::stage::{Scope, TrackedRemotes};

verus! {

/// The kind of an I/O failure, as far as the worker tells them apart.
#[derive(Clone, Copy, Debug, PartialEq, Eq, Structural)]
pub enum IoErrorKind {
    TimedOut,
    UnexpectedEof,
    InvalidInput,
    Other,
}

/// Why a fetch failed.
#[derive(Clone, Copy, Debug, PartialEq, Eq, Structural)]
pub enum FetchError {
    CommandFailed { code: i32 },
    Io(IoErrorKind),
    Staging,
    Fetch,
    Handle,
    Identity,
    Storage,
    Tracking,
}

impl FetchError {
    /// Whether it is a timeout.
    pub fn is_timeout(&self) -> (r: bool)
        ensures
            r == (*self == FetchError::Io(IoErrorKind::TimedOut)),
    {
        match self {
            FetchError::Io(IoErrorKind::TimedOut) => true,
            _ => false,
        }
    }
}

/// Why serving a fetch failed.
#[derive(Clone, Copy, Debug, PartialEq, Eq, Structural)]
pub enum UploadError {
    DaemonConnectionFailed(IoErrorKind),
    PacketLine(IoErrorKind),
    Io(IoErrorKind),
}

impl UploadError {
    /// Whether it is an end of file.
    pub fn is_eof(&self) -> (r: bool)
        ensures
            r == (*self == UploadError::Io(IoErrorKind::UnexpectedEof)),
    {
        match self {
            UploadError::Io(IoErrorKind::UnexpectedEof) => true,
            _ => false,
        }
    }
}

/// Which namespaces a fetch asks for.
#[derive(Debug)]
pub enum Namespaces {
    All,
    Many(Vec<PublicKey>),
}

/// A fetch job for a worker.
#[derive(Debug)]
pub enum FetchRequest {
    /// This node fetches `namespaces` of `rid` from `remote`.
    Initiator { rid: RepoId, namespaces: Namespaces, remote: PublicKey },
    /// This node serves a fetch of `remote`.
    Responder { remote: PublicKey },
}

impl FetchRequest {
    /// The peer on the other side.
    pub fn remote(&self) -> (r: PublicKey)
        ensures
            r == match self {
                FetchRequest::Initiator { remote, .. } => *remote,
                FetchRequest::Responder { remote } => *remote,
            },
    {
        match self {
            FetchRequest::Initiator { remote, .. } => *remote,
            FetchRequest::Responder { remote } => *remote,
        }
    }
}

/// Data on a worker channel.
#[derive(Debug)]
pub enum ChannelEvent<T> {
    /// Git protocol data.
    Data(T),
    /// A request to close the channel.
    Close,
    /// The git protocol has ended.
    Eof,
}

/// Whether a node or repository is followed or blocked.
#[derive(Clone, Copy, Debug, PartialEq, Eq, Structural)]
pub enum Policy {
    Track,
    Block,
}

/// The policy of a repository.
#[derive(Clone, Copy, Debug)]
pub struct RepoPolicy {
    pub policy: Policy,
    pub scope: Scope,
}

/// What the tracking store holds for a repository; `None` where reading the
/// store failed.
pub struct TrackingConfig {
    pub repo: Option<RepoPolicy>,
    pub nodes: Option<Vec<(PublicKey, Policy)>>,
}

/// What the repository holds; `None` where reading its remotes failed.
pub struct RepositoryInfo {
    pub rid: RepoId,
    pub remotes: Option<Vec<PublicKey>>,
}

/// The context of a fetch: the tracking policy and the repository.
pub struct Context {
    pub config: TrackingConfig,
    pub repository: RepositoryInfo,
}

/// Why the tracking policy of a repository could not be had.
#[derive(Debug)]
pub enum TrackingError {
    FailedPolicy { rid: RepoId },
    BlockedPolicy { rid: RepoId },
    FailedNodes { rid: RepoId },
    Storage,
}

/// The followed nodes among the node policies, in order.
pub open spec fn followed_nodes(ns: Seq<(PublicKey, Policy)>) -> Seq<PublicKey>
    decreases ns.len(),
{
    if ns.len() == 0 {
        Seq::empty()
    } else if ns.last().1 == Policy::Track {
        followed_nodes(ns.drop_last()).push(ns.last().0)
    } else {
        followed_nodes(ns.drop_last())
    }
}

fn copy_rid(r: &RepoId) -> (o: RepoId)
    ensures
        o.text@ == r.text@,
{
    RepoId { text: copy_bytes(&r.text) }
}

impl Context {
    pub fn new(config: TrackingConfig, repository: RepositoryInfo) -> (r: Context)
        ensures
            r.config == config,
            r.repository == repository,
    {
        Context { config, repository }
    }

    /// The remotes to fetch: none where the repository is blocked; every
    /// remote of the repository where all are followed; else the followed
    /// nodes.
    pub fn followed(&self) -> (r: Result<TrackedRemotes, TrackingError>)
        ensures
            match self.config.repo {
                None => r matches Err(TrackingError::FailedPolicy { rid }) && rid.text@
                    == self.repository.rid.text@,
                Some(p) => if p.policy == Policy::Block {
                    r matches Err(TrackingError::BlockedPolicy { rid }) && rid.text@
                        == self.repository.rid.text@
                } else if p.scope == Scope::All {
                    match self.repository.remotes {
                        None => r matches Err(TrackingError::Storage),
                        Some(v) => r matches Ok(t) && t.scope == Scope::All && t.remotes@ == v@,
                    }
                } else {
                    match self.config.nodes {
                        None => r matches Err(TrackingError::FailedNodes { rid }) && rid.text@
                            == self.repository.rid.text@,
                        Some(ns) => r matches Ok(t) && t.scope == Scope::Trusted && t.remotes@
                            == followed_nodes(ns@),
                    }
                },
            },
    {
        let p = match self.config.repo {
            None => {
                return Err(TrackingError::FailedPolicy { rid: copy_rid(&self.repository.rid) });
            },
            Some(p) => p,
        };
        if p.policy == Policy::Block {
            return Err(TrackingError::BlockedPolicy { rid: copy_rid(&self.repository.rid) });
        }
        match p.scope {
            Scope::All => match &self.repository.remotes {
                None => Err(TrackingError::Storage),
                Some(v) => {
                    let mut out: Vec<PublicKey> = Vec::new();
                    let mut i: usize = 0;
                    while i < v.len()
                        invariant
                            0 <= i <= v@.len(),
                            out@ == v@.subrange(0, i as int),
                        decreases v@.len() - i,
                    {
                        out.push(v[i]);
                        assert(out@ =~= v@.subrange(0, i + 1));
                        i = i + 1;
                    }
                    assert(v@.subrange(0, v@.len() as int) =~= v@);
                    Ok(TrackedRemotes { scope: Scope::All, remotes: out })
                },
            },
            Scope::Trusted => match &self.config.nodes {
                None => Err(TrackingError::FailedNodes { rid: copy_rid(&self.repository.rid) }),
                Some(ns) => {
                    let mut out: Vec<PublicKey> = Vec::new();
                    let mut i: usize = 0;
                    assert(ns@.subrange(0, 0) =~= Seq::<(PublicKey, Policy)>::empty());
                    while i < ns.len()
                        invariant
                            0 <= i <= ns@.len(),
                            out@ == followed_nodes(ns@.subrange(0, i as int)),
                        decreases ns@.len() - i,
                    {
                        let ghost sub = ns@.subrange(0, i + 1);
                        assert(sub.drop_last() =~= ns@.subrange(0, i as int));
                        assert(sub.last() == ns@[i as int]);
                        if ns[i].1 == Policy::Track {
                            out.push(ns[i].0);
                        }
                        i = i + 1;
                    }
                    assert(ns@.subrange(0, ns@.len() as int) =~= ns@);
                    Ok(TrackedRemotes { scope: Scope::Trusted, remotes: out })
                },
            },
        }
    }
}


/// A reference change as the node reports it.
#[derive(Debug)]
pub enum RefUpdate {
    Updated { name: Vec<u8>, old: Oid, new: Oid },
    Deleted { name: Vec<u8>, oid: Oid },
}

pub enum RefUpdateView {
    Updated { name: Seq<u8>, old: Oid, new: Oid },
    Deleted { name: Seq<u8>, oid: Oid },
}

impl RefUpdate {
    pub open spec fn view(&self) -> RefUpdateView {
        match self {
            RefUpdate::Updated { name, old, new } => RefUpdateView::Updated { name: name@, old: *old, new: *new },
            RefUpdate::Deleted { name, oid } => RefUpdateView::Deleted { name: name@, oid: *oid },
        }
    }
}

/// The reference changes of a fetch and the namespaces they touched.
pub struct Updates {
    pub refs: Vec<RefUpdate>,
    pub namespaces: Vec<PublicKey>,
}

/// An identifier of all zeros.
pub open spec fn is_zero(o: Oid) -> bool {
    forall|i: int| 0 <= i < 20 ==> o.bytes@[i] == 0u8
}

/// The identifier of all zeros.
pub open spec fn zero_oid() -> Oid {
    choose|o: Oid| is_zero(o)
}

pub open spec fn updated_name(u: UpdatedView) -> Seq<u8> {
    match u {
        UpdatedView::Direct { name, .. } => name,
        UpdatedView::Symbolic { name, .. } => name,
        UpdatedView::Prune { name } => name,
    }
}

/// The node's report of the changes `ups`, symbolic targets resolved in `s`;
/// `Err` with the first target that does not resolve.
pub open spec fn ref_updates(s: Seq<crate::refdb::EntryView>, ups: Seq<UpdatedView>) -> Result<
    Seq<RefUpdateView>,
    Seq<u8>,
>
    decreases ups.len(),
{
    if ups.len() == 0 {
        Ok(Seq::empty())
    } else {
        match ref_updates(s, ups.drop_last()) {
            Err(e) => Err(e),
            Ok(acc) => match ups.last() {
                UpdatedView::Direct { name, target } => Ok(
                    acc.push(RefUpdateView::Updated { name, old: zero_oid(), new: target }),
                ),
                UpdatedView::Symbolic { name, target } => match peel(s, target) {
                    Some(o) => Ok(acc.push(RefUpdateView::Updated { name, old: zero_oid(), new: o })),
                    None => Err(target),
                },
                UpdatedView::Prune { name } => Ok(acc.push(RefUpdateView::Deleted { name, oid: zero_oid() })),
            },
        }
    }
}

/// The keys of the namespaces the changes touched.
pub open spec fn touched(ups: Seq<UpdatedView>) -> Set<PublicKey> {
    Set::new(|k: PublicKey| exists|i: int| 0 <= i < ups.len() && namespace_of(updated_name(#[trigger] ups[i])) == Some(k))
}

/// Reports the changes a fetch made, and the namespaces it touched.
pub fn as_ref_updates(refdb: &Refdb, updated: &Vec<Updated>) -> (r: Result<Updates, Vec<u8>>)
    ensures
        match ref_updates(refdb.snapshot(), updated_view(updated@)) {
            Ok(v) => r matches Ok(u) && u.refs@.map_values(|x: RefUpdate| x@) == v && Set::new(
                |k: PublicKey| u.namespaces@.contains(k),
            ) == touched(updated_view(updated@)),
            Err(t) => r matches Err(x) && x@ == t,
        },
{
    let ghost uv = updated_view(updated@);
    let zero = Oid::new([0u8; 20]);
    assert(zero == zero_oid()) by {
        assert(is_zero(zero));
        assert(is_zero(zero_oid()));
        assert(zero.bytes@ =~= zero_oid().bytes@);
        assert(zero.bytes == zero_oid().bytes);
    }
    let mut refs: Vec<RefUpdate> = Vec::new();
    let mut namespaces: Vec<PublicKey> = Vec::new();
    let mut i: usize = 0;
    assert(uv.subrange(0, 0) =~= Seq::<UpdatedView>::empty());
    assert(refs@.map_values(|x: RefUpdate| x@) =~= Seq::<RefUpdateView>::empty());
    while i < updated.len()
        invariant
            0 <= i <= updated@.len(),
            uv == updated_view(updated@),
            zero == zero_oid(),
            ref_updates(refdb.snapshot(), uv.subrange(0, i as int)) == Ok::<Seq<RefUpdateView>, Seq<u8>>(
                refs@.map_values(|x: RefUpdate| x@),
            ),
            forall|k: PublicKey| namespaces@.contains(k) <==> touched(uv.subrange(0, i as int)).contains(k),
        decreases updated@.len() - i,
    {
        let ghost sub = uv.subrange(0, i + 1);
        assert(sub.drop_last() =~= uv.subrange(0, i as int));
        assert(sub.last() == updated@[i as int]@);
        let ghost before = refs@.map_values(|x: RefUpdate| x@);
        let (name, entry) = match &updated[i] {
            Updated::Direct { name, target } => (name, RefUpdate::Updated { name: copy_bytes(name), old: zero, new: *target }),
            Updated::Symbolic { name, target } => match refdb.refname_to_id(target.as_slice()) {
                Some(o) => (name, RefUpdate::Updated { name: copy_bytes(name), old: zero, new: o }),
                None => {
                    proof {
                        lemma_ref_updates_err_extends(refdb.snapshot(), uv, i as int + 1);
                    }
                    return Err(copy_bytes(target));
                },
            },
            Updated::Prune { name } => (name, RefUpdate::Deleted { name: copy_bytes(name), oid: zero }),
        };
        assert(name@ == updated_name(sub.last()));
        refs.push(entry);
        assert(refs@.map_values(|x: RefUpdate| x@) =~= before.push(entry@));
        let ghost ns0 = namespaces@;
        match namespace_key(name.as_slice()) {
            Some(k) => {
                if !contains_key(&namespaces, &k) {
                    namespaces.push(k);
                }
            },
            None => {},
        }
        assert forall|k: PublicKey| namespaces@.contains(k) <==> touched(sub).contains(k) by {
            if namespaces@.contains(k) && !ns0.contains(k) {
                assert(sub[i as int] == sub.last());
                assert(namespace_of(updated_name(sub[i as int])) == Some(k));
            }
            if ns0.contains(k) {
                let j = choose|j: int| 0 <= j < ns0.len() && ns0[j] == k;
                assert(namespaces@[j] == k);
                assert(touched(uv.subrange(0, i as int)).contains(k));
                let m = choose|m: int| 0 <= m < i && namespace_of(updated_name(#[trigger] uv.subrange(0, i as int)[m])) == Some(k);
                assert(sub[m] == uv.subrange(0, i as int)[m]);
            }
            if touched(sub).contains(k) {
                let m = choose|m: int| 0 <= m < sub.len() && namespace_of(updated_name(#[trigger] sub[m])) == Some(k);
                if m < i {
                    assert(sub[m] == uv.subrange(0, i as int)[m]);
                    assert(touched(uv.subrange(0, i as int)).contains(k));
                } else {
                    assert(sub[m] == sub.last());
                    if !ns0.contains(k) {
                        assert(namespaces@[namespaces@.len() - 1] == k);
                    }
                }
            }
        }
        i = i + 1;
    }
    assert(uv.subrange(0, updated@.len() as int) =~= uv);
    assert(Set::new(|k: PublicKey| namespaces@.contains(k)) =~= touched(uv));
    Ok(Updates { refs, namespaces })
}

proof fn lemma_ref_updates_err_extends(s: Seq<crate::refdb::EntryView>, ups: Seq<UpdatedView>, n: int)
    requires
        0 < n <= ups.len(),
        ref_updates(s, ups.subrange(0, n)) is Err,
    ensures
        ref_updates(s, ups) == ref_updates(s, ups.subrange(0, n)),
    decreases ups.len() - n,
{
    if n < ups.len() {
        assert(ups.subrange(0, n + 1).drop_last() =~= ups.subrange(0, n));
        lemma_ref_updates_err_extends(s, ups, n + 1);
    } else {
        assert(ups.subrange(0, n) =~= ups);
    }
}

} // verus!
