//! The state one exchange carries across its stages.
use vstd::prelude::*;

use crate::bytes::{ends_with, has_suffix};
use crate::mem::InMemory;
use crate::oid::{Oid, PublicKey};
use crate::refs::{ReceivedRef, ReceivedRefView, Special, Suffix, SuffixView, received_view, rad_bytes, rad_lit, id_lit};
use crate::update::{Applied, Update, UpdateView, updates_view};

verus! {

/// The tip recorded for `k`; the last record wins.
pub open spec fn tip_lookup(s: Seq<(PublicKey, Oid)>, k: PublicKey) -> Option<Oid>
    decreases s.len(),
{
    if s.len() == 0 {
        None
    } else if s.last().0 == k {
        Some(s.last().1)
    } else {
        tip_lookup(s.drop_last(), k)
    }
}

fn find_tip(s: &Vec<(PublicKey, Oid)>, k: &PublicKey) -> (r: Option<Oid>)
    ensures
        r == tip_lookup(s@, *k),
{
    let mut i = s.len();
    assert(s@.subrange(0, i as int) =~= s@);
    while i > 0
        invariant
            i <= s@.len(),
            tip_lookup(s@, *k) == tip_lookup(s@.subrange(0, i as int), *k),
        decreases i,
    {
        let ghost sub = s@.subrange(0, i as int);
        assert(sub.drop_last() =~= s@.subrange(0, i - 1));
        let (key, tip) = s[i - 1];
        if key.same(k) {
            return Some(tip);
        }
        i = i - 1;
    }
    None
}

/// The `(remote, tip)` pairs of the received `sp` references, in order.
pub open spec fn tips_of(refs: Seq<ReceivedRefView>, sp: Special) -> Seq<(PublicKey, Oid)>
    decreases refs.len(),
{
    if refs.len() == 0 {
        Seq::empty()
    } else if refs.last().name.suffix == SuffixView::Special(sp) {
        tips_of(refs.drop_last(), sp).push((refs.last().name.remote, refs.last().tip))
    } else {
        tips_of(refs.drop_last(), sp)
    }
}

/// `refs/rad/id`
pub open spec fn rad_id_suffix() -> Seq<u8> {
    rad_lit() + id_lit()
}

/// An update of an identity tip: its name, or for a symbolic update its
/// target's name, ends with `refs/rad/id`.
pub open spec fn is_identity_update(u: UpdateView) -> bool {
    match u {
        UpdateView::Direct { name, .. } => has_suffix(name, rad_id_suffix()),
        UpdateView::Symbolic { dst, .. } => has_suffix(dst, rad_id_suffix()),
        UpdateView::Prune { .. } => false,
    }
}

/// The updates of `s` for which `is_identity_update` is `b`, in order.
pub open spec fn select(s: Seq<UpdateView>, b: bool) -> Seq<UpdateView>
    decreases s.len(),
{
    if s.len() == 0 {
        Seq::empty()
    } else if is_identity_update(s.last()) == b {
        select(s.drop_last(), b).push(s.last())
    } else {
        select(s.drop_last(), b)
    }
}

fn identity_update(u: &Update) -> (r: bool)
    ensures
        r == is_identity_update(u@),
{
    let mut suffix = rad_bytes();
    suffix.push(105u8);
    suffix.push(100u8);
    assert(suffix@ =~= rad_id_suffix());
    match u {
        Update::Direct { name, .. } => ends_with(name.as_slice(), suffix.as_slice()),
        Update::Symbolic { target, .. } => ends_with(target.name.as_slice(), suffix.as_slice()),
        Update::Prune { .. } => false,
    }
}

/// Identity and sigrefs tips seen so far, the staged updates, and the
/// shadow those updates were mirrored into.
pub struct FetchState {
    pub refs: InMemory,
    pub ids: Vec<(PublicKey, Oid)>,
    pub sigrefs: Vec<(PublicKey, Oid)>,
    pub tips: Vec<Update>,
}

impl FetchState {
    pub fn new() -> (r: FetchState)
        ensures
            r.ids@.len() == 0,
            r.sigrefs@.len() == 0,
            r.tips@.len() == 0,
            r.refs.records().len() == 0,
    {
        FetchState { refs: InMemory::new(), ids: Vec::new(), sigrefs: Vec::new(), tips: Vec::new() }
    }

    pub fn id_tips(&self) -> (r: &Vec<(PublicKey, Oid)>)
        ensures
            r@ == self.ids@,
    {
        &self.ids
    }

    /// The identity tip received for `k`.
    pub fn id_tip(&self, k: &PublicKey) -> (r: Option<Oid>)
        ensures
            r == tip_lookup(self.ids@, *k),
    {
        find_tip(&self.ids, k)
    }

    /// The sigrefs tip received for `k`.
    pub fn sigrefs_tip(&self, k: &PublicKey) -> (r: Option<Oid>)
        ensures
            r == tip_lookup(self.sigrefs@, *k),
    {
        find_tip(&self.sigrefs, k)
    }

    /// The staged updates.
    pub fn updates(&self) -> (r: &Vec<Update>)
        ensures
            r@ == self.tips@,
    {
        &self.tips
    }

    pub fn clear_rad_refs(&mut self)
        ensures
            final(self).ids@.len() == 0,
            final(self).sigrefs@.len() == 0,
            final(self).tips@ == old(self).tips@,
            final(self).refs == old(self).refs,
    {
        self.ids.clear();
        self.sigrefs.clear();
    }

    /// Stages `other` and mirrors it into the shadow.
    pub fn update_all(&mut self, other: Vec<Update>) -> (r: Applied)
        ensures
            updates_view(final(self).tips@) == updates_view(old(self).tips@) + updates_view(other@),
            final(self).refs.records() == crate::mem::mem_apply(
                old(self).refs.records(),
                updates_view(other@),
            ).0,
            final(self).ids@ == old(self).ids@,
            final(self).sigrefs@ == old(self).sigrefs@,
            r.rejected@.len() == 0,
            crate::update::updated_view(r.updated@) == crate::mem::mem_apply(
                old(self).refs.records(),
                updates_view(other@),
            ).1,
    {
        let ap = self.refs.update(&other);
        let mut i: usize = 0;
        let ghost t0 = updates_view(self.tips@);
        assert(updates_view(other@).subrange(0, 0) =~= Seq::<UpdateView>::empty());
        assert(t0 + Seq::<UpdateView>::empty() =~= t0);
        while i < other.len()
            invariant
                0 <= i <= other@.len(),
                updates_view(self.tips@) == t0 + updates_view(other@).subrange(0, i as int),
                self.refs.records() == crate::mem::mem_apply(
                    old(self).refs.records(),
                    updates_view(other@),
                ).0,
                self.ids@ == old(self).ids@,
                self.sigrefs@ == old(self).sigrefs@,
            decreases other@.len() - i,
        {
            let u = other[i].copy();
            let ghost before = updates_view(self.tips@);
            self.tips.push(u);
            assert(updates_view(self.tips@) =~= before.push(u@));
            assert(updates_view(other@).subrange(0, i + 1) =~= updates_view(other@).subrange(0, i as int).push(other@[i as int]@));
            i = i + 1;
        }
        assert(updates_view(other@).subrange(0, other@.len() as int) =~= updates_view(other@));
        ap
    }

    /// Takes out the staged identity updates (those that end with
    /// `refs/rad/id`), keeping the others staged; both keep their order.
    pub fn take_identity_updates(&mut self) -> (r: Vec<Update>)
        ensures
            updates_view(r@) == select(updates_view(old(self).tips@), true),
            updates_view(final(self).tips@) == select(updates_view(old(self).tips@), false),
            final(self).ids@ == old(self).ids@,
            final(self).sigrefs@ == old(self).sigrefs@,
            final(self).refs == old(self).refs,
    {
        let ghost all = updates_view(self.tips@);
        let mut taken: Vec<Update> = Vec::new();
        let mut kept: Vec<Update> = Vec::new();
        let mut i: usize = 0;
        assert(all.subrange(0, 0) =~= Seq::<UpdateView>::empty());
        assert(updates_view(taken@) =~= Seq::<UpdateView>::empty());
        assert(updates_view(kept@) =~= Seq::<UpdateView>::empty());
        while i < self.tips.len()
            invariant
                0 <= i <= self.tips@.len(),
                all == updates_view(self.tips@),
                updates_view(taken@) == select(all.subrange(0, i as int), true),
                updates_view(kept@) == select(all.subrange(0, i as int), false),
            decreases self.tips@.len() - i,
        {
            let u = self.tips[i].copy();
            let ghost sub = all.subrange(0, i + 1);
            assert(sub.drop_last() =~= all.subrange(0, i as int));
            assert(sub.last() == u@);
            let ghost t0 = updates_view(taken@);
            let ghost k0 = updates_view(kept@);
            if identity_update(&u) {
                taken.push(u);
                assert(updates_view(taken@) =~= t0.push(u@));
            } else {
                kept.push(u);
                assert(updates_view(kept@) =~= k0.push(u@));
            }
            i = i + 1;
        }
        assert(all.subrange(0, self.tips@.len() as int) =~= all);
        self.tips = kept;
        taken
    }

    /// Takes out every staged update.
    pub fn drain_updates(&mut self) -> (r: Vec<Update>)
        ensures
            r@ == old(self).tips@,
            final(self).tips@.len() == 0,
            final(self).ids@ == old(self).ids@,
            final(self).sigrefs@ == old(self).sigrefs@,
            final(self).refs == old(self).refs,
    {
        let mut out: Vec<Update> = Vec::new();
        std::mem::swap(&mut out, &mut self.tips);
        out
    }

    /// Records the identity and sigrefs tips among `refs`, in order; a later
    /// tip of a remote overrides an earlier one.
    pub fn record_tips(&mut self, refs: &Vec<ReceivedRef>)
        ensures
            final(self).tips@ == old(self).tips@,
            final(self).refs == old(self).refs,
            final(self).ids@ == old(self).ids@ + tips_of(received_view(refs@), Special::Id),
            final(self).sigrefs@ == old(self).sigrefs@ + tips_of(received_view(refs@), Special::SignedRefs),
    {
        let ghost rv = received_view(refs@);
        let mut i: usize = 0;
        assert(rv.subrange(0, 0) =~= Seq::<ReceivedRefView>::empty());
        assert(old(self).ids@ + Seq::<(PublicKey, Oid)>::empty() =~= old(self).ids@);
        assert(old(self).sigrefs@ + Seq::<(PublicKey, Oid)>::empty() =~= old(self).sigrefs@);
        while i < refs.len()
            invariant
                0 <= i <= refs@.len(),
                rv == received_view(refs@),
                self.tips@ == old(self).tips@,
                self.refs == old(self).refs,
                self.ids@ == old(self).ids@ + tips_of(rv.subrange(0, i as int), Special::Id),
                self.sigrefs@ == old(self).sigrefs@ + tips_of(rv.subrange(0, i as int), Special::SignedRefs),
            decreases refs@.len() - i,
        {
            let r = &refs[i];
            let ghost sub = rv.subrange(0, i + 1);
            assert(sub.drop_last() =~= rv.subrange(0, i as int));
            assert(sub.last() == r@);
            match r.name.suffix {
                Suffix::Special(Special::Id) => {
                    self.ids.push((r.name.remote, r.tip));
                },
                Suffix::Special(Special::SignedRefs) => {
                    self.sigrefs.push((r.name.remote, r.tip));
                },
                Suffix::Qualified(_) => {},
            }
            assert(self.ids@ =~= old(self).ids@ + tips_of(sub, Special::Id));
            assert(self.sigrefs@ =~= old(self).sigrefs@ + tips_of(sub, Special::SignedRefs));
            i = i + 1;
        }
        assert(rv.subrange(0, refs@.len() as int) =~= rv);
    }
}


/// The partial apply splits the staged updates without loss: the identity
/// batch holds only identity updates, what stays staged holds none, and
/// together they hold every staged update.
pub proof fn lemma_identity_split(s: Seq<UpdateView>)
    ensures
        forall|k: int| 0 <= k < select(s, true).len() ==> is_identity_update(#[trigger] select(s, true)[k]),
        forall|k: int| 0 <= k < select(s, false).len() ==> !is_identity_update(#[trigger] select(s, false)[k]),
        select(s, true).len() + select(s, false).len() == s.len(),
    decreases s.len(),
{
    if s.len() > 0 {
        lemma_identity_split(s.drop_last());
        let t = select(s.drop_last(), true);
        let f = select(s.drop_last(), false);
        if is_identity_update(s.last()) {
            assert forall|k: int| 0 <= k < select(s, true).len() implies is_identity_update(
                #[trigger] select(s, true)[k],
            ) by {
                if k < t.len() {
                    assert(select(s, true)[k] == t[k]);
                }
            }
        } else {
            assert forall|k: int| 0 <= k < select(s, false).len() implies !is_identity_update(
                #[trigger] select(s, false)[k],
            ) by {
                if k < f.len() {
                    assert(select(s, false)[k] == f[k]);
                }
            }
        }
    }
}

} // verus!
