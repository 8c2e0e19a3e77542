//! The in-memory shadow of staged references, keyed by name.
use vstd::prelude::*;

use crate::bytes::{bytes_eq, has_prefix, starts_with};
use crate::oid::Oid;
use crate::refs::copy_bytes;
use crate::update::{Applied, Update, UpdateView, Updated, UpdatedView, updated_view, updates_view};

verus! {

/// One record of the shadow: a name holding an object, or removed.
pub struct MemEntry {
    pub name: Vec<u8>,
    pub oid: Option<Oid>,
}

pub open spec fn mem_view(v: Seq<MemEntry>) -> Seq<(Seq<u8>, Option<Oid>)> {
    v.map_values(|e: MemEntry| (e.name@, e.oid))
}

/// What the shadow holds at `name`; the last record of a name wins.
pub open spec fn mem_lookup(s: Seq<(Seq<u8>, Option<Oid>)>, name: Seq<u8>) -> Option<Oid>
    decreases s.len(),
{
    if s.len() == 0 {
        None
    } else if s.last().0 == name {
        s.last().1
    } else {
        mem_lookup(s.drop_last(), name)
    }
}

/// The records one update adds, and what it reports.
pub open spec fn mem_step(s: Seq<(Seq<u8>, Option<Oid>)>, u: UpdateView) -> (
    Seq<(Seq<u8>, Option<Oid>)>,
    Seq<UpdatedView>,
) {
    match u {
        UpdateView::Direct { name, target, .. } => (
            s.push((name, Some(target))),
            seq![UpdatedView::Direct { name, target }],
        ),
        UpdateView::Symbolic { name, dst, dst_oid, .. } => (
            s.push((name, Some(dst_oid))),
            seq![UpdatedView::Symbolic { name, target: dst }],
        ),
        UpdateView::Prune { name, .. } => if mem_lookup(s, name) is Some {
            (s.push((name, None)), seq![UpdatedView::Prune { name }])
        } else {
            (s, Seq::empty())
        },
    }
}

/// The live names among the first `n` records that start with `p`.
pub open spec fn mem_scan(s: Seq<(Seq<u8>, Option<Oid>)>, p: Seq<u8>, n: int) -> Seq<(Seq<u8>, Oid)>
    decreases n,
{
    if n <= 0 {
        Seq::empty()
    } else {
        let prev = mem_scan(s, p, n - 1);
        let e = s[n - 1];
        match e.1 {
            Some(o) => if has_prefix(e.0, p) && (forall|k: int| n - 1 < k < s.len() ==> s[k].0 != e.0) {
                prev.push((e.0, o))
            } else {
                prev
            },
            None => prev,
        }
    }
}

/// The records and reports after applying `ups` in order.
pub open spec fn mem_apply(s: Seq<(Seq<u8>, Option<Oid>)>, ups: Seq<UpdateView>) -> (
    Seq<(Seq<u8>, Option<Oid>)>,
    Seq<UpdatedView>,
)
    decreases ups.len(),
{
    if ups.len() == 0 {
        (s, Seq::empty())
    } else {
        let (s1, r1) = mem_apply(s, ups.drop_last());
        let (s2, r2) = mem_step(s1, ups.last());
        (s2, r1 + r2)
    }
}

/// The shadow keyed by qualified name. It takes every update as given.
pub struct InMemory {
    pub entries: Vec<MemEntry>,
}

impl InMemory {
    pub open spec fn records(&self) -> Seq<(Seq<u8>, Option<Oid>)> {
        mem_view(self.entries@)
    }

    pub fn new() -> (r: InMemory)
        ensures
            r.records().len() == 0,
    {
        InMemory { entries: Vec::new() }
    }

    pub fn refname_to_id(&self, name: &[u8]) -> (r: Option<Oid>)
        ensures
            r == mem_lookup(self.records(), name@),
    {
        let ghost sv = self.records();
        let mut i = self.entries.len();
        assert(sv.subrange(0, i as int) =~= sv);
        while i > 0
            invariant
                i <= self.entries@.len(),
                sv == mem_view(self.entries@),
                mem_lookup(sv, name@) == mem_lookup(sv.subrange(0, i as int), name@),
            decreases i,
        {
            let e = &self.entries[i - 1];
            let ghost sub = sv.subrange(0, i as int);
            assert(sub.last() == (e.name@, e.oid));
            assert(sub.drop_last() =~= sv.subrange(0, i - 1));
            if bytes_eq(e.name.as_slice(), name) {
                return e.oid;
            }
            i = i - 1;
        }
        None
    }

    /// Nothing to reload: the shadow holds no snapshot.
    pub fn reload(&mut self) -> (r: Result<(), ()>)
        ensures
            r is Ok,
            final(self).records() == old(self).records(),
    {
        Ok(())
    }

    /// Whether record `i` is the last record of its name.
    fn is_last(&self, i: usize) -> (r: bool)
        requires
            i < self.entries@.len(),
        ensures
            r == (forall|k: int| i < k < self.records().len() ==> self.records()[k].0 != self.records()[i as int].0),
    {
        let n = self.entries.len();
        let mut j = i + 1;
        while j < n
            invariant
                i < j <= self.entries@.len(),
                n == self.entries@.len(),
                forall|k: int| i < k < j ==> self.records()[k].0 != self.records()[i as int].0,
            decreases self.entries@.len() - j,
        {
            if bytes_eq(self.entries[j].name.as_slice(), self.entries[i].name.as_slice()) {
                assert(self.records()[j as int].0 == self.records()[i as int].0);
                return false;
            }
            j = j + 1;
        }
        true
    }

    /// The names held under `prefix`, with their objects, in record order.
    pub fn scan(&self, prefix: &[u8]) -> (r: Vec<(Vec<u8>, Oid)>)
        ensures
            r@.map_values(|p: (Vec<u8>, Oid)| (p.0@, p.1)) == mem_scan(self.records(), prefix@, self.records().len() as int),
    {
        let mut out: Vec<(Vec<u8>, Oid)> = Vec::new();
        let mut i: usize = 0;
        while i < self.entries.len()
            invariant
                0 <= i <= self.entries@.len(),
                out@.map_values(|p: (Vec<u8>, Oid)| (p.0@, p.1)) == mem_scan(self.records(), prefix@, i as int),
            decreases self.entries@.len() - i,
        {
            let ghost before = out@.map_values(|p: (Vec<u8>, Oid)| (p.0@, p.1));
            let e = &self.entries[i];
            assert(self.records()[i as int] == (e.name@, e.oid));
            if let Some(o) = e.oid {
                if starts_with(e.name.as_slice(), prefix) && self.is_last(i) {
                    let item = (copy_bytes(&e.name), o);
                    out.push(item);
                    assert(out@.map_values(|p: (Vec<u8>, Oid)| (p.0@, p.1)) =~= before.push((e.name@, o)));
                }
            }
            i = i + 1;
        }
        out
    }

    /// Applies one update unconditionally.
    pub fn update_one(&mut self, u: &Update) -> (r: Applied)
        ensures
            final(self).records() == mem_step(old(self).records(), u@).0,
            updated_view(r.updated@) == mem_step(old(self).records(), u@).1,
            r.rejected@.len() == 0,
    {
        let mut ap = Applied::new();
        let ghost s0 = self.records();
        match u {
            Update::Direct { name, target, .. } => {
                self.entries.push(MemEntry { name: copy_bytes(name), oid: Some(*target) });
                let x = Updated::Direct { name: copy_bytes(name), target: *target };
                ap.updated.push(x);
                assert(updated_view(ap.updated@) =~= seq![x@]);
            },
            Update::Symbolic { name, target, .. } => {
                self.entries.push(MemEntry { name: copy_bytes(name), oid: Some(target.target) });
                let x = Updated::Symbolic { name: copy_bytes(name), target: copy_bytes(&target.name) };
                ap.updated.push(x);
                assert(updated_view(ap.updated@) =~= seq![x@]);
            },
            Update::Prune { name, .. } => {
                if self.refname_to_id(name.as_slice()).is_some() {
                    self.entries.push(MemEntry { name: copy_bytes(name), oid: None });
                    let x = Updated::Prune { name: copy_bytes(name) };
                    ap.updated.push(x);
                    assert(updated_view(ap.updated@) =~= seq![x@]);
                } else {
                    assert(updated_view(ap.updated@) =~= Seq::<UpdatedView>::empty());
                }
            },
        }
        assert(self.records() =~= mem_step(s0, u@).0);
        ap
    }

    /// Applies every update in order, unconditionally.
    pub fn update(&mut self, updates: &Vec<Update>) -> (r: Applied)
        ensures
            r.rejected@.len() == 0,
            final(self).records() == mem_apply(old(self).records(), updates_view(updates@)).0,
            updated_view(r.updated@) == mem_apply(old(self).records(), updates_view(updates@)).1,
    {
        let ghost s0 = self.records();
        let ghost uv = updates_view(updates@);
        let mut ap = Applied::new();
        let mut i: usize = 0;
        assert(uv.subrange(0, 0) =~= Seq::<UpdateView>::empty());
        assert(updated_view(ap.updated@) =~= Seq::<UpdatedView>::empty());
        while i < updates.len()
            invariant
                0 <= i <= updates@.len(),
                uv == updates_view(updates@),
                ap.rejected@.len() == 0,
                self.records() == mem_apply(s0, uv.subrange(0, i as int)).0,
                updated_view(ap.updated@) == mem_apply(s0, uv.subrange(0, i as int)).1,
            decreases updates@.len() - i,
        {
            let ghost before = updated_view(ap.updated@);
            let mut one = self.update_one(&updates[i]);
            let ghost add = updated_view(one.updated@);
            ap.append(&mut one);
            assert(uv.subrange(0, i + 1).drop_last() =~= uv.subrange(0, i as int));
            assert(uv.subrange(0, i + 1).last() == updates@[i as int]@);
            assert(updated_view(ap.updated@) =~= before + add);
            i = i + 1;
        }
        assert(uv.subrange(0, updates@.len() as int) =~= uv);
        ap
    }
}

} // verus!
