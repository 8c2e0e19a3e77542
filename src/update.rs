//! Reference updates, as staged by the fetch stages and applied by a refdb.
use vstd::prelude::*;

use crate::oid::Oid;
use crate::refs::copy_bytes;

verus! {

/// What to do when an update would not apply as a fast-forward, or would turn
/// a direct reference into a symbolic one.
#[derive(Clone, Copy, Debug, PartialEq, Eq, Structural)]
pub enum Policy {
    /// Abort the entire transaction.
    Abort,
    /// Reject this update, but continue the transaction.
    Reject,
    /// Allow the update.
    Allow,
}

/// The target of a stored reference: an object, or another reference.
#[derive(Debug)]
pub enum Target {
    Direct(Oid),
    Symbolic(Vec<u8>),
}

pub enum TargetView {
    Direct(Oid),
    Symbolic(Seq<u8>),
}

impl Target {
    pub open spec fn view(&self) -> TargetView {
        match self {
            Target::Direct(o) => TargetView::Direct(*o),
            Target::Symbolic(n) => TargetView::Symbolic(n@),
        }
    }

    pub fn copy(&self) -> (r: Target)
        ensures
            r@ == self@,
    {
        match self {
            Target::Direct(o) => Target::Direct(*o),
            Target::Symbolic(n) => Target::Symbolic(copy_bytes(n)),
        }
    }
}

/// The reference a symbolic reference points at, with the object that
/// reference should hold.
#[derive(Debug)]
pub struct SymrefTarget {
    pub name: Vec<u8>,
    pub target: Oid,
}

impl SymrefTarget {
    pub fn name(&self) -> (r: &Vec<u8>)
        ensures
            r@ == self.name@,
    {
        &self.name
    }

    pub fn into_owned(self) -> (r: SymrefTarget)
        ensures
            r.name@ == self.name@,
            r.target == self.target,
    {
        self
    }
}

/// A staged change to one reference.
#[derive(Debug)]
pub enum Update {
    Direct { name: Vec<u8>, target: Oid, no_ff: Policy },
    Symbolic { name: Vec<u8>, target: SymrefTarget, type_change: Policy },
    Prune { name: Vec<u8>, prev: Target },
}

pub enum UpdateView {
    Direct { name: Seq<u8>, target: Oid, no_ff: Policy },
    Symbolic { name: Seq<u8>, dst: Seq<u8>, dst_oid: Oid, type_change: Policy },
    Prune { name: Seq<u8>, prev: TargetView },
}

pub open spec fn update_name(u: UpdateView) -> Seq<u8> {
    match u {
        UpdateView::Direct { name, .. } => name,
        UpdateView::Symbolic { name, .. } => name,
        UpdateView::Prune { name, .. } => name,
    }
}

impl Update {
    pub open spec fn view(&self) -> UpdateView {
        match self {
            Update::Direct { name, target, no_ff } => UpdateView::Direct {
                name: name@,
                target: *target,
                no_ff: *no_ff,
            },
            Update::Symbolic { name, target, type_change } => UpdateView::Symbolic {
                name: name@,
                dst: target.name@,
                dst_oid: target.target,
                type_change: *type_change,
            },
            Update::Prune { name, prev } => UpdateView::Prune { name: name@, prev: prev@ },
        }
    }

    /// The name of the reference this update changes.
    pub fn refname(&self) -> (r: &Vec<u8>)
        ensures
            r@ == update_name(self@),
    {
        match self {
            Update::Direct { name, .. } => name,
            Update::Symbolic { name, .. } => name,
            Update::Prune { name, .. } => name,
        }
    }

    pub fn into_owned(self) -> (r: Update)
        ensures
            r@ == self@,
    {
        self
    }

    pub fn copy(&self) -> (r: Update)
        ensures
            r@ == self@,
    {
        match self {
            Update::Direct { name, target, no_ff } => Update::Direct {
                name: copy_bytes(name),
                target: *target,
                no_ff: *no_ff,
            },
            Update::Symbolic { name, target, type_change } => Update::Symbolic {
                name: copy_bytes(name),
                target: SymrefTarget { name: copy_bytes(&target.name), target: target.target },
                type_change: *type_change,
            },
            Update::Prune { name, prev } => Update::Prune { name: copy_bytes(name), prev: prev.copy() },
        }
    }
}

/// A change that a transaction made.
#[derive(Debug)]
pub enum Updated {
    Direct { name: Vec<u8>, target: Oid },
    Symbolic { name: Vec<u8>, target: Vec<u8> },
    Prune { name: Vec<u8> },
}

pub enum UpdatedView {
    Direct { name: Seq<u8>, target: Oid },
    Symbolic { name: Seq<u8>, target: Seq<u8> },
    Prune { name: Seq<u8> },
}

impl Updated {
    pub open spec fn view(&self) -> UpdatedView {
        match self {
            Updated::Direct { name, target } => UpdatedView::Direct { name: name@, target: *target },
            Updated::Symbolic { name, target } => UpdatedView::Symbolic {
                name: name@,
                target: target@,
            },
            Updated::Prune { name } => UpdatedView::Prune { name: name@ },
        }
    }
}

pub open spec fn updates_view(v: Seq<Update>) -> Seq<UpdateView> {
    v.map_values(|u: Update| u@)
}

pub open spec fn updated_view(v: Seq<Updated>) -> Seq<UpdatedView> {
    v.map_values(|u: Updated| u@)
}

/// The outcome of a transaction: the updates it rejected and the changes it made.
pub struct Applied {
    pub rejected: Vec<Update>,
    pub updated: Vec<Updated>,
}

impl Applied {
    pub fn new() -> (r: Applied)
        ensures
            r.rejected@.len() == 0,
            r.updated@.len() == 0,
    {
        Applied { rejected: Vec::new(), updated: Vec::new() }
    }

    /// Moves everything of `other` to the end of `self`.
    pub fn append(&mut self, other: &mut Applied)
        ensures
            final(self).rejected@ == old(self).rejected@ + old(other).rejected@,
            final(self).updated@ == old(self).updated@ + old(other).updated@,
            final(other).rejected@.len() == 0,
            final(other).updated@.len() == 0,
    {
        self.rejected.append(&mut other.rejected);
        self.updated.append(&mut other.updated);
    }
}

/// A batch of staged updates.
pub struct Updates {
    pub tips: Vec<Update>,
}

} // verus!
