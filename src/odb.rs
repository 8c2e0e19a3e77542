//! What the object store says about the objects an exchange looks at.
use vstd::prelude::*;

use crate::oid::Oid;

verus! {

/// The object-store facts an exchange works with: which objects are present,
/// and which `(descendant, ancestor)` pairs lie on one commit-ancestry path.
pub struct Odb {
    objects: Vec<Oid>,
    ancestry: Vec<(Oid, Oid)>,
}

impl Odb {
    pub closed spec fn present(&self) -> Seq<Oid> {
        self.objects@
    }

    pub closed spec fn ancestry_pairs(&self) -> Seq<(Oid, Oid)> {
        self.ancestry@
    }

    pub open spec fn has(&self, o: Oid) -> bool {
        self.present().contains(o)
    }

    /// `new` is `old`, or both are present and `old` is an ancestor of `new`.
    pub open spec fn ff(&self, new: Oid, old: Oid) -> bool {
        new == old || (self.has(new) && self.has(old) && self.ancestry_pairs().contains((new, old)))
    }

    pub fn new(objects: Vec<Oid>, ancestry: Vec<(Oid, Oid)>) -> (r: Odb)
        ensures
            r.present() == objects@,
            r.ancestry_pairs() == ancestry@,
    {
        Odb { objects, ancestry }
    }

    pub fn contains(&self, oid: &Oid) -> (r: bool)
        ensures
            r == self.has(*oid),
    {
        let mut i: usize = 0;
        while i < self.objects.len()
            invariant
                0 <= i <= self.objects@.len(),
                forall|k: int| 0 <= k < i ==> self.objects@[k] != *oid,
            decreases self.objects@.len() - i,
        {
            if self.objects[i].same(oid) {
                return true;
            }
            i = i + 1;
        }
        false
    }

    fn has_pair(&self, new: &Oid, old: &Oid) -> (r: bool)
        ensures
            r == self.ancestry_pairs().contains((*new, *old)),
    {
        let mut i: usize = 0;
        while i < self.ancestry.len()
            invariant
                0 <= i <= self.ancestry@.len(),
                forall|k: int| 0 <= k < i ==> self.ancestry@[k] != (*new, *old),
            decreases self.ancestry@.len() - i,
        {
            let (a, b) = self.ancestry[i];
            if a.same(new) && b.same(old) {
                assert(self.ancestry@[i as int] == (*new, *old));
                return true;
            }
            i = i + 1;
        }
        false
    }

    /// True iff `new == old`, or both objects are present and `old` lies on the
    /// ancestry path of `new`. An absent object gives false.
    pub fn is_in_ancestry_path(&self, new: Oid, old: Oid) -> (r: bool)
        ensures
            r == self.ff(new, old),
    {
        if new.same(&old) {
            return true;
        }
        if !self.contains(&new) || !self.contains(&old) {
            return false;
        }
        self.has_pair(&new, &old)
    }
}

} // verus!
