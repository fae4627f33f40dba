//! The 210-wheel: the residues coprime to 2, 3, 5 and 7, the gaps between
//! them, and a cursor that walks the gaps cyclically.
use vstd::arithmetic::div_mod::{lemma_mod_self_0, lemma_small_mod};
use vstd::prelude::*;

verus! {

/// The residues modulo 210 that are coprime to 210, ascending.
pub open spec fn residues() -> Seq<int> {
    seq![
        1, 11, 13, 17, 19, 23, 29, 31, 37, 41, 43, 47, 53, 59, 61, 67, 71, 73, 79, 83, 89, 97,
        101, 103, 107, 109, 113, 121, 127, 131, 137, 139, 143, 149, 151, 157, 163, 167, 169, 173,
        179, 181, 187, 191, 193, 197, 199, 209,
    ]
}

/// The gaps between successive residues, starting at 11 and wrapping from
/// 209 round to 211 and 221.
pub open spec fn gaps() -> Seq<int> {
    seq![
        2, 4, 2, 4, 6, 2, 6, 4, 2, 4, 6, 6, 2, 6, 4, 2, 6, 4, 6, 8, 4, 2, 4, 2, 4, 8, 6, 4, 6, 2,
        4, 6, 2, 6, 6, 4, 2, 4, 6, 2, 6, 4, 2, 4, 2, 10, 2, 10,
    ]
}

/// The gap table as machine words.
pub fn wheel_increments() -> (r: [u64; 48])
    ensures
        forall|k: int| 0 <= k < 48 ==> r@[k] == gaps()[k],
{
    [
        2, 4, 2, 4, 6, 2, 6, 4, 2, 4, 6, 6, 2, 6, 4, 2, 6, 4, 6, 8, 4, 2, 4, 2, 4, 8, 6, 4, 6, 2,
        4, 6, 2, 6, 6, 4, 2, 4, 6, 2, 6, 4, 2, 4, 2, 10, 2, 10,
    ]
}

/// The residue table as machine words.
pub fn residue_table() -> (r: [u64; 48])
    ensures
        forall|k: int| 0 <= k < 48 ==> r@[k] == residues()[k],
{
    [
        1, 11, 13, 17, 19, 23, 29, 31, 37, 41, 43, 47, 53, 59, 61, 67, 71, 73, 79, 83, 89, 97,
        101, 103, 107, 109, 113, 121, 127, 131, 137, 139, 143, 149, 151, 157, 163, 167, 169, 173,
        179, 181, 187, 191, 193, 197, 199, 209,
    ]
}

/// A cursor over a cyclic list of increments.
#[derive(Clone, Copy)]
pub struct Wheel<'a> {
    inc_list: &'a [u64],
    vec_idx: usize,
}

impl<'a> Wheel<'a> {
    /// The increments walked.
    pub closed spec fn incs(&self) -> Seq<u64> {
        self.inc_list@
    }

    /// The position of the next increment.
    pub closed spec fn pos(&self) -> int {
        self.vec_idx as int
    }

    /// The cursor stands inside the list, or at 0 on an empty one.
    pub closed spec fn wf(&self) -> bool {
        self.vec_idx < self.inc_list@.len() || self.vec_idx == 0
    }

    /// A cursor at the start of `inc_list`.
    pub fn new(inc_list: &'a [u64]) -> (r: Wheel<'a>)
        ensures
            r.wf(),
            r.incs() == inc_list@,
            r.pos() == 0,
    {
        Wheel { inc_list, vec_idx: 0 }
    }

    /// Returns the increment under the cursor and moves the cursor on by one,
    /// back to the start after the last.
    pub fn next_inc(&mut self) -> (r: u64)
        requires
            old(self).wf(),
            old(self).incs().len() > 0,
        ensures
            final(self).wf(),
            final(self).incs() == old(self).incs(),
            r == old(self).incs()[old(self).pos()],
            final(self).pos() == (old(self).pos() + 1) % (old(self).incs().len() as int),
    {
        let ret = self.inc_list[self.vec_idx];
        self.vec_idx = self.vec_idx + 1;
        if self.vec_idx == self.inc_list.len() {
            self.vec_idx = 0;
            proof {
                lemma_mod_self_0(self.inc_list@.len() as int);
            }
        } else {
            proof {
                lemma_small_mod(self.vec_idx as nat, self.inc_list@.len());
            }
        }
        ret
    }

    /// Moves the cursor to where `other` stands.
    pub fn sync(&mut self, other: &Wheel)
        requires
            other.wf(),
            other.incs().len() == old(self).incs().len(),
        ensures
            final(self).wf(),
            final(self).incs() == old(self).incs(),
            final(self).pos() == other.pos(),
    {
        self.vec_idx = other.vec_idx;
    }

    /// Moves the cursor back to the start.
    pub fn reset(&mut self)
        ensures
            final(self).wf(),
            final(self).incs() == old(self).incs(),
            final(self).pos() == 0,
    {
        self.vec_idx = 0;
    }
}

} // verus!
