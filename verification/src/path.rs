//! Root-relative addressing: a path is the sequence of child indices walked
//! from the root; the empty path addresses the root itself.

use vstd::prelude::*;

verus! {

/// A root-relative sequence of child indices. Paths are only meaningful
/// against the tree's current structure; this design keeps the structure
/// fixed after construction, so paths stay valid for the session.
pub struct UiPath {
    pub steps: Vec<usize>,
}

impl UiPath {
    /// The abstract value: the index sequence itself.
    pub open spec fn view(&self) -> Seq<usize> {
        self.steps@
    }

    /// The empty path, addressing the root.
    pub fn root() -> (r: UiPath)
        ensures
            r@ == Seq::<usize>::empty(),
    {
        UiPath { steps: Vec::new() }
    }

    /// An independent copy of this path.
    pub fn duplicate(&self) -> (r: UiPath)
        ensures
            r@ == self@,
    {
        let mut steps: Vec<usize> = Vec::new();
        let mut k: usize = 0;
        while k < self.steps.len()
            invariant
                k <= self.steps.len(),
                steps@ == self.steps@.take(k as int),
            decreases self.steps.len() - k,
        {
            steps.push(self.steps[k]);
            proof {
                assert(steps@ =~= self.steps@.take(k as int + 1));
            }
            k += 1;
        }
        proof {
            assert(self.steps@.take(self.steps@.len() as int) =~= self.steps@);
        }
        UiPath { steps }
    }

    /// Extends this path by one child index.
    pub fn push_step(&mut self, k: usize)
        ensures
            final(self)@ == old(self)@.push(k),
    {
        self.steps.push(k);
    }
}

/// Whether two paths address the same node.
pub fn paths_equal(a: &UiPath, b: &UiPath) -> (r: bool)
    ensures
        r == (a@ == b@),
{
    if a.steps.len() != b.steps.len() {
        proof {
            assert(a@.len() != b@.len());
        }
        return false;
    }
    let mut k: usize = 0;
    while k < a.steps.len()
        invariant
            k <= a.steps.len(),
            a.steps.len() == b.steps.len(),
            forall|i: int| 0 <= i < k ==> a.steps@[i] == b.steps@[i],
        decreases a.steps.len() - k,
    {
        if a.steps[k] != b.steps[k] {
            return false;
        }
        k += 1;
    }
    proof {
        assert(a@ =~= b@);
    }
    true
}

} // verus!
