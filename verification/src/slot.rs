//! Grid cells: coordinates and the candidate set still possible there.

use vstd::prelude::*;

use crate::module::clone_modules;
use crate::module::Module;
use crate::rng::random_below;

verus! {

/// A slot is a place in the grid where modules can be placed. It holds its
/// coordinates and its superposition: the modules still possible there.
/// One candidate means the slot is resolved; none means a contradiction.
#[derive(Debug)]
pub struct Slot {
    /// X coordinate of the slot.
    pub x: usize,
    /// Y coordinate of the slot.
    pub y: usize,
    /// Possible modules in the slot.
    pub superposition: Vec<Module>,
}

impl Slot {
    /// Collapse the slot: replace a non-empty superposition by one of its
    /// candidates, chosen uniformly at random. On an empty superposition
    /// this is a no-op: the contradiction state is sticky.
    pub fn collapse(&mut self)
        ensures
            final(self).x == old(self).x,
            final(self).y == old(self).y,
            old(self).superposition@.len() == 0 ==> final(self).superposition@
                == old(self).superposition@,
            old(self).superposition@.len() > 0 ==> final(self).superposition@.len() == 1
                && old(self).superposition@.contains(final(self).superposition@[0]),
    {
        if self.superposition.len() > 0 {
            let i = random_below(self.superposition.len());
            let m = self.superposition[i];
            self.superposition = vec![m];
        }
    }
}

impl Clone for Slot {
    /// A copy of the slot: same coordinates, same superposition.
    fn clone(&self) -> (r: Self)
        ensures
            r.x == self.x,
            r.y == self.y,
            r.superposition@ == self.superposition@,
    {
        Slot { x: self.x, y: self.y, superposition: clone_modules(&self.superposition) }
    }
}

} // verus!
