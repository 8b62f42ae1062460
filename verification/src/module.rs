//! Tile descriptors: a connector fingerprint per side and the tile's index.

use vstd::prelude::*;

use crate::conector::ConnectorID;
use crate::direction::Direction;
use crate::slot::Slot;

verus! {

/// A module is an immutable tile descriptor: the index of the tile in the
/// caller's original tile list, and one connector per direction, indexed by
/// the direction's ordinal.
#[derive(Debug, Clone, Copy)]
pub struct Module {
    pub index: usize,
    /// Valid connectors for each direction.
    pub connectors: [ConnectorID; 4],
}

/// Whether `candidate`, placed on the neighbour in direction `dir` of a slot
/// whose superposition is `sup`, is compatible with at least one module of
/// `sup`: some module of `sup` shows, on the side facing the neighbour, the
/// connector that `candidate` shows on the side facing back.
pub open spec fn fits(candidate: Module, sup: Seq<Module>, dir: Direction) -> bool {
    exists|i: int|
        0 <= i < sup.len() && candidate.connectors[dir.rev().idx()]
            == sup[i].connectors[dir.idx()]
}

impl Module {
    /// A module with the given tile index and all-zero connectors.
    pub fn new(index: usize) -> (r: Self)
        ensures
            r.index == index,
            forall|i: int| 0 <= i < 4 ==> (#[trigger] r.connectors[i]).0@ == seq![0u8, 0u8, 0u8, 0u8],
    {
        let c = ConnectorID::default();
        Module { index, connectors: [c, c, c, c] }
    }

    /// The default adjacency predicate: whether this module may stand on the
    /// neighbour in direction `dir` of `from`, that is, whether it is
    /// compatible with at least one module of `from`'s current superposition.
    pub fn is_possible(&self, from: &Slot, dir: Direction) -> (r: bool)
        ensures
            r == fits(*self, from.superposition@, dir),
    {
        let back = dir.reverse();
        let bi = back.index();
        let di = dir.index();
        let n = from.superposition.len();
        let mut i: usize = 0;
        while i < n
            invariant
                n == from.superposition@.len(),
                0 <= i <= n,
                bi == dir.rev().idx(),
                di == dir.idx(),
                bi < 4,
                di < 4,
                forall|j: int|
                    0 <= j < i ==> self.connectors[dir.rev().idx()]
                        != (#[trigger] from.superposition@[j]).connectors[dir.idx()],
            decreases n - i,
        {
            if self.connectors[bi] == from.superposition[i].connectors[di] {
                return true;
            }
            i += 1;
        }
        false
    }
}

/// Adjacency symmetry: if module `a`'s connector in direction `d` equals
/// module `b`'s connector in the reverse direction, then `a` is possible
/// next to a slot whose only candidate is `b` in the reverse of `d`, and
/// `b` is possible next to a slot whose only candidate is `a` in `d`.
pub proof fn lemma_adjacency_symmetry(a: Module, b: Module, d: Direction)
    requires
        a.connectors[d.idx()] == b.connectors[d.rev().idx()],
    ensures
        fits(a, seq![b], d.rev()),
        fits(b, seq![a], d),
{
    Direction::lemma_reverse_involutive(d);
    assert(seq![b][0] == b);
    assert(seq![a][0] == a);
}

impl Default for Module {
    /// A module with tile index zero and all-zero connectors.
    fn default() -> (r: Self)
        ensures
            r.index == 0,
            forall|i: int| 0 <= i < 4 ==> (#[trigger] r.connectors[i]).0@ == seq![0u8, 0u8, 0u8, 0u8],
    {
        Module::new(0)
    }
}

/// A fresh vector holding the same modules in the same order.
pub(crate) fn clone_modules(v: &Vec<Module>) -> (r: Vec<Module>)
    ensures
        r@ == v@,
{
    let mut r: Vec<Module> = Vec::new();
    let mut i: usize = 0;
    while i < v.len()
        invariant
            0 <= i <= v@.len(),
            r@ == v@.subrange(0, i as int),
        decreases v@.len() - i,
    {
        r.push(v[i]);
        proof {
            assert(r@ =~= v@.subrange(0, i + 1 as int));
        }
        i += 1;
    }
    proof {
        assert(r@ =~= v@);
    }
    r
}

} // verus!
