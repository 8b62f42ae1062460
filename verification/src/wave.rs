//! The wave: grid ownership, seeding, propagation and contradiction
//! detection for the collapse algorithm.

use vstd::arithmetic::div_mod::lemma_fundamental_div_mod;
use vstd::arithmetic::div_mod::lemma_fundamental_div_mod_converse;
use vstd::arithmetic::div_mod::lemma_mod_bound;
use vstd::arithmetic::mul::lemma_mul_inequality;
use vstd::arithmetic::mul::lemma_mul_is_commutative;
use vstd::prelude::*;
use vstd::set_lib::lemma_int_range;
use vstd::set_lib::lemma_len_subset;
use vstd::set_lib::set_int_range;

use crate::conector::ConnectorID;
use crate::direction::Direction;
use crate::module::clone_modules;
use crate::module::fits;
use crate::module::Module;
use crate::rng::random_below;
use crate::slot::Slot;
use crate::subseq::lemma_member_singleton_subsequence;
use crate::subseq::lemma_subsequence_membership;
use crate::subseq::lemma_subsequence_singleton;
use crate::subseq::lemma_subsequence_push_right;
use crate::subseq::lemma_subsequence_refl;
use crate::subseq::lemma_subsequence_trans;
use crate::subseq::subsequence_of;

verus! {

/// An external source of pixel data: a tile exposes its size and four
/// colour channel bytes per pixel. The engine never interprets the pixels
/// beyond handing them to a constraint strategy.
pub trait Image {
    fn size(&self) -> (usize, usize);

    fn get_pixel_at(&self, x: usize, y: usize) -> [u8; 4];
}

/// A constraint strategy: derives the connector fingerprint of one side of
/// a tile. Substituting it changes which sides are considered to fit.
pub trait Constraint<I> {
    fn connector(&self, img: &I, dir: Direction) -> ConnectorID;
}

/// The one failure of the engine: a slot's candidate set became empty
/// during propagation. Carries the coordinates of the offending slot.
#[derive(Debug, PartialEq, Eq, Structural, Clone, Copy)]
pub struct Contradiction {
    pub x: usize,
    pub y: usize,
}

/// Wave holds the state of a wave collapse function: the grid of slots,
/// the canonical module list, and the visited-slot history of the current
/// propagation attempt.
pub struct Wave {
    /// Width of the grid.
    pub width: usize,
    /// Height of the grid.
    pub height: usize,
    /// Input tiles.
    pub input: Vec<Module>,
    /// 2D grid of slots, row-major: the slot at (x, y) sits at y * width + x.
    pub grid: Vec<Slot>,
    /// Slots that have been visited during the current iteration.
    pub history: Vec<Slot>,
}

impl Wave {
    /// Dimensions and module list are usable: positive sides, at least one
    /// module, and a grid that fits in memory.
    pub open spec fn base_wf(self) -> bool {
        &&& self.width >= 1
        &&& self.height >= 1
        &&& self.input@.len() >= 1
        &&& self.width * self.height <= usize::MAX
    }

    /// The grid has one slot per cell, each carrying its own row-major
    /// coordinates, and no superposition exceeds the module list.
    pub open spec fn grid_wf(self) -> bool {
        &&& self.grid@.len() == self.width * self.height
        &&& forall|i: int|
            0 <= i < self.grid@.len() ==> (#[trigger] self.grid@[i]).x == i % (self.width as int)
                && self.grid@[i].y == i / (self.width as int)
                && self.grid@[i].superposition@.len() <= self.input@.len()
    }

    /// Every history entry lies on the grid, and no coordinate pair is
    /// recorded twice: a slot visited in the current attempt is never
    /// revisited.
    pub open spec fn history_wf(self) -> bool {
        &&& forall|i: int|
            0 <= i < self.history@.len() ==> (#[trigger] self.history@[i]).x < self.width
                && self.history@[i].y < self.height
        &&& forall|i: int, j: int|
            0 <= i < j < self.history@.len() ==> !((#[trigger] self.history@[i]).x == (
            #[trigger] self.history@[j]).x && self.history@[i].y == self.history@[j].y)
    }

    /// The wave is fully well-formed: usable dimensions, a populated grid,
    /// and a valid visited history.
    pub open spec fn wf(self) -> bool {
        &&& self.base_wf()
        &&& self.grid_wf()
        &&& self.history_wf()
    }

    /// Every slot is resolved: each superposition holds exactly one module.
    /// A slot with an empty superposition is not resolved.
    pub open spec fn is_collapsed_spec(self) -> bool {
        forall|i: int|
            0 <= i < self.grid@.len() ==> (#[trigger] self.grid@[i]).superposition@.len() == 1
    }

    /// Whether `slot` has a neighbour in `direction`; false exactly on the
    /// grid edge facing that direction.
    pub open spec fn has_neighbor_spec(self, slot: Slot, direction: Direction) -> bool {
        match direction {
            Direction::Up => slot.y > 0,
            Direction::Down => slot.y < self.height - 1,
            Direction::Left => slot.x > 0,
            Direction::Right => slot.x < self.width - 1,
        }
    }

    /// The row-major grid index of the neighbour of `slot` in `direction`.
    pub open spec fn neighbor_index(self, slot: Slot, direction: Direction) -> int {
        match direction {
            Direction::Up => slot.x + (slot.y - 1) * self.width,
            Direction::Down => slot.x + (slot.y + 1) * self.width,
            Direction::Left => (slot.x - 1) + slot.y * self.width,
            Direction::Right => (slot.x + 1) + slot.y * self.width,
        }
    }

    /// One propagation attempt was seeded: the slot at `j` collapsed to a
    /// single module of the input list, every other slot holds the full
    /// list, and the history holds a copy of the seed alone.
    pub open spec fn seeded_at(self, j: int) -> bool {
        &&& 0 <= j < self.grid@.len()
        &&& self.grid@[j].superposition@.len() == 1
        &&& self.input@.contains(self.grid@[j].superposition@[0])
        &&& forall|i: int|
            0 <= i < self.grid@.len() && i != j ==> (#[trigger] self.grid@[i]).superposition@
                == self.input@
        &&& self.history@.len() == 1
        &&& same_slot(self.history@[0], self.grid@[j])
    }

    /// Whether a slot with the coordinates of `slot` already stands in the
    /// history of the current attempt.
    pub open spec fn visited_spec(self, slot: Slot) -> bool {
        coords_in(self.history@, slot)
    }

    /// The grid index named by the history's single snapshot.
    pub open spec fn seed_index(self) -> int {
        self.history@[0].y * self.width + self.history@[0].x
    }

    /// The state that a seeding leaves: a one-entry history whose snapshot
    /// matches a resolved grid slot, with undecided slots still present.
    pub open spec fn seeded_shape(self) -> bool {
        &&& self.history@.len() == 1
        &&& !self.is_collapsed_spec()
        &&& 0 <= self.seed_index() < self.grid@.len()
        &&& self.grid@[self.seed_index()].superposition@.len() == 1
        &&& self.grid@[self.seed_index()].superposition@ == self.history@[0].superposition@
    }

    /// Local adjacency consistency around the slot at `p`: every candidate
    /// that a neighbour of that slot still holds fits next to the slot's
    /// superposition.
    pub open spec fn neighbors_fit(self, p: int) -> bool
        recommends
            0 <= p < self.grid@.len(),
    {
        forall|dd: Direction|
            #![trigger self.has_neighbor_spec(self.grid@[p], dd)]
            self.has_neighbor_spec(self.grid@[p], dd) ==> all_fit(
                self.grid@[self.neighbor_index(self.grid@[p], dd)].superposition@,
                self.grid@[p].superposition@,
                dd,
            )
    }

    /// In a well-formed grid, every slot's coordinates lie within the
    /// grid's sides.
    proof fn lemma_grid_coords_bounded(self)
        requires
            self.base_wf(),
            self.grid_wf(),
        ensures
            forall|i: int|
                0 <= i < self.grid@.len() ==> (#[trigger] self.grid@[i]).x < self.width
                    && self.grid@[i].y < self.height,
    {
        assert forall|i: int|
            0 <= i < self.grid@.len() implies (#[trigger] self.grid@[i]).x < self.width
            && self.grid@[i].y < self.height by {
            lemma_mod_bound(i, self.width as int);
            lemma_fundamental_div_mod(i, self.width as int);
            assert(self.grid@[i].y * self.width <= i) by (nonlinear_arith)
                requires
                    self.grid@[i].y == i / (self.width as int),
                    self.grid@[i].x == i % (self.width as int),
                    i == (self.width as int) * (i / (self.width as int)) + i % (self.width as int),
                    self.grid@[i].x >= 0,
            ;
            assert(self.grid@[i].y < self.height) by (nonlinear_arith)
                requires
                    self.grid@[i].y * self.width <= i,
                    i < self.width * self.height,
                    self.width >= 1,
                    self.grid@[i].y >= 0,
            ;
        }
    }

    /// A neighbour lies on the grid and never shares the coordinates of
    /// the slot it neighbours: its row-major index resolves to coordinates
    /// one step away.
    proof fn lemma_neighbor_coords(self, s: Slot, dd: Direction)
        requires
            self.base_wf(),
            self.grid_wf(),
            s.x < self.width,
            s.y < self.height,
            self.has_neighbor_spec(s, dd),
        ensures
            0 <= self.neighbor_index(s, dd) < self.grid@.len(),
            !(self.grid@[self.neighbor_index(s, dd)].x == s.x
                && self.grid@[self.neighbor_index(s, dd)].y == s.y),
    {
        let w = self.width as int;
        assert((self.height - 1) * self.width + self.width == self.height * self.width)
            by (nonlinear_arith);
        lemma_mul_is_commutative(self.height as int, self.width as int);
        match dd {
            Direction::Up => {
                lemma_mul_inequality(s.y - 1, self.height - 1, w);
                lemma_fundamental_div_mod_converse(s.x + (s.y - 1) * w, w, s.y - 1, s.x as int);
            },
            Direction::Down => {
                lemma_mul_inequality(s.y + 1, self.height - 1, w);
                lemma_fundamental_div_mod_converse(s.x + (s.y + 1) * w, w, s.y + 1, s.x as int);
            },
            Direction::Left => {
                lemma_mul_inequality(s.y as int, self.height - 1, w);
                lemma_fundamental_div_mod_converse((s.x - 1) + s.y * w, w, s.y as int, s.x - 1);
            },
            Direction::Right => {
                lemma_mul_inequality(s.y as int, self.height - 1, w);
                lemma_fundamental_div_mod_converse((s.x + 1) + s.y * w, w, s.y as int, s.x + 1);
            },
        }
    }

    /// The row-major index of a well-formed grid slot is recovered from
    /// its coordinates.
    proof fn lemma_index_of_coords(self, i: int)
        requires
            self.base_wf(),
            self.grid_wf(),
            0 <= i < self.grid@.len(),
        ensures
            self.grid@[i].y * self.width + self.grid@[i].x == i,
    {
        lemma_fundamental_div_mod(i, self.width as int);
        assert(self.grid@[i].y * self.width == (self.width as int) * (i / (self.width as int)))
            by (nonlinear_arith)
            requires
                self.grid@[i].y == i / (self.width as int),
        ;
    }

    /// Check if all the slots have been collapsed.
    pub fn is_collapsed(&self) -> (r: bool)
        ensures
            r == self.is_collapsed_spec(),
    {
        let n = self.grid.len();
        let mut i: usize = 0;
        while i < n
            invariant
                n == self.grid@.len(),
                0 <= i <= n,
                forall|j: int|
                    0 <= j < i ==> (#[trigger] self.grid@[j]).superposition@.len() == 1,
            decreases n - i,
        {
            if self.grid[i].superposition.len() != 1 {
                return false;
            }
            i += 1;
        }
        true
    }

    /// Checks if the slot has a neighbor in the given direction (to avoid
    /// out of bounds accesses).
    fn has_neighbor(&self, slot: &Slot, direction: Direction) -> (r: bool)
        requires
            self.width >= 1,
            self.height >= 1,
        ensures
            r == self.has_neighbor_spec(*slot, direction),
    {
        match direction {
            Direction::Up => slot.y > 0,
            Direction::Down => slot.y < self.height - 1,
            Direction::Left => slot.x > 0,
            Direction::Right => slot.x < self.width - 1,
        }
    }

    /// Checks if the slot has already been visited in the current
    /// iteration. This is used to avoid propagating the same slot twice.
    fn has_visited(&self, slot: &Slot) -> (r: bool)
        ensures
            r == self.visited_spec(*slot),
    {
        let n = self.history.len();
        let mut i: usize = 0;
        while i < n
            invariant
                n == self.history@.len(),
                0 <= i <= n,
                forall|j: int|
                    0 <= j < i ==> !((#[trigger] self.history@[j]).x == slot.x
                        && self.history@[j].y == slot.y),
            decreases n - i,
        {
            if self.history[i].x == slot.x && self.history[i].y == slot.y {
                return true;
            }
            i += 1;
        }
        false
    }

    /// Create a new wave collapse function with the given width and height.
    /// The default constraint strategy samples 3 pixels along each side.
    /// Use `with_custom_constraint` to substitute another strategy.
    pub fn new<I: Image>(input: &Vec<I>, width: usize, height: usize) -> (r: Wave)
        requires
            input@.len() >= 1,
            width >= 1,
            height >= 1,
            width * height <= usize::MAX,
        ensures
            r.base_wf(),
            r.width == width,
            r.height == height,
            r.input@.len() == input@.len(),
            forall|i: int| 0 <= i < r.input@.len() ==> (#[trigger] r.input@[i]).index == i,
            r.grid@.len() == 0,
            r.history@.len() == 0,
    {
        Wave::with_custom_constraint(input, width, height, &get_constraint_fn(3))
    }

    /// Build one module per tile, its connectors computed by the given
    /// strategy for all four directions, preserving the input order as the
    /// module's index. The grid stays empty until `initialize` is called.
    pub fn with_custom_constraint<I: Image, C: Constraint<I>>(
        input: &Vec<I>,
        width: usize,
        height: usize,
        custom_constraint_fn: &C,
    ) -> (r: Wave)
        requires
            input@.len() >= 1,
            width >= 1,
            height >= 1,
            width * height <= usize::MAX,
        ensures
            r.base_wf(),
            r.width == width,
            r.height == height,
            r.input@.len() == input@.len(),
            forall|i: int| 0 <= i < r.input@.len() ==> (#[trigger] r.input@[i]).index == i,
            r.grid@.len() == 0,
            r.history@.len() == 0,
    {
        let mut modules: Vec<Module> = Vec::new();
        let n = input.len();
        let mut idx: usize = 0;
        while idx < n
            invariant
                n == input@.len(),
                0 <= idx <= n,
                modules@.len() == idx,
                forall|i: int| 0 <= i < idx ==> (#[trigger] modules@[i]).index == i,
            decreases n - idx,
        {
            let mut module = Module::new(idx);
            let dirs = Direction::all();
            let mut d: usize = 0;
            while d < dirs.len()
                invariant
                    dirs@.len() == 4,
                    0 <= d <= 4,
                    n == input@.len(),
                    idx < n,
                    module.index == idx,
                decreases dirs@.len() - d,
            {
                let dir = dirs[d];
                let c = custom_constraint_fn.connector(&input[idx], dir);
                let di = dir.index();
                module.connectors[di] = c;
                d += 1;
            }
            modules.push(module);
            idx += 1;
        }
        Wave { width, height, input: modules, grid: Vec::new(), history: Vec::new() }
    }

    /// Populate the grid with the input modules: every slot gets the full
    /// module list as its superposition. Then choose one random slot,
    /// collapse it, and push it onto a cleared history as the seed of the
    /// first propagation attempt.
    pub fn initialize(&mut self)
        requires
            old(self).base_wf(),
        ensures
            final(self).wf(),
            final(self).width == old(self).width,
            final(self).height == old(self).height,
            final(self).input@ == old(self).input@,
            final(self).grid@.len() == old(self).width * old(self).height,
            exists|j: int| #[trigger] final(self).seeded_at(j),
    {
        let n = self.width * self.height;
        let mut grid: Vec<Slot> = Vec::new();
        let mut idx: usize = 0;
        while idx < n
            invariant
                n == self.width * self.height,
                self.width >= 1,
                self.height >= 1,
                self.input@.len() >= 1,
                grid@.len() == idx,
                0 <= idx <= n,
                forall|i: int|
                    0 <= i < idx ==> (#[trigger] grid@[i]).x == i % (self.width as int)
                        && grid@[i].y == i / (self.width as int) && grid@[i].superposition@
                        == self.input@,
            decreases n - idx,
        {
            let x = idx % self.width;
            let y = idx / self.width;
            let superposition = clone_modules(&self.input);
            grid.push(Slot { x, y, superposition });
            idx += 1;
        }
        self.grid = grid;
        self.history = Vec::new();
        proof {
            assert forall|i: int| 0 <= i < self.grid@.len() implies (#[trigger] self.grid@[i]).x
                < self.width && self.grid@[i].y < self.height by {
                lemma_mod_bound(i, self.width as int);
                lemma_fundamental_div_mod(i, self.width as int);
                assert(self.grid@[i].y * self.width <= i) by (nonlinear_arith)
                    requires
                        self.grid@[i].y == i / (self.width as int),
                        self.grid@[i].x == i % (self.width as int),
                        i == (self.width as int) * (i / (self.width as int)) + i % (
                        self.width as int),
                        self.grid@[i].x >= 0,
                ;
                assert(self.grid@[i].y < self.height) by (nonlinear_arith)
                    requires
                        self.grid@[i].y * self.width <= i,
                        i < self.width * self.height,
                        self.width >= 1,
                        self.grid@[i].y >= 0,
                ;
            }
        }
        let ghost pre = self.grid@;
        let seeded = self.collapse_random();
        match seeded {
            Some(slot) => {
                self.history.push(slot);
                proof {
                    let j = choose|j: int|
                        #[trigger] collapsed_at(pre, self.grid@, j) && same_slot(
                            self.history@[0],
                            self.grid@[j],
                        );
                    assert(pre[j].superposition@ == self.input@);
                    assert forall|i: int|
                        0 <= i < self.grid@.len() && i != j implies (
                    #[trigger] self.grid@[i]).superposition@ == self.input@ by {
                        assert(self.grid@[i] == pre[i]);
                    }
                    assert(self.seeded_at(j));
                }
            },
            None => {
                proof {
                    let w = old(self).width as int;
                    let h = old(self).height as int;
                    assert(w * h >= 1) by (nonlinear_arith)
                        requires
                            w >= 1,
                            h >= 1,
                    ;
                    assert(false);
                }
            },
        }
    }

    /// Pick a random slot from the grid and collapse it; a copy of the
    /// collapsed slot is returned. On an empty grid nothing happens.
    pub fn collapse_random(&mut self) -> (r: Option<Slot>)
        ensures
            final(self).width == old(self).width,
            final(self).height == old(self).height,
            final(self).input@ == old(self).input@,
            final(self).history@ == old(self).history@,
            final(self).grid@.len() == old(self).grid@.len(),
            old(self).grid@.len() == 0 ==> r is None && final(self).grid@ == old(self).grid@,
            old(self).grid@.len() > 0 ==> (r matches Some(s) && exists|j: int|
                #[trigger] collapsed_at(old(self).grid@, final(self).grid@, j) && same_slot(
                    s,
                    final(self).grid@[j],
                )),
    {
        let n = self.grid.len();
        if n == 0 {
            return None;
        }
        let j = random_below(n);
        self.grid[j].collapse();
        let copy = self.grid[j].clone();
        proof {
            assert(self.grid@ =~= old(self).grid@.update(j as int, self.grid@[j as int]));
            assert(collapsed_at(old(self).grid@, self.grid@, j as int));
        }
        Some(copy)
    }

    /// Collapse the first slot whose superposition is smallest among the
    /// undecided slots (superposition size above one); a copy of the
    /// collapsed slot is returned. When no slot is undecided, the grid is
    /// left untouched and nothing is returned.
    pub fn collapse_least_entropy(&mut self) -> (r: Option<Slot>)
        ensures
            final(self).width == old(self).width,
            final(self).height == old(self).height,
            final(self).input@ == old(self).input@,
            final(self).history@ == old(self).history@,
            final(self).grid@.len() == old(self).grid@.len(),
            (r is Some) <==> exists|i: int|
                0 <= i < old(self).grid@.len() && (#[trigger] old(self).grid@[i]).superposition@.len() > 1,
            r is None ==> final(self).grid@ == old(self).grid@,
            r matches Some(s) ==> exists|j: int|
                #[trigger] collapsed_at(old(self).grid@, final(self).grid@, j) && least_entropy_at(
                    old(self).grid@,
                    j,
                ) && same_slot(s, final(self).grid@[j]),
    {
        let n = self.grid.len();
        let mut best: Option<usize> = None;
        let mut i: usize = 0;
        while i < n
            invariant
                n == self.grid@.len(),
                0 <= i <= n,
                best is None ==> forall|k: int|
                    0 <= k < i ==> (#[trigger] self.grid@[k]).superposition@.len() <= 1,
                best matches Some(b) ==> 0 <= b < i && self.grid@[b as int].superposition@.len()
                    > 1 && (forall|k: int|
                    0 <= k < i && (#[trigger] self.grid@[k]).superposition@.len() > 1
                        ==> self.grid@[b as int].superposition@.len()
                        <= self.grid@[k].superposition@.len()) && (forall|k: int|
                    0 <= k < b && (#[trigger] self.grid@[k]).superposition@.len() > 1
                        ==> self.grid@[b as int].superposition@.len()
                        < self.grid@[k].superposition@.len()),
            decreases n - i,
        {
            let e = self.grid[i].superposition.len();
            if e > 1 {
                let better = match best {
                    None => true,
                    Some(b) => e < self.grid[b].superposition.len(),
                };
                if better {
                    best = Some(i);
                }
            }
            i += 1;
        }
        match best {
            None => None,
            Some(j) => {
                self.grid[j].collapse();
                let copy = self.grid[j].clone();
                proof {
                    assert(self.grid@ =~= old(self).grid@.update(j as int, self.grid@[j as int]));
                    assert(collapsed_at(old(self).grid@, self.grid@, j as int));
                    assert(least_entropy_at(old(self).grid@, j as int));
                }
                Some(copy)
            },
        }
    }

    /// Get the neighbor of the slot in the given direction. The caller has
    /// checked with `has_neighbor` that the neighbour exists.
    fn get_neighbor(&self, slot: &Slot, direction: Direction) -> (r: Option<&Slot>)
        requires
            self.wf(),
            slot.x < self.width,
            slot.y < self.height,
            self.has_neighbor_spec(*slot, direction),
        ensures
            r matches Some(s) && 0 <= self.neighbor_index(*slot, direction) < self.grid@.len()
                && *s == self.grid@[self.neighbor_index(*slot, direction)],
    {
        proof {
            assert((self.height - 1) * self.width + self.width == self.height * self.width)
                by (nonlinear_arith);
            lemma_mul_is_commutative(self.height as int, self.width as int);
        }
        match direction {
            Direction::Up => {
                proof {
                    lemma_mul_inequality(
                        slot.y - 1 as int,
                        self.height - 1 as int,
                        self.width as int,
                    );
                }
                Some(&self.grid[slot.x + (slot.y - 1) * self.width])
            },
            Direction::Down => {
                proof {
                    lemma_mul_inequality(
                        slot.y + 1 as int,
                        self.height - 1 as int,
                        self.width as int,
                    );
                }
                Some(&self.grid[slot.x + (slot.y + 1) * self.width])
            },
            Direction::Left => {
                proof {
                    lemma_mul_inequality(slot.y as int, self.height - 1 as int, self.width as int);
                }
                Some(&self.grid[(slot.x - 1) + slot.y * self.width])
            },
            Direction::Right => {
                proof {
                    lemma_mul_inequality(slot.y as int, self.height - 1 as int, self.width as int);
                }
                Some(&self.grid[(slot.x + 1) + slot.y * self.width])
            },
        }
    }

    /// Returns the modules of `b`'s superposition that remain possible
    /// next to `a` in the given direction, in their original order.
    fn get_possible_modules(&self, a: &Slot, b: &Slot, direction: Direction) -> (r: Vec<
        Module,
    >)
        ensures
            r@ == filter_fits(b.superposition@, a.superposition@, direction),
    {
        let mut possible_modules: Vec<Module> = Vec::new();
        let n = b.superposition.len();
        let mut i: usize = 0;
        while i < n
            invariant
                n == b.superposition@.len(),
                0 <= i <= n,
                possible_modules@ == filter_fits(
                    b.superposition@.subrange(0, i as int),
                    a.superposition@,
                    direction,
                ),
            decreases n - i,
        {
            let module = b.superposition[i];
            proof {
                lemma_filter_fits_snoc(
                    b.superposition@.subrange(0, i as int),
                    b.superposition@[i as int],
                    a.superposition@,
                    direction,
                );
                assert(b.superposition@.subrange(0, i as int).push(b.superposition@[i as int])
                    =~= b.superposition@.subrange(0, i + 1 as int));
            }
            if module.is_possible(a, direction) {
                possible_modules.push(module);
            }
            i += 1;
        }
        proof {
            assert(b.superposition@.subrange(0, n as int) =~= b.superposition@);
        }
        possible_modules
    }

    /// One propagation pass: if the history is empty, seed it by collapsing
    /// the least-entropy slot, then walk depth-first from the top of the
    /// history, narrowing each unvisited neighbour to the modules that
    /// remain possible. Fails with the coordinates of the first slot whose
    /// candidate set becomes empty; the history is then left as it stands.
    /// No superposition ever grows, and a slot already visited in this
    /// attempt is never narrowed again.
    fn recurse(&mut self) -> (r: Result<(), Contradiction>)
        requires
            old(self).wf(),
        ensures
            final(self).wf(),
            final(self).width == old(self).width,
            final(self).height == old(self).height,
            final(self).input@ == old(self).input@,
            final(self).grid@.len() == old(self).grid@.len(),
            forall|i: int|
                0 <= i < old(self).grid@.len() ==> (#[trigger] final(self).grid@[i]).superposition@.len() <= old(self).grid@[i].superposition@.len()
                    && final(self).grid@[i].x == old(self).grid@[i].x && final(self).grid@[i].y
                    == old(self).grid@[i].y,
            narrows(old(self).grid@, final(self).grid@),
            forall|i: int|
                0 <= i < old(self).grid@.len() && coords_in(old(self).history@, old(self).grid@[i])
                    ==> (#[trigger] final(self).grid@[i]).superposition@ == old(self).grid@[i].superposition@,
            r is Ok && old(self).history@.len() > 0 ==> final(self).history@ == old(self).history@,
            r is Ok ==> forall|i: int|
                0 <= i < old(self).grid@.len() && old(self).grid@[i].superposition@.len() > 0
                    ==> (#[trigger] final(self).grid@[i]).superposition@.len() > 0,
            old(self).is_collapsed_spec() ==> r is Ok && final(self).grid@ == old(self).grid@
                && final(self).history@ == old(self).history@,
            old(self).history@.len() == 0 && (forall|i: int|
                0 <= i < old(self).grid@.len() ==> (#[trigger] old(self).grid@[i]).superposition@.len() <= 1)
                ==> r is Ok && final(self).grid@ == old(self).grid@ && final(self).history@ == old(self).history@,
            r is Ok && old(self).history@.len() == 0 && (exists|i: int|
                0 <= i < old(self).grid@.len() && (#[trigger] old(self).grid@[i]).superposition@.len() > 1)
                ==> exists|j: int|
                    #[trigger] least_entropy_at(old(self).grid@, j) && final(self).grid@[j].superposition@.len() == 1
                        && old(self).grid@[j].superposition@.contains(final(self).grid@[j].superposition@[0])
                        && final(self).history@.len() == 1 && same_slot(final(self).history@[0], final(self).grid@[j]),
            r is Ok && old(self).history@.len() > 0 && !old(self).is_collapsed_spec() ==> (forall|dd: Direction|
                #![trigger old(self).has_neighbor_spec(old(self).history@.last(), dd)]
                old(self).has_neighbor_spec(old(self).history@.last(), dd) ==> coords_in(
                    old(self).history@,
                    old(self).grid@[old(self).neighbor_index(old(self).history@.last(), dd)],
                ) || (0 <= old(self).neighbor_index(old(self).history@.last(), dd) < final(self).grid@.len()
                    && all_fit(
                    final(self).grid@[old(self).neighbor_index(old(self).history@.last(), dd)].superposition@,
                    old(self).history@.last().superposition@,
                    dd,
                ))),
            r matches Err(e) ==> e.x < final(self).width && e.y < final(self).height && 0 <= e.y
                * final(self).width + e.x < final(self).grid@.len() && final(self).grid@[e.y
                * final(self).width + e.x].superposition@.len() == 0
                && old(self).grid@[e.y * final(self).width + e.x].superposition@.len() > 0,
            r is Err ==> old(self).history@.is_prefix_of(final(self).history@)
                && final(self).history@.len() >= 1,
        decreases self.grid@.len() - self.history@.len(),
    {
        if self.is_collapsed() {
            proof {
                lemma_narrows_refl(self.grid@);
            }
            return Ok(());
        }
        if self.history.len() == 0 {
            let seeded = self.collapse_least_entropy();
            match seeded {
                Some(slot) => {
                    let ghost s0 = slot;
                    self.history.push(slot);
                    proof {
                        let j = choose|j: int|
                            #[trigger] collapsed_at(old(self).grid@, self.grid@, j)
                                && least_entropy_at(old(self).grid@, j) && same_slot(
                                s0,
                                self.grid@[j],
                            );
                        old(self).lemma_grid_coords_bounded();
                        assert(self.grid@[j] == old(self).grid@.update(j, self.grid@[j])[j]);
                        assert(self.history@[0] == s0);
                        assert(exists|j: int|
                            #[trigger] collapsed_at(old(self).grid@, self.grid@, j)
                                && least_entropy_at(old(self).grid@, j) && same_slot(
                                self.history@[0],
                                self.grid@[j],
                            ));
                    }
                },
                None => {
                    proof {
                        lemma_narrows_refl(self.grid@);
                    }
                    return Ok(());
                },
            }
        }
        let ghost h0 = self.history@;
        let ghost g1 = self.grid@;
        let ghost seedj: int = choose|j: int|
            #[trigger] collapsed_at(old(self).grid@, g1, j) && least_entropy_at(old(self).grid@, j)
                && same_slot(h0[0], g1[j]);
        proof {
            if old(self).history@.len() == 0 {
                assert(collapsed_at(old(self).grid@, g1, seedj) && least_entropy_at(
                    old(self).grid@,
                    seedj,
                ) && same_slot(h0[0], g1[seedj]));
                lemma_collapsed_at_narrows(old(self).grid@, g1, seedj);
            } else {
                lemma_narrows_refl(g1);
            }
            assert(narrows(old(self).grid@, g1));
        }
        let previous_slot = self.history[self.history.len() - 1].clone();
        let dirs = Direction::all();
        let mut d: usize = 0;
        while d < 4
            invariant
                0 <= d <= 4,
                dirs@.len() == 4,
                dirs@ == seq![Direction::Up, Direction::Right, Direction::Down, Direction::Left],
                self.wf(),
                !old(self).is_collapsed_spec(),
                self.width == old(self).width,
                self.height == old(self).height,
                self.input@ == old(self).input@,
                self.grid@.len() == old(self).grid@.len(),
                g1.len() == old(self).grid@.len(),
                self.history@ == h0,
                h0.len() > 0,
                old(self).history@.len() > 0 ==> h0 == old(self).history@ && g1 == old(self).grid@,
                old(self).history@.len() == 0 ==> h0.len() == 1 && collapsed_at(
                    old(self).grid@,
                    g1,
                    seedj,
                ) && least_entropy_at(old(self).grid@, seedj) && same_slot(h0[0], g1[seedj]),
                same_slot(previous_slot, h0.last()),
                previous_slot.x < self.width,
                previous_slot.y < self.height,
                forall|i: int|
                    0 <= i < old(self).grid@.len() ==> (#[trigger] self.grid@[i]).superposition@.len()
                        <= old(self).grid@[i].superposition@.len() && self.grid@[i].x == old(self).grid@[i].x && self.grid@[i].y == old(self).grid@[i].y,
                narrows(old(self).grid@, self.grid@),
                forall|i: int|
                    0 <= i < self.grid@.len() && coords_in(h0, self.grid@[i]) ==> (
                    #[trigger] self.grid@[i]).superposition@ == g1[i].superposition@,
                forall|i: int|
                    0 <= i < old(self).grid@.len() && old(self).grid@[i].superposition@.len() > 0
                        ==> (#[trigger] self.grid@[i]).superposition@.len() > 0,
                old(self).history@.len() > 0 ==> (forall|dd: Direction|
                    #![trigger old(self).has_neighbor_spec(old(self).history@.last(), dd)]
                    dd.idx() < d && old(self).has_neighbor_spec(old(self).history@.last(), dd)
                        ==> coords_in(
                        old(self).history@,
                        old(self).grid@[old(self).neighbor_index(old(self).history@.last(), dd)],
                    ) || (0 <= old(self).neighbor_index(old(self).history@.last(), dd)
                        < self.grid@.len() && all_fit(
                        self.grid@[old(self).neighbor_index(old(self).history@.last(), dd)].superposition@,
                        old(self).history@.last().superposition@,
                        dd,
                    ))),
            decreases 4 - d,
        {
            let ghost gtop = self.grid@;
            let direction = dirs[d];
            proof {
                if d == 0 {
                    assert(dirs@[0] == Direction::Up);
                } else if d == 1 {
                    assert(dirs@[1] == Direction::Right);
                } else if d == 2 {
                    assert(dirs@[2] == Direction::Down);
                } else {
                    assert(dirs@[3] == Direction::Left);
                }
                assert(direction.idx() == d as int);
            }
            if self.has_neighbor(&previous_slot, direction) {
                let next_opt = self.get_neighbor(&previous_slot, direction);
                let ghost nidx = self.neighbor_index(previous_slot, direction);
                let mut next_slot = match next_opt {
                    Some(s) => s.clone(),
                    None => {
                        proof {
                            assert(false);
                        }
                        Slot { x: 0, y: 0, superposition: Vec::new() }
                    },
                };
                if !self.has_visited(&next_slot) {
                    let possible = self.get_possible_modules(
                        &previous_slot,
                        &next_slot,
                        direction,
                    );
                    if possible.len() == next_slot.superposition.len() {
                        proof {
                            lemma_filter_fits_full(
                                next_slot.superposition@,
                                previous_slot.superposition@,
                                direction,
                            );
                        }
                    }
                    if possible.len() != next_slot.superposition.len() {
                        proof {
                            self.lemma_index_of_coords(nidx);
                            lemma_filter_fits_len(
                                next_slot.superposition@,
                                previous_slot.superposition@,
                                direction,
                            );
                            lemma_filter_fits_subsequence(
                                next_slot.superposition@,
                                previous_slot.superposition@,
                                direction,
                            );
                        }
                        proof {
                            lemma_filter_fits_members(
                                next_slot.superposition@,
                                previous_slot.superposition@,
                                direction,
                            );
                        }
                        let ni = next_slot.y * self.width + next_slot.x;
                        let ghost gmid = self.grid@;
                        let ghost old_next_sup = next_slot.superposition@;
                        next_slot.superposition = possible;
                        self.grid[ni] = next_slot.clone();
                        proof {
                            assert(self.grid@ =~= gmid.update(ni as int, self.grid@[ni as int]));
                            assert forall|i: int|
                                0 <= i < self.grid@.len() implies (#[trigger] self.grid@[i]).x == i
                                % (self.width as int) && self.grid@[i].y == i / (self.width as int)
                                && self.grid@[i].superposition@.len() <= self.input@.len() by {
                                if i != ni as int {
                                    assert(self.grid@[i] == gmid[i]);
                                }
                            }
                            assert(self.grid_wf());
                            assert forall|i: int|
                                0 <= i < old(self).grid@.len() implies (
                            #[trigger] self.grid@[i]).superposition@.len() <= old(self).grid@[i].superposition@.len() && self.grid@[i].x == old(self).grid@[i].x && self.grid@[i].y == old(self).grid@[i].y by {
                                if i != ni as int {
                                    assert(self.grid@[i] == gmid[i]);
                                }
                            }
                            assert(old_next_sup == gmid[ni as int].superposition@);
                            assert forall|i: int|
                                0 <= i < old(self).grid@.len() implies subsequence_of(
                                (#[trigger] self.grid@[i]).superposition@,
                                old(self).grid@[i].superposition@,
                            ) by {
                                if i == ni as int {
                                    lemma_subsequence_trans(
                                        self.grid@[i].superposition@,
                                        gmid[i].superposition@,
                                        old(self).grid@[i].superposition@,
                                    );
                                } else {
                                    assert(self.grid@[i] == gmid[i]);
                                }
                            }
                            assert(narrows(old(self).grid@, self.grid@));
                            assert(!coords_in(h0, self.grid@[ni as int]));
                            assert forall|i: int|
                                0 <= i < self.grid@.len() && coords_in(h0, self.grid@[i]) implies (
                            #[trigger] self.grid@[i]).superposition@ == g1[i].superposition@ by {
                                if i != ni as int {
                                    assert(self.grid@[i] == gmid[i]);
                                }
                            }
                            self.lemma_grid_coords_bounded();
                            assert(next_slot.x == self.grid@[ni as int].x);
                            assert(next_slot.y == self.grid@[ni as int].y);
                            assert(next_slot.x < self.width && next_slot.y < self.height);
                        }
                        if next_slot.superposition.len() == 0 {
                            proof {
                                assert(old(self).grid@[ni as int].superposition@.len() > 0);
                                if old(self).history@.len() > 0 {
                                    assert(old(self).history@ =~= self.history@.subrange(
                                        0,
                                        old(self).history@.len() as int,
                                    ));
                                } else {
                                    assert(old(self).history@ =~= self.history@.subrange(0, 0));
                                }
                            }
                            return Err(Contradiction { x: next_slot.x, y: next_slot.y });
                        }
                        self.history.push(next_slot.clone());
                        proof {
                            lemma_distinct_coords_len_bound(
                                self.history@,
                                self.width as int,
                                self.height as int,
                            );
                        }
                        let ghost gpre = self.grid@;
                        let ghost hpre = self.history@;
                        let res = self.recurse();
                        proof {
                            lemma_narrows_trans(old(self).grid@, gpre, self.grid@);
                            assert forall|i: int|
                                0 <= i < self.grid@.len() && coords_in(h0, self.grid@[i]) implies (
                            #[trigger] self.grid@[i]).superposition@ == g1[i].superposition@ by {
                                assert(self.grid@[i].x == gpre[i].x && self.grid@[i].y
                                    == gpre[i].y);
                                assert(coords_in(hpre, gpre[i])) by {
                                    let t = choose|t: int|
                                        0 <= t < h0.len() && (#[trigger] h0[t]).x
                                            == self.grid@[i].x && h0[t].y == self.grid@[i].y;
                                    assert(hpre[t] == h0[t]);
                                }
                                assert(self.grid@[i].superposition@ == gpre[i].superposition@);
                                assert(coords_in(h0, gpre[i]));
                            }
                        }
                        match res {
                            Err(e) => {
                                proof {
                                    assert(gpre[e.y * self.width + e.x].superposition@.len() > 0);
                                    assert(old(self).grid@[e.y * self.width
                                        + e.x].superposition@.len() > 0);
                                    assert(hpre.is_prefix_of(self.history@));
                                    assert forall|t: int|
                                        0 <= t < old(self).history@.len() implies old(self).history@[t]
                                        == self.history@[t] by {
                                        assert(old(self).history@[t] == hpre[t]);
                                        assert(hpre[t] == self.history@.subrange(
                                            0,
                                            hpre.len() as int,
                                        )[t]);
                                    }
                                    assert(old(self).history@ =~= self.history@.subrange(
                                        0,
                                        old(self).history@.len() as int,
                                    ));
                                }
                                return Err(e);
                            },
                            Ok(()) => {},
                        }
                        self.history.pop();
                        proof {
                            assert(self.history@ =~= h0);
                            assert(ni as int == nidx);
                            assert(gtop == gmid);
                            assert forall|i: int|
                                0 <= i < gtop.len() implies subsequence_of(
                                (#[trigger] gpre[i]).superposition@,
                                gtop[i].superposition@,
                            ) by {
                                if i == ni as int {
                                } else {
                                    assert(gpre[i] == gmid[i]);
                                    lemma_subsequence_refl(gpre[i].superposition@);
                                }
                            }
                            assert(narrows(gtop, gpre));
                            lemma_narrows_trans(gtop, gpre, self.grid@);
                            assert(coords_in(hpre, gpre[ni as int])) by {
                                assert(hpre[hpre.len() - 1].x == gpre[ni as int].x
                                    && hpre[hpre.len() - 1].y == gpre[ni as int].y);
                            }
                            assert(self.grid@[ni as int].superposition@
                                == gpre[ni as int].superposition@);
                            assert(all_fit(
                                self.grid@[ni as int].superposition@,
                                previous_slot.superposition@,
                                direction,
                            ));
                        }
                    }
                }
            }
            proof {
                if old(self).history@.len() > 0 {
                    let s = old(self).history@.last();
                    assert(previous_slot.x == s.x && previous_slot.y == s.y
                        && previous_slot.superposition@ == s.superposition@);
                    assert(narrows(gtop, self.grid@)) by {
                        lemma_narrows_refl(self.grid@);
                    }
                    assert(gtop.len() == self.grid@.len());
                    assert forall|dd: Direction|
                        dd.idx() < d + 1 && old(self).has_neighbor_spec(s, dd) implies coords_in(
                        old(self).history@,
                        old(self).grid@[old(self).neighbor_index(s, dd)],
                    ) || (0 <= old(self).neighbor_index(s, dd) < self.grid@.len() && all_fit(
                        self.grid@[old(self).neighbor_index(s, dd)].superposition@,
                        s.superposition@,
                        dd,
                    )) by {
                        if dd.idx() < d {
                            if !coords_in(
                                old(self).history@,
                                old(self).grid@[old(self).neighbor_index(s, dd)],
                            ) {
                                let q = old(self).neighbor_index(s, dd);
                                assert(subsequence_of(
                                    self.grid@[q].superposition@,
                                    gtop[q].superposition@,
                                ));
                                lemma_all_fit_subsequence(
                                    self.grid@[q].superposition@,
                                    gtop[q].superposition@,
                                    s.superposition@,
                                    dd,
                                );
                            }
                        } else {
                            assert(dd.idx() == d);
                            assert(dd == direction);
                        }
                    }
                }
            }
            d += 1;
        }
        proof {
            if old(self).history@.len() == 0 {
                assert(coords_in(h0, self.grid@[seedj])) by {
                    assert(h0[0].x == self.grid@[seedj].x && h0[0].y == self.grid@[seedj].y);
                }
                assert(self.grid@[seedj].superposition@ == g1[seedj].superposition@);
                assert(least_entropy_at(old(self).grid@, seedj));
                assert(self.grid@[seedj].superposition@.len() == 1);
                assert(old(self).grid@[seedj].superposition@.contains(
                    self.grid@[seedj].superposition@[0],
                ));
                assert(same_slot(self.history@[0], self.grid@[seedj]));
            }
        }
        Ok(())
    }

    /// Run up to `attempts` seed-and-propagate passes, clearing the
    /// history after each one. Stops early with success when the whole
    /// grid resolves, or with the first contradiction, which is reported
    /// to the caller without retrying: the engine does not self-heal, and
    /// the usual recovery is a fresh `initialize`. When the budget runs
    /// out without either, the partially resolved grid is left as it is
    /// and success is returned; the caller checks `is_collapsed`. Within
    /// one call, no slot's superposition ever grows.
    pub fn collapse(&mut self, attempts: i32) -> (r: Result<(), Contradiction>)
        requires
            old(self).wf(),
        ensures
            final(self).wf(),
            final(self).width == old(self).width,
            final(self).height == old(self).height,
            final(self).input@ == old(self).input@,
            final(self).grid@.len() == old(self).grid@.len(),
            forall|i: int|
                0 <= i < old(self).grid@.len() ==> (#[trigger] final(self).grid@[i]).superposition@.len() <= old(self).grid@[i].superposition@.len()
                    && final(self).grid@[i].x == old(self).grid@[i].x && final(self).grid@[i].y
                    == old(self).grid@[i].y,
            narrows(old(self).grid@, final(self).grid@),
            r is Ok ==> forall|i: int|
                0 <= i < old(self).grid@.len() && old(self).grid@[i].superposition@.len() > 0
                    ==> (#[trigger] final(self).grid@[i]).superposition@.len() > 0,
            attempts <= 0 ==> r is Ok && *final(self) == *old(self),
            r is Ok && attempts >= 1 ==> final(self).history@.len() == 0,
            old(self).is_collapsed_spec() && attempts >= 1 ==> r is Ok && final(self).grid@
                == old(self).grid@,
            r is Ok && attempts >= 1 && old(self).history@.len() == 0 && (exists|i: int|
                0 <= i < old(self).grid@.len() && (#[trigger] old(self).grid@[i]).superposition@.len() > 1)
                ==> exists|j: int|
                    0 <= j < old(self).grid@.len() && (#[trigger] old(self).grid@[j]).superposition@.len() > 1
                        && final(self).grid@[j].superposition@.len() == 1,
            r is Ok && attempts >= 1 && old(self).seeded_shape() ==> final(self).grid@[old(self).seed_index()].superposition@
                == old(self).grid@[old(self).seed_index()].superposition@ && final(self).neighbors_fit(
                old(self).seed_index(),
            ),
            r matches Err(e) ==> e.x < final(self).width && e.y < final(self).height && 0 <= e.y
                * final(self).width + e.x < final(self).grid@.len() && final(self).grid@[e.y
                * final(self).width + e.x].superposition@.len() == 0
                && old(self).grid@[e.y * final(self).width + e.x].superposition@.len() > 0
                && !final(self).is_collapsed_spec(),
            r is Err ==> final(self).history@.len() >= 1,
    {
        if attempts <= 0 {
            proof {
                lemma_narrows_refl(self.grid@);
            }
            return Ok(());
        }
        let mut k: i32 = 0;
        proof {
            lemma_narrows_refl(self.grid@);
        }
        while k < attempts
            invariant
                0 <= k <= attempts,
                old(self).wf(),
                self.wf(),
                self.width == old(self).width,
                self.height == old(self).height,
                self.input@ == old(self).input@,
                self.grid@.len() == old(self).grid@.len(),
                old(self).is_collapsed_spec() ==> self.grid@ == old(self).grid@,
                k >= 1 ==> self.history@.len() == 0,
                k == 0 ==> self.history@ == old(self).history@ && self.grid@ == old(self).grid@,
                forall|i: int|
                    0 <= i < old(self).grid@.len() ==> (#[trigger] self.grid@[i]).superposition@.len()
                        <= old(self).grid@[i].superposition@.len() && self.grid@[i].x == old(self).grid@[i].x && self.grid@[i].y == old(self).grid@[i].y,
                narrows(old(self).grid@, self.grid@),
                forall|i: int|
                    0 <= i < old(self).grid@.len() && old(self).grid@[i].superposition@.len() > 0
                        ==> (#[trigger] self.grid@[i]).superposition@.len() > 0,
                old(self).seeded_shape() && k >= 1 ==> self.grid@[old(self).seed_index()].superposition@
                    == old(self).grid@[old(self).seed_index()].superposition@ && (forall|dd: Direction|
                    #![trigger old(self).has_neighbor_spec(old(self).grid@[old(self).seed_index()], dd)]
                    old(self).has_neighbor_spec(old(self).grid@[old(self).seed_index()], dd)
                        ==> 0 <= old(self).neighbor_index(old(self).grid@[old(self).seed_index()], dd)
                        < self.grid@.len() && all_fit(
                        self.grid@[old(self).neighbor_index(old(self).grid@[old(self).seed_index()], dd)].superposition@,
                        old(self).grid@[old(self).seed_index()].superposition@,
                        dd,
                    )),
                k >= 1 && old(self).history@.len() == 0 && (exists|i: int|
                    0 <= i < old(self).grid@.len() && (#[trigger] old(self).grid@[i]).superposition@.len() > 1)
                    ==> exists|j: int|
                        0 <= j < old(self).grid@.len() && (#[trigger] old(self).grid@[j]).superposition@.len() > 1
                            && self.grid@[j].superposition@.len() == 1,
            decreases attempts - k,
        {
            let ghost gpre = self.grid@;
            let ghost hpre = self.history@;
            let ghost kpre = k;
            let ghost wpre = *self;
            let res = self.recurse();
            proof {
                lemma_narrows_trans(old(self).grid@, gpre, self.grid@);
            }
            match res {
                Err(e) => {
                    proof {
                        assert(gpre[e.y * self.width + e.x].superposition@.len() > 0);
                        assert(old(self).grid@[e.y * self.width + e.x].superposition@.len() > 0);
                    }
                    return Err(e);
                },
                Ok(()) => {},
            }
            proof {
                if old(self).history@.len() == 0 && (exists|i: int|
                    0 <= i < old(self).grid@.len() && (#[trigger] old(self).grid@[i]).superposition@.len() > 1) {
                    if kpre == 0 {
                        assert(hpre.len() == 0);
                        let j = choose|j: int|
                            #[trigger] least_entropy_at(gpre, j) && self.grid@[j].superposition@.len() == 1
                                && gpre[j].superposition@.contains(self.grid@[j].superposition@[0])
                                && self.history@.len() == 1 && same_slot(
                                self.history@[0],
                                self.grid@[j],
                            );
                        assert(old(self).grid@[j].superposition@.len() > 1);
                        assert(self.grid@[j].superposition@.len() == 1);
                    } else {
                        let j = choose|j: int|
                            0 <= j < old(self).grid@.len() && (#[trigger] old(self).grid@[j]).superposition@.len() > 1
                                && gpre[j].superposition@.len() == 1;
                        assert(self.grid@[j].superposition@.len() <= gpre[j].superposition@.len());
                        assert(self.grid@[j].superposition@.len() > 0);
                    }
                    assert(exists|j: int|
                        0 <= j < old(self).grid@.len() && (#[trigger] old(self).grid@[j]).superposition@.len() > 1
                            && self.grid@[j].superposition@.len() == 1);
                }
            }
            proof {
                if old(self).seeded_shape() {
                    let sd = old(self).history@[0];
                    let pd = old(self).seed_index();
                    lemma_fundamental_div_mod_converse(
                        pd,
                        old(self).width as int,
                        sd.y as int,
                        sd.x as int,
                    );
                    assert(old(self).grid@[pd].x == sd.x && old(self).grid@[pd].y == sd.y);
                    if kpre == 0 {
                        assert forall|dd: Direction|
                            old(self).has_neighbor_spec(old(self).grid@[pd], dd) implies 0 <= old(self).neighbor_index(old(self).grid@[pd], dd) < self.grid@.len() && all_fit(
                            self.grid@[old(self).neighbor_index(old(self).grid@[pd], dd)].superposition@,
                            old(self).grid@[pd].superposition@,
                            dd,
                        ) by {
                            assert(wpre.history@ == old(self).history@ && wpre.grid@ == old(self).grid@);
                            assert(wpre.width == old(self).width && wpre.height == old(self).height);
                            assert(wpre.history@.last() == sd);
                            assert(wpre.has_neighbor_spec(wpre.history@.last(), dd));
                            old(self).lemma_neighbor_coords(sd, dd);
                            let q = old(self).neighbor_index(sd, dd);
                            assert(wpre.neighbor_index(wpre.history@.last(), dd) == q);
                            assert(!coords_in(wpre.history@, wpre.grid@[q])) by {
                                if coords_in(old(self).history@, old(self).grid@[q]) {
                                    let t = choose|t: int|
                                        0 <= t < old(self).history@.len() && (#[trigger] old(self).history@[t]).x
                                            == old(self).grid@[q].x && old(self).history@[t].y
                                            == old(self).grid@[q].y;
                                    assert(t == 0);
                                }
                            }
                            assert(all_fit(
                                self.grid@[q].superposition@,
                                wpre.history@.last().superposition@,
                                dd,
                            ));
                            assert(old(self).neighbor_index(old(self).grid@[pd], dd) == q);
                            assert(sd.superposition@ == old(self).grid@[pd].superposition@);
                        }
                        assert(coords_in(old(self).history@, old(self).grid@[pd])) by {
                            assert(old(self).history@[0].x == old(self).grid@[pd].x && old(self).history@[0].y
                                == old(self).grid@[pd].y);
                        }
                        assert(self.grid@[pd].superposition@ == old(self).grid@[pd].superposition@);
                    } else {
                        assert(subsequence_of(
                            self.grid@[pd].superposition@,
                            gpre[pd].superposition@,
                        ));
                        assert(gpre[pd].superposition@ == old(self).grid@[pd].superposition@);
                        assert(self.grid@[pd].superposition@.len() > 0);
                        lemma_subsequence_singleton(
                            self.grid@[pd].superposition@,
                            gpre[pd].superposition@,
                        );
                        assert(self.grid@[pd].superposition@ == old(self).grid@[pd].superposition@);
                        assert forall|dd: Direction|
                            old(self).has_neighbor_spec(old(self).grid@[pd], dd) implies 0 <= old(self).neighbor_index(old(self).grid@[pd], dd) < self.grid@.len() && all_fit(
                            self.grid@[old(self).neighbor_index(old(self).grid@[pd], dd)].superposition@,
                            old(self).grid@[pd].superposition@,
                            dd,
                        ) by {
                            let q = old(self).neighbor_index(old(self).grid@[pd], dd);
                            assert(all_fit(
                                gpre[q].superposition@,
                                old(self).grid@[pd].superposition@,
                                dd,
                            ));
                            assert(subsequence_of(
                                self.grid@[q].superposition@,
                                gpre[q].superposition@,
                            ));
                            lemma_all_fit_subsequence(
                                self.grid@[q].superposition@,
                                gpre[q].superposition@,
                                old(self).grid@[pd].superposition@,
                                dd,
                            );
                        }
                    }
                }
            }
            self.history.clear();
            if self.is_collapsed() {
                proof {
                    if attempts >= 1 && old(self).seeded_shape() {
                        let sd = old(self).history@[0];
                        let pd = old(self).seed_index();
                        lemma_fundamental_div_mod_converse(
                            pd,
                            old(self).width as int,
                            sd.y as int,
                            sd.x as int,
                        );
                        assert forall|dd: Direction|
                            self.has_neighbor_spec(self.grid@[pd], dd) implies all_fit(
                            self.grid@[self.neighbor_index(self.grid@[pd], dd)].superposition@,
                            self.grid@[pd].superposition@,
                            dd,
                        ) by {
                            assert(self.grid@[pd].x == old(self).grid@[pd].x && self.grid@[pd].y
                                == old(self).grid@[pd].y);
                            assert(old(self).has_neighbor_spec(old(self).grid@[pd], dd));
                            assert(self.neighbor_index(self.grid@[pd], dd) == old(self).neighbor_index(
                                old(self).grid@[pd],
                                dd,
                            ));
                        }
                        assert(self.neighbors_fit(pd));
                    }
                }
                return Ok(());
            }
            k += 1;
        }
        proof {
            if attempts >= 1 && old(self).seeded_shape() {
                let sd = old(self).history@[0];
                let pd = old(self).seed_index();
                lemma_fundamental_div_mod_converse(
                    pd,
                    old(self).width as int,
                    sd.y as int,
                    sd.x as int,
                );
                assert forall|dd: Direction|
                    self.has_neighbor_spec(self.grid@[pd], dd) implies all_fit(
                    self.grid@[self.neighbor_index(self.grid@[pd], dd)].superposition@,
                    self.grid@[pd].superposition@,
                    dd,
                ) by {
                    assert(self.grid@[pd].x == old(self).grid@[pd].x && self.grid@[pd].y == old(self).grid@[pd].y);
                    assert(old(self).has_neighbor_spec(old(self).grid@[pd], dd));
                    assert(self.neighbor_index(self.grid@[pd], dd) == old(self).neighbor_index(
                        old(self).grid@[pd],
                        dd,
                    ));
                }
                assert(self.neighbors_fit(pd));
            }
        }
        Ok(())
    }
}

/// A sequence of slots with pairwise distinct, in-bounds coordinates
/// cannot hold more entries than a `w` by `ht` grid has cells.
proof fn lemma_distinct_coords_len_bound(h: Seq<Slot>, w: int, ht: int)
    requires
        w >= 1,
        ht >= 1,
        forall|i: int| 0 <= i < h.len() ==> (#[trigger] h[i]).x < w && h[i].y < ht,
        forall|i: int, j: int|
            0 <= i < j < h.len() ==> !((#[trigger] h[i]).x == (#[trigger] h[j]).x && h[i].y
                == h[j].y),
    ensures
        h.len() <= w * ht,
{
    let idxs = Seq::new(h.len(), |i: int| h[i].y * w + h[i].x);
    assert forall|i: int, j: int|
        (0 <= i < idxs.len() && 0 <= j < idxs.len() && i != j) implies idxs[i] != idxs[j] by {
        let (xi, yi) = (h[i].x as int, h[i].y as int);
        let (xj, yj) = (h[j].x as int, h[j].y as int);
        assert(!(xi == xj && yi == yj));
        assert(yi * w + xi != yj * w + xj) by (nonlinear_arith)
            requires
                !(xi == xj && yi == yj),
                0 <= xi < w,
                0 <= xj < w,
                yi >= 0,
                yj >= 0,
        ;
    }
    assert(idxs.no_duplicates());
    idxs.unique_seq_to_set();
    assert forall|e: int| idxs.to_set().contains(e) implies set_int_range(0, w * ht).contains(
        e,
    ) by {
        let i = choose|i: int| 0 <= i < idxs.len() && idxs[i] == e;
        let (xi, yi) = (h[i].x as int, h[i].y as int);
        assert(0 <= yi * w + xi < w * ht) by (nonlinear_arith)
            requires
                0 <= xi < w,
                0 <= yi < ht,
        ;
    }
    assert(idxs.to_set().subset_of(set_int_range(0, w * ht)));
    lemma_int_range(0, w * ht);
    lemma_len_subset(idxs.to_set(), set_int_range(0, w * ht));
}

/// Whether a slot with the coordinates of `s` stands in `h`.
pub open spec fn coords_in(h: Seq<Slot>, s: Slot) -> bool {
    exists|i: int| 0 <= i < h.len() && (#[trigger] h[i]).x == s.x && h[i].y == s.y
}

/// `post` narrows `pre` slot by slot: each superposition is an
/// order-preserving subsequence of what the slot held before.
pub open spec fn narrows(pre: Seq<Slot>, post: Seq<Slot>) -> bool {
    forall|i: int|
        0 <= i < pre.len() ==> subsequence_of(
            (#[trigger] post[i]).superposition@,
            pre[i].superposition@,
        )
}

/// Every grid narrows itself.
proof fn lemma_narrows_refl(g: Seq<Slot>)
    ensures
        narrows(g, g),
{
    assert forall|i: int|
        0 <= i < g.len() implies subsequence_of(
        (#[trigger] g[i]).superposition@,
        g[i].superposition@,
    ) by {
        lemma_subsequence_refl(g[i].superposition@);
    }
}

/// Narrowing composes slot by slot.
proof fn lemma_narrows_trans(a: Seq<Slot>, b: Seq<Slot>, c: Seq<Slot>)
    requires
        a.len() == b.len(),
        narrows(a, b),
        narrows(b, c),
    ensures
        narrows(a, c),
{
    assert forall|i: int|
        0 <= i < a.len() implies subsequence_of(
        (#[trigger] c[i]).superposition@,
        a[i].superposition@,
    ) by {
        lemma_subsequence_trans(c[i].superposition@, b[i].superposition@, a[i].superposition@);
    }
}

/// Every candidate of `cands` fits next to a slot with superposition
/// `sup` in direction `dir`.
pub open spec fn all_fit(cands: Seq<Module>, sup: Seq<Module>, dir: Direction) -> bool {
    forall|k: int| 0 <= k < cands.len() ==> fits(#[trigger] cands[k], sup, dir)
}

/// Narrowing a candidate set keeps every remaining candidate fitting.
proof fn lemma_all_fit_subsequence(a: Seq<Module>, b: Seq<Module>, sup: Seq<Module>, dir: Direction)
    requires
        subsequence_of(a, b),
        all_fit(b, sup, dir),
    ensures
        all_fit(a, sup, dir),
{
    lemma_subsequence_membership(a, b);
    assert forall|k: int| 0 <= k < a.len() implies fits(#[trigger] a[k], sup, dir) by {
        assert(b.contains(a[k]));
        let w = choose|w: int| 0 <= w < b.len() && b[w] == a[k];
        assert(fits(b[w], sup, dir));
    }
}

/// `s` is a copy of the slot `t`: same coordinates, same superposition.
pub open spec fn same_slot(s: Slot, t: Slot) -> bool {
    &&& s.x == t.x
    &&& s.y == t.y
    &&& s.superposition@ == t.superposition@
}

/// `post` is `pre` with the slot at `j` collapsed: all other slots are
/// untouched, the coordinates at `j` are kept, and a non-empty
/// superposition shrank to exactly one of its old candidates (an empty
/// one stays empty).
pub open spec fn collapsed_at(pre: Seq<Slot>, post: Seq<Slot>, j: int) -> bool {
    &&& 0 <= j < pre.len()
    &&& post == pre.update(j, post[j])
    &&& post[j].x == pre[j].x
    &&& post[j].y == pre[j].y
    &&& (pre[j].superposition@.len() == 0 ==> post[j].superposition@ == pre[j].superposition@)
    &&& (pre[j].superposition@.len() > 0 ==> post[j].superposition@.len() == 1
        && pre[j].superposition@.contains(post[j].superposition@[0]))
}

/// `j` points at the first slot of least entropy in `grid`: it is
/// undecided (more than one candidate), no undecided slot has a smaller
/// superposition, and every earlier undecided slot has a strictly larger
/// one.
pub open spec fn least_entropy_at(grid: Seq<Slot>, j: int) -> bool {
    &&& 0 <= j < grid.len()
    &&& grid[j].superposition@.len() > 1
    &&& forall|i: int|
        0 <= i < grid.len() && (#[trigger] grid[i]).superposition@.len() > 1
            ==> grid[j].superposition@.len() <= grid[i].superposition@.len()
    &&& forall|i: int|
        0 <= i < j && (#[trigger] grid[i]).superposition@.len() > 1
            ==> grid[j].superposition@.len() < grid[i].superposition@.len()
}

/// The subsequence of `cands` whose modules fit next to a slot with
/// superposition `sup` in direction `dir`, in their original order.
pub open spec fn filter_fits(cands: Seq<Module>, sup: Seq<Module>, dir: Direction) -> Seq<Module>
    decreases cands.len(),
{
    if cands.len() == 0 {
        Seq::empty()
    } else {
        let rest = filter_fits(cands.drop_last(), sup, dir);
        if fits(cands.last(), sup, dir) {
            rest.push(cands.last())
        } else {
            rest
        }
    }
}

/// Appending a candidate extends the filtered subsequence by that
/// candidate exactly when it fits.
proof fn lemma_filter_fits_snoc(cands: Seq<Module>, m: Module, sup: Seq<Module>, dir: Direction)
    ensures
        filter_fits(cands.push(m), sup, dir) == if fits(m, sup, dir) {
            filter_fits(cands, sup, dir).push(m)
        } else {
            filter_fits(cands, sup, dir)
        },
{
    assert(cands.push(m).drop_last() =~= cands);
    assert(cands.push(m).last() == m);
}

/// A filtered subsequence is never longer than what it was filtered from.
pub proof fn lemma_filter_fits_len(cands: Seq<Module>, sup: Seq<Module>, dir: Direction)
    ensures
        filter_fits(cands, sup, dir).len() <= cands.len(),
    decreases cands.len(),
{
    if cands.len() > 0 {
        lemma_filter_fits_len(cands.drop_last(), sup, dir);
    }
}

/// A filter that kept every candidate found every candidate fitting.
proof fn lemma_filter_fits_full(cands: Seq<Module>, sup: Seq<Module>, dir: Direction)
    requires
        filter_fits(cands, sup, dir).len() == cands.len(),
    ensures
        all_fit(cands, sup, dir),
    decreases cands.len(),
{
    if cands.len() > 0 {
        lemma_filter_fits_len(cands.drop_last(), sup, dir);
        if fits(cands.last(), sup, dir) {
            lemma_filter_fits_full(cands.drop_last(), sup, dir);
            assert forall|k: int| 0 <= k < cands.len() implies fits(
                #[trigger] cands[k],
                sup,
                dir,
            ) by {
                if k < cands.len() - 1 {
                    assert(cands[k] == cands.drop_last()[k]);
                }
            }
        }
    }
}

/// What the filter keeps is an order-preserving subsequence of the
/// candidates it was given.
pub proof fn lemma_filter_fits_subsequence(cands: Seq<Module>, sup: Seq<Module>, dir: Direction)
    ensures
        subsequence_of(filter_fits(cands, sup, dir), cands),
    decreases cands.len(),
{
    if cands.len() > 0 {
        lemma_filter_fits_subsequence(cands.drop_last(), sup, dir);
        let rest = filter_fits(cands.drop_last(), sup, dir);
        if fits(cands.last(), sup, dir) {
            assert(filter_fits(cands, sup, dir) == rest.push(cands.last()));
            assert(rest.push(cands.last()).last() == cands.last());
            assert(rest.push(cands.last()).drop_last() =~= rest);
        } else {
            lemma_subsequence_push_right(rest, cands.drop_last(), cands.last());
            assert(cands.drop_last().push(cands.last()) =~= cands);
        }
    }
}

/// A collapsed grid slot narrows: the surviving candidate stood in the
/// old superposition, every other slot is untouched.
proof fn lemma_collapsed_at_narrows(pre: Seq<Slot>, post: Seq<Slot>, j: int)
    requires
        collapsed_at(pre, post, j),
    ensures
        narrows(pre, post),
{
    assert forall|i: int|
        0 <= i < pre.len() implies subsequence_of(
        (#[trigger] post[i]).superposition@,
        pre[i].superposition@,
    ) by {
        if i == j {
            if pre[j].superposition@.len() == 0 {
                lemma_subsequence_refl(post[j].superposition@);
            } else {
                lemma_member_singleton_subsequence(
                    post[j].superposition@[0],
                    pre[j].superposition@,
                );
                assert(post[j].superposition@ =~= seq![post[j].superposition@[0]]);
            }
        } else {
            assert(post[i] == pre[i]);
            lemma_subsequence_refl(post[i].superposition@);
        }
    }
}

/// Every module of a filtered subsequence fits, and stood among the
/// candidates it was filtered from.
pub proof fn lemma_filter_fits_members(cands: Seq<Module>, sup: Seq<Module>, dir: Direction)
    ensures
        forall|k: int|
            0 <= k < filter_fits(cands, sup, dir).len() ==> fits(
                #[trigger] filter_fits(cands, sup, dir)[k],
                sup,
                dir,
            ) && cands.contains(filter_fits(cands, sup, dir)[k]),
    decreases cands.len(),
{
    if cands.len() > 0 {
        lemma_filter_fits_members(cands.drop_last(), sup, dir);
        assert forall|k: int|
            0 <= k < filter_fits(cands.drop_last(), sup, dir).len() implies cands.contains(
            filter_fits(cands.drop_last(), sup, dir)[k]) by {
            assert(cands.drop_last().contains(filter_fits(cands.drop_last(), sup, dir)[k]));
            let w = choose|w: int|
                0 <= w < cands.drop_last().len() && cands.drop_last()[w] == filter_fits(
                    cands.drop_last(),
                    sup,
                    dir,
                )[k];
            assert(cands[w] == filter_fits(cands.drop_last(), sup, dir)[k]);
        }
        if fits(cands.last(), sup, dir) {
            assert(cands.contains(cands.last()));
        }
    }
}

/// The default constraint strategy: fingerprints one side of a tile from
/// `sample_size` evenly spaced pixels along that side, corners excluded.
/// The sampled pixels' channel bytes are concatenated in scan order and
/// hashed into a connector.
pub struct EdgeSampler {
    pub sample_size: usize,
}

impl<I: Image> Constraint<I> for EdgeSampler {
    /// Sample `sample_size` pixels along the side of `img` facing `dir`
    /// and hash their channel bytes into a connector. A tile with a zero
    /// side is fingerprinted from no pixels at all.
    fn connector(&self, img: &I, dir: Direction) -> ConnectorID {
        let count = if self.sample_size < usize::MAX {
            self.sample_size + 1
        } else {
            usize::MAX
        };
        let (w, h) = img.size();
        let mut id: Vec<u8> = Vec::new();
        if w == 0 || h == 0 {
            return ConnectorID::from(id.as_slice());
        }
        let dx = w / count;
        let dy = h / count;
        proof {
            lemma_fundamental_div_mod(w as int, count as int);
            lemma_mod_bound(w as int, count as int);
            lemma_fundamental_div_mod(h as int, count as int);
            lemma_mod_bound(h as int, count as int);
            lemma_mul_is_commutative(count as int, dx as int);
            lemma_mul_is_commutative(count as int, dy as int);
        }
        let mut idx: usize = 0;
        while idx < count - 1
            invariant
                count >= 1,
                w >= 1,
                h >= 1,
                dx == w as int / count as int,
                dy == h as int / count as int,
                dx * count <= w,
                dy * count <= h,
                0 <= idx <= count - 1,
            decreases count - 1 - idx,
        {
            proof {
                assert(dx + idx * dx <= w) by (nonlinear_arith)
                    requires
                        dx * count <= w,
                        idx < count - 1,
                        dx >= 0,
                        count >= 1,
                ;
                assert(dy + idx * dy <= h) by (nonlinear_arith)
                    requires
                        dy * count <= h,
                        idx < count - 1,
                        dy >= 0,
                        count >= 1,
                ;
            }
            let pixel = match dir {
                Direction::Up => img.get_pixel_at(dx + idx * dx, 0),
                Direction::Right => img.get_pixel_at(w - 1, dy + idx * dy),
                Direction::Down => img.get_pixel_at(dx + idx * dx, h - 1),
                Direction::Left => img.get_pixel_at(0, dy + idx * dy),
            };
            id.push(pixel[0]);
            id.push(pixel[1]);
            id.push(pixel[2]);
            id.push(pixel[3]);
            idx += 1;
        }
        ConnectorID::from(id.as_slice())
    }
}

/// Returns the default constraint strategy. It derives the connector of a
/// side by hashing pixels sampled along it; only modules whose facing
/// connectors are equal are considered possible neighbours. `sample_size`
/// controls how many pixels are sampled on each side.
pub fn get_constraint_fn(sample_size: usize) -> (r: EdgeSampler)
    ensures
        r.sample_size == sample_size,
{
    EdgeSampler { sample_size }
}

} // verus!
