use billow::get_constraint_fn;
use billow::ConnectorID;
use billow::Direction;
use billow::Image;
use billow::Module;
use billow::Slot;
use billow::Wave;

/// A tile whose pixels all share one value.
struct FlatTile {
    value: u8,
}

impl Image for FlatTile {
    fn size(&self) -> (usize, usize) {
        (4, 4)
    }

    fn get_pixel_at(&self, _x: usize, _y: usize) -> [u8; 4] {
        [self.value, self.value, self.value, self.value]
    }
}

fn cid(s: &str) -> ConnectorID {
    ConnectorID::from(s.as_bytes())
}

/// A module whose four connectors all carry the same fingerprint.
fn uniform_module(index: usize, key: &str) -> Module {
    let c = cid(key);
    Module { index, connectors: [c, c, c, c] }
}

/// Two modules with eight pairwise distinct connectors: nothing ever fits
/// next to anything, itself included.
fn clashing_modules() -> (Module, Module) {
    let a = Module { index: 0, connectors: [cid("a0"), cid("a1"), cid("a2"), cid("a3")] };
    let b = Module { index: 1, connectors: [cid("b0"), cid("b1"), cid("b2"), cid("b3")] };
    (a, b)
}

#[test]
fn new_wave_builds_one_module_per_tile() {
    let tiles = vec![FlatTile { value: 9 }, FlatTile { value: 9 }, FlatTile { value: 200 }];
    let wave = Wave::new(&tiles, 2, 2);
    assert_eq!(wave.input.len(), 3);
    assert_eq!(wave.grid.len(), 0);
    for (i, module) in wave.input.iter().enumerate() {
        assert_eq!(module.index, i);
    }
    // Identical tiles get identical fingerprints, a different tile differs.
    assert_eq!(wave.input[0].connectors, wave.input[1].connectors);
    assert_ne!(wave.input[0].connectors, wave.input[2].connectors);
}

#[test]
fn constraint_fn_keeps_sample_size() {
    let sampler = get_constraint_fn(3);
    assert_eq!(sampler.sample_size, 3);
}

#[test]
fn initialize_seeds_exactly_one_slot() {
    let (a, b) = clashing_modules();
    let mut wave = Wave { width: 3, height: 3, input: vec![a, b], grid: vec![], history: vec![] };
    wave.initialize();
    assert_eq!(wave.grid.len(), 9);
    let mut seeded = 0;
    for (i, slot) in wave.grid.iter().enumerate() {
        assert_eq!(slot.x, i % 3);
        assert_eq!(slot.y, i / 3);
        if slot.superposition.len() == 1 {
            seeded += 1;
        } else {
            assert_eq!(slot.superposition.len(), 2);
        }
    }
    assert_eq!(seeded, 1);
    assert_eq!(wave.history.len(), 1);
    assert_eq!(wave.history[0].superposition.len(), 1);
}

#[test]
fn least_entropy_picks_first_smallest_undecided() {
    let m0 = uniform_module(0, "k0");
    let m1 = uniform_module(1, "k1");
    let m2 = uniform_module(2, "k2");
    let mut wave = Wave {
        width: 4,
        height: 1,
        input: vec![m0, m1, m2],
        grid: vec![
            Slot { x: 0, y: 0, superposition: vec![m0] },
            Slot { x: 1, y: 0, superposition: vec![m0, m1, m2] },
            Slot { x: 2, y: 0, superposition: vec![m0, m1] },
            Slot { x: 3, y: 0, superposition: vec![m1, m2] },
        ],
        history: vec![],
    };
    let picked = wave.collapse_least_entropy().expect("an undecided slot exists");
    // The slot at x = 2 is the first with the smallest size above one.
    assert_eq!(picked.x, 2);
    assert_eq!(picked.y, 0);
    assert_eq!(picked.superposition.len(), 1);
    assert_eq!(wave.grid[2].superposition.len(), 1);
    let chosen = wave.grid[2].superposition[0].index;
    assert!(chosen == 0 || chosen == 1);
    // The other slots are untouched.
    assert_eq!(wave.grid[0].superposition.len(), 1);
    assert_eq!(wave.grid[1].superposition.len(), 3);
    assert_eq!(wave.grid[3].superposition.len(), 2);
}

#[test]
fn least_entropy_returns_nothing_when_all_decided() {
    let m0 = uniform_module(0, "k0");
    let mut wave = Wave {
        width: 2,
        height: 1,
        input: vec![m0],
        grid: vec![
            Slot { x: 0, y: 0, superposition: vec![m0] },
            Slot { x: 1, y: 0, superposition: vec![] },
        ],
        history: vec![],
    };
    assert!(wave.collapse_least_entropy().is_none());
    assert_eq!(wave.grid[0].superposition.len(), 1);
    assert_eq!(wave.grid[1].superposition.len(), 0);
}

#[test]
fn is_collapsed_iff_every_slot_has_one_candidate() {
    let m0 = uniform_module(0, "k0");
    let m1 = uniform_module(1, "k1");
    let mut wave = Wave {
        width: 2,
        height: 1,
        input: vec![m0, m1],
        grid: vec![
            Slot { x: 0, y: 0, superposition: vec![m0] },
            Slot { x: 1, y: 0, superposition: vec![m0] },
        ],
        history: vec![],
    };
    assert!(wave.is_collapsed());
    wave.grid[1].superposition = vec![m0, m1];
    assert!(!wave.is_collapsed());
    // A slot in the contradiction state is not collapsed either.
    wave.grid[1].superposition = vec![];
    assert!(!wave.is_collapsed());
}

#[test]
fn contradiction_is_reported_with_its_coordinates() {
    let (a, b) = clashing_modules();
    for _ in 0..20 {
        let mut wave =
            Wave { width: 2, height: 1, input: vec![a, b], grid: vec![], history: vec![] };
        wave.initialize();
        let result = wave.collapse(5);
        // Nothing fits next to anything: the attempt must surface a
        // contradiction, never a silent success.
        let err = result.expect_err("unsatisfiable pair must fail");
        assert!(err.x < 2);
        assert_eq!(err.y, 0);
        assert_eq!(wave.grid[err.y * 2 + err.x].superposition.len(), 0);
        assert!(!wave.is_collapsed());
    }
}

#[test]
fn compatible_modules_always_collapse() {
    let a = uniform_module(0, "aa");
    let b = uniform_module(1, "bb");
    for _ in 0..20 {
        let mut wave =
            Wave { width: 2, height: 2, input: vec![a, b], grid: vec![], history: vec![] };
        wave.initialize();
        let result = wave.collapse(20);
        assert!(result.is_ok());
        assert!(wave.is_collapsed());
        // Every resolved pair of neighbours satisfies the adjacency rule:
        // with self-matching connectors, the whole grid shares one module.
        let first = wave.grid[0].superposition[0].index;
        for slot in wave.grid.iter() {
            assert_eq!(slot.superposition.len(), 1);
            assert_eq!(slot.superposition[0].index, first);
        }
    }
}

#[test]
fn collapse_never_grows_a_superposition() {
    let (a, b) = clashing_modules();
    for _ in 0..10 {
        let mut wave =
            Wave { width: 3, height: 2, input: vec![a, b], grid: vec![], history: vec![] };
        wave.initialize();
        let before: Vec<usize> = wave.grid.iter().map(|s| s.superposition.len()).collect();
        let _ = wave.collapse(4);
        for (i, slot) in wave.grid.iter().enumerate() {
            assert!(slot.superposition.len() <= before[i]);
        }
    }
}

#[test]
fn collapse_random_collapses_some_slot() {
    let m0 = uniform_module(0, "k0");
    let m1 = uniform_module(1, "k1");
    let mut wave = Wave {
        width: 2,
        height: 1,
        input: vec![m0, m1],
        grid: vec![
            Slot { x: 0, y: 0, superposition: vec![m0, m1] },
            Slot { x: 1, y: 0, superposition: vec![m0, m1] },
        ],
        history: vec![],
    };
    let picked = wave.collapse_random().expect("grid is not empty");
    assert_eq!(picked.superposition.len(), 1);
    let total: usize = wave.grid.iter().map(|s| s.superposition.len()).sum();
    assert_eq!(total, 3);
}

#[test]
fn default_sampler_matches_equal_edges() {
    // Two identical flat tiles: every side of one fingerprints equal to
    // the facing side of the other, so each is possible next to the other.
    let tiles = vec![FlatTile { value: 7 }, FlatTile { value: 7 }];
    let mut wave = Wave::new(&tiles, 2, 1);
    wave.initialize();
    let result = wave.collapse(10);
    assert!(result.is_ok());
    assert!(wave.is_collapsed());
    let slot = Slot { x: 0, y: 0, superposition: vec![wave.input[0]] };
    assert!(wave.input[1].is_possible(&slot, Direction::Right));
}
