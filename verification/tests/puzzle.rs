use twisterl::env::{Env, Simulation};
use twisterl::puzzle::{identity_state, penalty, Puzzle, NUM_MOVES};
use twisterl::scalar::Scalar;

/// Double-precision floating point as the number type; nothing here draws
/// random numbers.
#[derive(Clone, Copy, Debug, PartialEq, PartialOrd)]
struct D(f64);

impl Scalar for D {
    fn zero() -> Self {
        D(0.0)
    }
    fn one() -> Self {
        D(1.0)
    }
    fn neg_infinity() -> Self {
        D(f64::NEG_INFINITY)
    }
    fn from_usize(n: usize) -> Self {
        D(n as f64)
    }
    fn plus(self, other: Self) -> Self {
        D(self.0 + other.0)
    }
    fn minus(self, other: Self) -> Self {
        D(self.0 - other.0)
    }
    fn times(self, other: Self) -> Self {
        D(self.0 * other.0)
    }
    fn over(self, other: Self) -> Self {
        D(self.0 / other.0)
    }
    fn negated(self) -> Self {
        D(-self.0)
    }
    fn sqrt(self) -> Self {
        D(self.0.sqrt())
    }
    fn ln(self) -> Self {
        D(self.0.ln())
    }
    fn abs(self) -> Self {
        D(self.0.abs())
    }
    fn exceeds(self, other: Self) -> bool {
        self.0 > other.0
    }
    fn at_most(self, other: Self) -> bool {
        self.0 <= other.0
    }
    fn equals(self, other: Self) -> bool {
        self.0 == other.0
    }
    fn random_unit() -> Self {
        D(0.5)
    }
    fn weighted_index(_weights: &Vec<Self>) -> Option<usize> {
        None
    }
}

fn reward(puzzle: &Puzzle) -> D {
    <Puzzle as Env<D>>::reward(puzzle)
}

#[test]
fn new_puzzle_is_solved() {
    let puzzle = Puzzle::new(3, 2, 5, 2, 20);
    assert_eq!(puzzle.state, vec![0, 1, 2, 3, 4, 5]);
    assert_eq!(puzzle.zero_location, (0, 0));
    assert_eq!(puzzle.depth, 1);
    assert_eq!((puzzle.width, puzzle.height), (3, 2));
    assert_eq!((puzzle.difficulty, puzzle.depth_slope, puzzle.max_depth), (5, 2, 20));
    assert!(puzzle.solved());
    assert_eq!(puzzle.get_state(), vec![0, 1, 2, 3, 4, 5]);
    assert_eq!(identity_state(4), vec![0, 1, 2, 3]);
    assert_eq!(identity_state(0), Vec::<usize>::new());
}

#[test]
fn positions_are_stored_row_by_row() {
    let mut puzzle = Puzzle::new(3, 2, 1, 1, 10);
    assert_eq!(puzzle.get_position(2, 0), 2);
    assert_eq!(puzzle.get_position(0, 1), 3);
    assert_eq!(puzzle.get_position(2, 1), 5);
    puzzle.set_position(1, 1, 9);
    assert_eq!(puzzle.state, vec![0, 1, 2, 3, 9, 5]);
    assert_eq!(puzzle.get_position(1, 1), 9);
    assert!(!puzzle.solved());
    puzzle.set_position(1, 1, 4);
    assert!(puzzle.solved());
}

#[test]
fn step_slides_a_tile_into_the_empty_cell() {
    let mut puzzle = Puzzle::new(3, 3, 1, 1, 10);
    puzzle.depth = 5;
    puzzle.step(2); // right
    assert_eq!(puzzle.state, vec![1, 0, 2, 3, 4, 5, 6, 7, 8]);
    assert_eq!(puzzle.zero_location, (1, 0));
    assert_eq!(puzzle.depth, 4);
    puzzle.step(3); // down
    assert_eq!(puzzle.state, vec![1, 4, 2, 3, 0, 5, 6, 7, 8]);
    assert_eq!(puzzle.zero_location, (1, 1));
    puzzle.step(0); // left
    assert_eq!(puzzle.state, vec![1, 4, 2, 0, 3, 5, 6, 7, 8]);
    assert_eq!(puzzle.zero_location, (0, 1));
    puzzle.step(1); // up
    assert_eq!(puzzle.state, vec![0, 4, 2, 1, 3, 5, 6, 7, 8]);
    assert_eq!(puzzle.zero_location, (0, 0));
    assert_eq!(puzzle.depth, 1);
}

#[test]
fn step_off_the_grid_only_uses_up_a_move() {
    let mut puzzle = Puzzle::new(2, 2, 1, 1, 10);
    puzzle.depth = 3;
    for action in [0usize, 1, 4, 17] {
        let before = puzzle.depth;
        puzzle.step(action);
        assert_eq!(puzzle.state, vec![0, 1, 2, 3]);
        assert_eq!(puzzle.zero_location, (0, 0));
        assert_eq!(puzzle.depth, before.saturating_sub(1));
    }
    assert_eq!(puzzle.depth, 0);
    puzzle.step(2);
    puzzle.step(3);
    assert_eq!(puzzle.zero_location, (1, 1));
    puzzle.step(2);
    puzzle.step(3);
    assert_eq!(puzzle.state, vec![1, 3, 2, 0]);
    assert_eq!(puzzle.zero_location, (1, 1));
}

#[test]
fn masks_tell_which_moves_stay_on_the_grid() {
    let mut puzzle = Puzzle::new(3, 2, 1, 1, 10);
    assert_eq!(puzzle.masks(), vec![false, false, true, true]);
    puzzle.step(2);
    assert_eq!(puzzle.masks(), vec![true, false, true, true]);
    puzzle.step(2);
    puzzle.step(3);
    assert_eq!(puzzle.zero_location, (2, 1));
    assert_eq!(puzzle.masks(), vec![true, true, false, false]);
    assert_eq!(Puzzle::new(1, 1, 1, 1, 1).masks(), vec![false, false, false, false]);
}

#[test]
fn puzzle_is_final_when_solved_or_out_of_moves() {
    let mut puzzle = Puzzle::new(2, 2, 1, 1, 10);
    assert!(puzzle.is_final());
    puzzle.depth = 2;
    puzzle.step(2);
    assert!(!puzzle.is_final());
    puzzle.step(3);
    assert_eq!(puzzle.depth, 0);
    assert!(puzzle.is_final());
}

#[test]
fn reward_tells_solved_lost_and_open_apart() {
    let mut puzzle = Puzzle::new(2, 2, 1, 1, 8);
    assert_eq!(reward(&puzzle), D(1.0));
    puzzle.depth = 2;
    puzzle.step(2);
    assert_eq!(reward(&puzzle), D(-0.5 / 8.0));
    assert_eq!(reward(&puzzle), D(-0.0625));
    puzzle.step(3);
    assert_eq!(reward(&puzzle), D(-0.5));
    puzzle.depth = 0;
    puzzle.state = vec![0, 1, 2, 3];
    assert_eq!(reward(&puzzle), D(1.0));
    assert_eq!(penalty::<D>(), D(-0.5));
}

#[test]
fn observe_gives_one_feature_per_position() {
    let mut puzzle = Puzzle::new(2, 2, 1, 1, 8);
    assert_eq!(puzzle.observe(), vec![0, 5, 10, 15]);
    puzzle.step(2);
    assert_eq!(puzzle.state, vec![1, 0, 2, 3]);
    assert_eq!(puzzle.observe(), vec![1, 4, 10, 15]);
    let wide = Puzzle::new(3, 1, 1, 1, 8);
    assert_eq!(wide.observe(), vec![0, 4, 8]);
    assert_eq!(wide.obs_shape(), vec![3, 3]);
    assert_eq!(wide.num_actions(), 4);
    assert_eq!(NUM_MOVES, 4);
    assert_eq!(wide.twists(), (vec![], vec![]));
}

#[test]
fn difficulty_can_be_read_and_set() {
    let mut puzzle = Puzzle::new(2, 2, 3, 2, 8);
    assert_eq!(puzzle.get_difficulty(), 3);
    puzzle.set_difficulty(6);
    assert_eq!(puzzle.get_difficulty(), 6);
    assert_eq!(puzzle.difficulty, 6);
    assert_eq!(puzzle.state, vec![0, 1, 2, 3]);
}

#[test]
fn set_state_finds_the_empty_cell() {
    let mut puzzle = Puzzle::new(3, 2, 3, 2, 8);
    puzzle.set_state(vec![1, 2, 3, 4, 0, 5]);
    assert_eq!(puzzle.state, vec![1, 2, 3, 4, 0, 5]);
    assert_eq!(puzzle.zero_location, (1, 1));
    assert_eq!(puzzle.depth, 8);
    puzzle.set_state(vec![5, 0, 3, 4, 0, 1]);
    assert_eq!(puzzle.zero_location, (1, 0));
    puzzle.set_state(vec![5, 2, 3, 4, 6, 1]);
    assert_eq!(puzzle.zero_location, (1, 0));
    assert_eq!(puzzle.state, vec![5, 2, 3, 4, 6, 1]);
}

#[test]
fn snapshot_is_independent_of_its_source() {
    let mut puzzle = Puzzle::new(2, 2, 1, 1, 8);
    puzzle.depth = 4;
    let copy = puzzle.snapshot();
    puzzle.step(2);
    assert_eq!(copy.state, vec![0, 1, 2, 3]);
    assert_eq!(copy.zero_location, (0, 0));
    assert_eq!(copy.depth, 4);
    assert_eq!(puzzle.state, vec![1, 0, 2, 3]);
    let mut clone = puzzle.clone();
    clone.step(0);
    assert_eq!(puzzle.state, vec![1, 0, 2, 3]);
    assert_eq!(clone.state, vec![0, 1, 2, 3]);
}

#[test]
fn reset_shuffles_by_legal_moves() {
    let mut puzzle = Puzzle::new(3, 3, 40, 2, 100);
    let mut shuffled = false;
    for _ in 0..20 {
        puzzle.reset();
        assert_eq!(puzzle.depth, 80);
        let mut tiles = puzzle.state.clone();
        tiles.sort();
        assert_eq!(tiles, vec![0, 1, 2, 3, 4, 5, 6, 7, 8]);
        let (zx, zy) = puzzle.zero_location;
        assert_eq!(puzzle.get_position(zx, zy), 0);
        if !puzzle.solved() {
            shuffled = true;
        }
    }
    assert!(shuffled);
}

#[test]
fn reset_without_difficulty_solves_the_puzzle() {
    let mut puzzle = Puzzle::new(3, 3, 0, 2, 100);
    puzzle.set_state(vec![1, 0, 2, 3, 4, 5, 6, 7, 8]);
    puzzle.reset();
    assert!(puzzle.solved());
    assert_eq!(puzzle.zero_location, (0, 0));
    assert_eq!(puzzle.depth, 0);
}

#[test]
fn well_formedness_can_be_asked() {
    let mut puzzle = Puzzle::new(3, 2, 5, 2, 20);
    assert!(puzzle.is_well_formed());
    puzzle.zero_location = (3, 0);
    assert!(!puzzle.is_well_formed());
    puzzle.zero_location = (2, 1);
    assert!(puzzle.is_well_formed());
    puzzle.state.pop();
    assert!(!puzzle.is_well_formed());
    puzzle.state.push(usize::MAX);
    assert!(!puzzle.is_well_formed());
    puzzle.state[5] = usize::MAX - 30;
    assert!(puzzle.is_well_formed());
    puzzle.state[5] = usize::MAX - 29;
    assert!(!puzzle.is_well_formed());
    puzzle.state[5] = 5;
    puzzle.set_difficulty(usize::MAX);
    assert!(!puzzle.is_well_formed());
    assert!(!Puzzle::new(0, 4, 1, 1, 1).is_well_formed());
    assert!(!Puzzle::new(4, 0, 1, 1, 1).is_well_formed());
    assert!(Puzzle::new(1, 1, 0, usize::MAX, 1).is_well_formed());
}
