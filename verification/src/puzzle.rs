//! The sliding puzzle: tiles on a grid and one empty cell that moves.

use rand::distributions::Distribution;
use vstd::prelude::*;
use crate::columns::copy_column;
use crate::env::{Env, Simulation};
use crate::scalar::{Scalar, is_count, is_negated, is_one, is_over};

verus! {

/// A sliding puzzle of `width` by `height` cells. Cell `(x, y)` is stored at
/// position `y * width + x` of `state`; the value 0 marks the empty cell,
/// whose coordinates `zero_location` holds. The puzzle is solved when every
/// position holds its own number. `depth` counts the moves that are left.
pub struct Puzzle {
    pub state: Vec<usize>,
    pub zero_location: (usize, usize),
    pub depth: usize,
    pub width: usize,
    pub height: usize,
    pub difficulty: usize,
    pub depth_slope: usize,
    pub max_depth: usize,
}

/// The four moves of the empty cell: left, up, right, down.
pub const NUM_MOVES: usize = 4;

/// A random number below `bound`.
///
/// Trusted, not proved: the body builds the distribution
/// `rand::distributions::Uniform::new(0, bound)` and draws from it once, by
/// `Distribution::sample`, with the generator that `rand::thread_rng` hands
/// out. `Uniform::new` panics for an empty range, which the precondition
/// excludes; a draw lies in the half-open range from 0 to `bound`. Which
/// number is drawn is left open.
#[verifier::external_body]
fn random_below(bound: usize) -> (drawn: usize)
    requires
        bound > 0,
    ensures
        drawn < bound,
{
    rand::distributions::Uniform::new(0, bound).sample(&mut rand::thread_rng())
}

/// A cell of a grid of `width` columns and `height` rows has a position
/// below the number of cells.
pub proof fn lemma_cell_in_grid(x: int, y: int, width: int, height: int)
    requires
        0 <= x < width,
        0 <= y < height,
    ensures
        0 <= y * width + x < width * height,
        0 <= y * width,
{
    assert(y * width + x < width * height) by (nonlinear_arith)
        requires
            0 <= x < width,
            0 <= y < height,
    ;
    assert(0 <= y * width) by (nonlinear_arith)
        requires
            0 <= y,
            0 <= width,
    ;
}

/// The sequence `0, 1, ..., n - 1`.
pub open spec fn identity(n: int) -> Seq<usize> {
    Seq::new(n as nat, |i: int| i as usize)
}

/// The numbers below `n` in their order.
pub fn identity_state(n: usize) -> (state: Vec<usize>)
    ensures
        state@ == identity(n as int),
{
    let mut state: Vec<usize> = Vec::new();
    let mut i: usize = 0;
    while i < n
        invariant
            i <= n,
            state@ == identity(i as int),
        decreases n - i,
    {
        state.push(i);
        proof {
            assert(state@ =~= identity(i + 1));
        }
        i += 1;
    }
    state
}

impl Clone for Puzzle {
    /// An independent puzzle with the same cells and settings.
    fn clone(&self) -> (copy: Self)
        ensures
            copy.same_as(self),
    {
        Puzzle {
            state: copy_column(&self.state),
            zero_location: (self.zero_location.0, self.zero_location.1),
            depth: self.depth,
            width: self.width,
            height: self.height,
            difficulty: self.difficulty,
            depth_slope: self.depth_slope,
            max_depth: self.max_depth,
        }
    }
}

impl Puzzle {
    /// `other` has the same cells and the same settings.
    pub open spec fn same_as(&self, other: &Puzzle) -> bool {
        &&& other.state@ == self.state@
        &&& other.zero_location == self.zero_location
        &&& other.depth == self.depth
        &&& other.width == self.width
        &&& other.height == self.height
        &&& other.difficulty == self.difficulty
        &&& other.depth_slope == self.depth_slope
        &&& other.max_depth == self.max_depth
    }

    /// The number of cells.
    pub open spec fn cells(&self) -> int {
        self.width * self.height
    }

    /// The position of cell `(x, y)` in `state`.
    pub open spec fn index_of(&self, x: int, y: int) -> int {
        y * self.width + x
    }

    /// The grid is not empty, `state` has one entry per cell, the empty cell
    /// lies on the grid, and no observation index and no depth leaves the
    /// range of `usize`.
    pub open spec fn well_formed(&self) -> bool {
        &&& self.width >= 1
        &&& self.height >= 1
        &&& self.state.len() == self.cells()
        &&& self.zero_location.0 < self.width
        &&& self.zero_location.1 < self.height
        &&& self.cells() * self.cells() - 1 <= usize::MAX
        &&& forall|i: int|
            0 <= i < self.state.len() ==> (self.cells() - 1) * self.cells() + #[trigger] self.state[i]
                <= usize::MAX
        &&& self.depth_slope * self.difficulty <= usize::MAX
    }

    /// Whether the puzzle is well formed, so that the operations of a
    /// simulation may be used on it.
    pub fn is_well_formed(&self) -> (ok: bool)
        ensures
            ok == self.well_formed(),
    {
        if self.width < 1 || self.height < 1 {
            return false;
        }
        let cells = match self.width.checked_mul(self.height) {
            Some(cells) => cells,
            None => {
                return false;
            },
        };
        if self.state.len() != cells || self.zero_location.0 >= self.width || self.zero_location.1
            >= self.height {
            return false;
        }
        proof {
            assert(cells >= 1) by (nonlinear_arith)
                requires
                    cells == self.width * self.height,
                    self.width >= 1,
                    self.height >= 1,
            ;
            assert((cells - 1) * cells + (cells - 1) == cells * cells - 1) by (nonlinear_arith);
            assert(0 <= (cells - 1) * cells) by (nonlinear_arith)
                requires
                    cells >= 1,
            ;
        }
        let top = match (cells - 1).checked_mul(cells) {
            Some(top) => top,
            None => {
                return false;
            },
        };
        if top.checked_add(cells - 1).is_none() {
            return false;
        }
        if self.depth_slope.checked_mul(self.difficulty).is_none() {
            return false;
        }
        let mut i: usize = 0;
        while i < self.state.len()
            invariant
                i <= self.state.len(),
                top == (self.cells() - 1) * self.cells(),
                forall|j: int| 0 <= j < i ==> top + #[trigger] self.state[j] <= usize::MAX,
            decreases self.state.len() - i,
        {
            if top.checked_add(self.state[i]).is_none() {
                return false;
            }
            i += 1;
        }
        true
    }

    /// Every position holds its own number.
    pub open spec fn is_solved(&self) -> bool {
        forall|i: int| 0 <= i < self.state.len() ==> #[trigger] self.state[i] == i
    }

    /// A solved puzzle with one move left.
    pub fn new(
        width: usize,
        height: usize,
        difficulty: usize,
        depth_slope: usize,
        max_depth: usize,
    ) -> (puzzle: Self)
        requires
            width * height <= usize::MAX,
        ensures
            puzzle.state@ == identity(width * height),
            puzzle.zero_location == (0usize, 0usize),
            puzzle.depth == 1,
            puzzle.width == width,
            puzzle.height == height,
            puzzle.difficulty == difficulty,
            puzzle.depth_slope == depth_slope,
            puzzle.max_depth == max_depth,
            puzzle.is_solved(),
            puzzle.well_formed() <==> {
                &&& width >= 1
                &&& height >= 1
                &&& (width * height) * (width * height) - 1 <= usize::MAX
                &&& depth_slope * difficulty <= usize::MAX
            },
    {
        let puzzle = Puzzle {
            state: identity_state(width * height),
            zero_location: (0, 0),
            depth: 1,
            width,
            height,
            difficulty,
            depth_slope,
            max_depth,
        };
        proof {
            let cells = puzzle.cells();
            assert forall|i: int| 0 <= i < puzzle.state.len() && cells * cells - 1 <= usize::MAX implies (
            cells - 1) * cells + #[trigger] puzzle.state[i] <= usize::MAX by {
                assert((cells - 1) * cells + (cells - 1) == cells * cells - 1) by (nonlinear_arith);
            }
        }
        puzzle
    }

    /// Whether every position holds its own number.
    pub fn solved(&self) -> (done: bool)
        ensures
            done == self.is_solved(),
    {
        let mut i: usize = 0;
        while i < self.state.len()
            invariant
                i <= self.state.len(),
                forall|j: int| 0 <= j < i ==> #[trigger] self.state[j] == j,
            decreases self.state.len() - i,
        {
            if self.state[i] != i {
                return false;
            }
            i += 1;
        }
        true
    }

    /// A copy of the cells.
    pub fn get_state(&self) -> (state: Vec<usize>)
        ensures
            state@ == self.state@,
    {
        copy_column(&self.state)
    }

    /// Writes `val` into cell `(x, y)`.
    pub fn set_position(&mut self, x: usize, y: usize, val: usize)
        requires
            old(self).index_of(x as int, y as int) < old(self).state.len(),
        ensures
            final(self).state@ == old(self).state@.update(old(self).index_of(x as int, y as int), val),
            final(self).zero_location == old(self).zero_location,
            final(self).depth == old(self).depth,
            final(self).width == old(self).width,
            final(self).height == old(self).height,
            final(self).difficulty == old(self).difficulty,
            final(self).depth_slope == old(self).depth_slope,
            final(self).max_depth == old(self).max_depth,
    {
        proof {
            assert(0 <= y * self.width) by (nonlinear_arith)
                requires
                    0 <= y,
                    0 <= self.width,
            ;
        }
        let i = y * self.width + x;
        self.state[i] = val;
    }

    /// The value of cell `(x, y)`.
    pub fn get_position(&self, x: usize, y: usize) -> (val: usize)
        requires
            self.index_of(x as int, y as int) < self.state.len(),
        ensures
            val == self.state[self.index_of(x as int, y as int)],
    {
        proof {
            assert(0 <= y * self.width) by (nonlinear_arith)
                requires
                    0 <= y,
                    0 <= self.width,
            ;
        }
        self.state[y * self.width + x]
    }
}

/// `penalty` is the number minus one half.
pub open spec fn is_penalty<S: Scalar>(penalty: S) -> bool {
    exists|unit: S, two: S, half: S|
        {
            &&& is_one(unit)
            &&& is_count(2, two)
            &&& #[trigger] is_over(unit, two, half)
            &&& is_negated(half, penalty)
        }
}

/// `reward` is the reward of `puzzle`: one where it is solved, minus one
/// half where it is unsolved with no move left, and minus one half over the
/// greatest depth otherwise.
pub open spec fn is_puzzle_reward<S: Scalar>(puzzle: Puzzle, reward: S) -> bool {
    if puzzle.is_solved() {
        is_one(reward)
    } else if puzzle.depth == 0 {
        is_penalty(reward)
    } else {
        exists|penalty: S, n: S|
            {
                &&& is_penalty(penalty)
                &&& is_count(puzzle.max_depth, n)
                &&& #[trigger] is_over(penalty, n, reward)
            }
    }
}

/// Minus one half.
pub fn penalty<S: Scalar>() -> (penalty: S)
    ensures
        is_penalty(penalty),
{
    let unit = S::one();
    let two = S::from_usize(2);
    let half = unit.over(two);
    let penalty = half.negated();
    proof {
        assert(is_over(unit, two, half));
    }
    penalty
}

impl Puzzle {
    /// The cell that the empty cell moves to under `action`, if the move
    /// stays on the grid: left, up, right or down for the actions 0 to 3.
    pub open spec fn target(&self, action: usize) -> Option<(int, int)> {
        let zx = self.zero_location.0 as int;
        let zy = self.zero_location.1 as int;
        if action == 0 && zx > 0 {
            Some((zx - 1, zy))
        } else if action == 1 && zy > 0 {
            Some((zx, zy - 1))
        } else if action == 2 && zx < self.width - 1 {
            Some((zx + 1, zy))
        } else if action == 3 && zy < self.height - 1 {
            Some((zx, zy + 1))
        } else {
            None
        }
    }

    /// `next` is `self` after `action`: the tile of the target cell slides
    /// into the empty cell, which moves to the target; a move that would
    /// leave the grid changes no cell. Either way one move less is left.
    pub open spec fn moved(&self, action: usize, next: &Puzzle) -> bool {
        &&& next.width == self.width
        &&& next.height == self.height
        &&& next.difficulty == self.difficulty
        &&& next.depth_slope == self.depth_slope
        &&& next.max_depth == self.max_depth
        &&& next.depth == if self.depth > 0 {
            self.depth - 1
        } else {
            0
        }
        &&& match self.target(action) {
            Some((nx, ny)) => {
                let from = self.index_of(nx, ny);
                let to = self.index_of(
                    self.zero_location.0 as int,
                    self.zero_location.1 as int,
                );
                &&& next.state@ == self.state@.update(to, self.state[from]).update(from, 0)
                &&& next.zero_location == (nx as usize, ny as usize)
            },
            None => next.state@ == self.state@ && next.zero_location == self.zero_location,
        }
    }

    /// `path` leads from the solved puzzle through one move after the other.
    pub open spec fn is_shuffle(&self, path: Seq<Puzzle>) -> bool {
        &&& path.len() >= 1
        &&& path[0].state@ == identity(self.cells())
        &&& path[0].zero_location == (0usize, 0usize)
        &&& path[0].width == self.width
        &&& path[0].height == self.height
        &&& forall|k: int| 0 <= k < path.len() - 1 ==> (#[trigger] path[k]).one_move(&path[k + 1])
    }

    /// `next` is `self` after one of the four moves.
    pub open spec fn one_move(&self, next: &Puzzle) -> bool {
        exists|action: usize| action < NUM_MOVES && #[trigger] self.moved(action, next)
    }

    /// `next` is `self` after a reset: the solved puzzle after as many
    /// random moves as the difficulty says, with the depth slope times the
    /// difficulty of moves left and the settings of `self`.
    pub open spec fn shuffled(&self, next: &Puzzle) -> bool {
        &&& next.width == self.width
        &&& next.height == self.height
        &&& next.difficulty == self.difficulty
        &&& next.depth_slope == self.depth_slope
        &&& next.max_depth == self.max_depth
        &&& next.depth == self.depth_slope * self.difficulty
        &&& exists|path: Seq<Puzzle>|
            {
                &&& #[trigger] self.is_shuffle(path)
                &&& path.len() == self.difficulty + 1
                &&& next.state@ == path.last().state@
                &&& next.zero_location == path.last().zero_location
            }
    }

    /// Moves the empty cell to `(nx, ny)`, a cell of the grid.
    fn slide(&mut self, nx: usize, ny: usize)
        requires
            old(self).well_formed(),
            nx < old(self).width,
            ny < old(self).height,
        ensures
            final(self).well_formed(),
            final(self).width == old(self).width,
            final(self).height == old(self).height,
            final(self).difficulty == old(self).difficulty,
            final(self).depth_slope == old(self).depth_slope,
            final(self).max_depth == old(self).max_depth,
            final(self).depth == old(self).depth,
            final(self).zero_location == (nx, ny),
            final(self).state@ == old(self).state@.update(
                old(self).index_of(
                    old(self).zero_location.0 as int,
                    old(self).zero_location.1 as int,
                ),
                old(self).state[old(self).index_of(nx as int, ny as int)],
            ).update(old(self).index_of(nx as int, ny as int), 0),
    {
        let (zx, zy) = self.zero_location;
        proof {
            lemma_cell_in_grid(nx as int, ny as int, self.width as int, self.height as int);
            lemma_cell_in_grid(zx as int, zy as int, self.width as int, self.height as int);
        }
        let new_val = self.get_position(nx, ny);
        self.set_position(zx, zy, new_val);
        self.set_position(nx, ny, 0);
        self.zero_location = (nx, ny);
        proof {
            assert(0 <= (self.cells() - 1) * self.cells()) by (nonlinear_arith)
                requires
                    self.cells() >= 1,
            ;
        }
    }
}

impl Simulation for Puzzle {
    open spec fn valid(&self) -> bool {
        self.well_formed()
    }

    open spec fn horizon(&self) -> usize {
        self.depth
    }

    open spec fn same_state(&self, other: &Self) -> bool {
        self.same_as(other)
    }

    open spec fn steps_to(&self, action: usize, next: &Self) -> bool {
        self.moved(action, next)
    }

    open spec fn resets_to(&self, next: &Self) -> bool {
        self.shuffled(next)
    }

    /// Four: the empty cell moves left, up, right or down.
    fn num_actions(&self) -> (n: usize)
        ensures
            n == NUM_MOVES,
    {
        NUM_MOVES
    }

    /// The number of cells, twice: a position and the number it holds.
    fn obs_shape(&self) -> (shape: Vec<usize>)
        ensures
            shape@ == seq![self.state.len(), self.state.len()],
    {
        let mut shape: Vec<usize> = Vec::new();
        shape.push(self.state.len());
        shape.push(self.state.len());
        proof {
            assert(shape@ =~= seq![self.state.len(), self.state.len()]);
        }
        shape
    }

    /// Sets the number of random moves that `reset` makes.
    fn set_difficulty(&mut self, difficulty: usize)
        ensures
            final(self).difficulty == difficulty,
            final(self).state == old(self).state,
            final(self).zero_location == old(self).zero_location,
            final(self).depth == old(self).depth,
            final(self).width == old(self).width,
            final(self).height == old(self).height,
            final(self).depth_slope == old(self).depth_slope,
            final(self).max_depth == old(self).max_depth,
    {
        self.difficulty = difficulty;
    }

    /// The number of random moves that `reset` makes.
    fn get_difficulty(&self) -> (difficulty: usize)
        ensures
            difficulty == self.difficulty,
    {
        self.difficulty
    }

    /// Takes the cells from `state`, each number cut to the width of a cell,
    /// allows the greatest depth of moves, and looks for the empty cell at
    /// the first zero of `state`; where there is none, the empty cell stays
    /// where it was.
    fn set_state(&mut self, state: Vec<i64>)
        ensures
            final(self).state.len() == state.len(),
            forall|i: int|
                0 <= i < state.len() ==> #[trigger] final(self).state[i] == state[i] as usize,
            final(self).depth == old(self).max_depth,
            final(self).width == old(self).width,
            final(self).height == old(self).height,
            final(self).difficulty == old(self).difficulty,
            final(self).depth_slope == old(self).depth_slope,
            final(self).max_depth == old(self).max_depth,
            (forall|i: int| 0 <= i < state.len() ==> state[i] != 0) ==> final(self).zero_location
                == old(self).zero_location,
            forall|i: int|
                0 <= i < state.len() && #[trigger] state[i] == 0 && (forall|j: int|
                    0 <= j < i ==> state[j] != 0) ==> final(self).zero_location == (
                    (i % old(self).width as int) as usize,
                    (i / old(self).width as int) as usize,
                ),
    {
        let mut cells: Vec<usize> = Vec::new();
        let mut i: usize = 0;
        while i < state.len()
            invariant
                i <= state.len(),
                cells.len() == i,
                forall|j: int| 0 <= j < i ==> #[trigger] cells[j] == state[j] as usize,
            decreases state.len() - i,
        {
            cells.push(#[verifier::truncate] (state[i] as usize));
            i += 1;
        }
        self.state = cells;
        self.depth = self.max_depth;
        let mut k: usize = 0;
        let mut found = false;
        while k < state.len() && !found
            invariant
                k <= state.len(),
                self.width == old(self).width,
                self.width >= 1,
                self.height == old(self).height,
                self.difficulty == old(self).difficulty,
                self.depth_slope == old(self).depth_slope,
                self.max_depth == old(self).max_depth,
                self.depth == old(self).max_depth,
                self.state.len() == state.len(),
                forall|j: int|
                    0 <= j < state.len() ==> #[trigger] self.state[j] == state[j] as usize,
                !found ==> self.zero_location == old(self).zero_location,
                !found ==> forall|j: int| 0 <= j < k ==> state[j] != 0,
                found ==> 0 < k && state[k - 1] == 0 && (forall|j: int| 0 <= j < k - 1 ==> state[j] != 0)
                    && self.zero_location == (
                    ((k - 1) % old(self).width as int) as usize,
                    ((k - 1) / old(self).width as int) as usize,
                ),
            decreases state.len() - k, (if found { 0int } else { 1int }),
        {
            if state[k] == 0 {
                self.zero_location = (k % self.width, k / self.width);
                found = true;
            }
            k += 1;
        }
        proof {
            assert forall|i: int|
                0 <= i < state.len() && #[trigger] state[i] == 0 && (forall|j: int|
                    0 <= j < i ==> state[j] != 0) implies self.zero_location == (
                (i % old(self).width as int) as usize,
                (i / old(self).width as int) as usize,
            ) by {
                if found {
                    if i < k - 1 {
                        assert(state[i] != 0);
                    }
                    if k - 1 < i {
                        assert(state[k - 1] != 0);
                    }
                } else {
                    assert(state[i] != 0);
                }
            }
        }
    }

    /// Solves the puzzle, makes as many random moves as the difficulty says,
    /// and allows the depth slope times the difficulty of moves.
    fn reset(&mut self) {
        proof {
            lemma_cell_in_grid(0, 0, self.width as int, self.height as int);
        }
        self.state = identity_state(self.width * self.height);
        self.zero_location = (0, 0);
        proof {
            let cells = self.cells();
            assert forall|i: int| 0 <= i < self.state.len() implies (cells - 1) * cells + #[trigger] self.state[i]
                <= usize::MAX by {
                assert((cells - 1) * cells + (cells - 1) == cells * cells - 1) by (nonlinear_arith);
            }
        }
        let ghost mut path: Seq<Puzzle> = seq![*self];
        let mut k: usize = 0;
        while k < self.difficulty
            invariant
                self.well_formed(),
                self.width == old(self).width,
                self.height == old(self).height,
                self.difficulty == old(self).difficulty,
                self.depth_slope == old(self).depth_slope,
                self.max_depth == old(self).max_depth,
                k <= self.difficulty,
                path.len() == k + 1,
                path.last() == *self,
                old(self).is_shuffle(path),
            decreases self.difficulty - k,
        {
            let action = random_below(NUM_MOVES);
            let ghost before = *self;
            let ghost old_path = path;
            self.step(action);
            proof {
                path = path.push(*self);
                assert forall|j: int| 0 <= j < path.len() - 1 implies (#[trigger] path[j]).one_move(
                    &path[j + 1],
                ) by {
                    if j < k {
                        assert(path[j] == old_path[j]);
                        assert(path[j + 1] == old_path[j + 1]);
                        assert(old_path[j].one_move(&old_path[j + 1]));
                    } else {
                        assert(path[j] == before);
                        assert(before.moved(action, &path[j + 1]));
                    }
                }
            }
            k += 1;
        }
        self.depth = self.depth_slope * self.difficulty;
        proof {
            assert(old(self).is_shuffle(path));
        }
    }

    /// Moves the empty cell as `action` says, if that stays on the grid, and
    /// uses up one move.
    fn step(&mut self, action: usize) {
        let (zx, zy) = self.zero_location;
        if (action == 0) && (zx > 0) {
            self.slide(zx - 1, zy);
        } else if (action == 1) && (zy > 0) {
            self.slide(zx, zy - 1);
        } else if (action == 2) && (zx < (self.width - 1)) {
            self.slide(zx + 1, zy);
        } else if (action == 3) && (zy < (self.height - 1)) {
            self.slide(zx, zy + 1);
        }
        self.depth = self.depth.saturating_sub(1);
    }

    /// For each of the four moves, whether it stays on the grid.
    fn masks(&self) -> (masks: Vec<bool>)
        ensures
            masks@ == seq![
                self.zero_location.0 > 0,
                self.zero_location.1 > 0,
                self.zero_location.0 < self.width - 1,
                self.zero_location.1 < self.height - 1,
            ],
    {
        let (zx, zy) = self.zero_location;
        let mut masks: Vec<bool> = Vec::new();
        masks.push(zx > 0);
        masks.push(zy > 0);
        masks.push(zx < (self.width - 1));
        masks.push(zy < (self.height - 1));
        proof {
            assert(masks@ =~= seq![
                self.zero_location.0 > 0,
                self.zero_location.1 > 0,
                self.zero_location.0 < self.width - 1,
                self.zero_location.1 < self.height - 1,
            ]);
        }
        masks
    }

    /// Whether no move is left or the puzzle is solved.
    fn is_final(&self) -> (done: bool)
        ensures
            done == (self.depth == 0 || self.is_solved()),
    {
        self.depth == 0 || self.solved()
    }

    /// For every position `i` the feature index `i * cells + state[i]`.
    fn observe(&self) -> (obs: Vec<usize>)
        ensures
            obs.len() == self.state.len(),
            forall|i: int| 0 <= i < obs.len() ==> #[trigger] obs[i] == i * self.cells() + self.state[i],
    {
        let mut obs: Vec<usize> = Vec::new();
        let mut i: usize = 0;
        while i < self.state.len()
            invariant
                self.well_formed(),
                i <= self.state.len(),
                obs.len() == i,
                forall|j: int| 0 <= j < i ==> #[trigger] obs[j] == j * self.cells() + self.state[j],
            decreases self.state.len() - i,
        {
            proof {
                let cells = self.cells();
                let h = self.height as int;
                let w = self.width as int;
                assert(i * h * w == i * cells) by (nonlinear_arith)
                    requires
                        cells == w * h,
                ;
                assert(0 <= i * h <= i * cells) by (nonlinear_arith)
                    requires
                        cells == w * h,
                        w >= 1,
                        h >= 1,
                        i >= 0,
                ;
                assert(i * cells <= (cells - 1) * cells) by (nonlinear_arith)
                    requires
                        0 <= i <= cells - 1,
                ;
                assert((cells - 1) * cells + self.state[i as int] <= usize::MAX);
            }
            obs.push(i * self.height * self.width + self.state[i]);
            i += 1;
        }
        obs
    }

    fn snapshot(&self) -> (copy: Self) {
        let copy = self.clone();
        proof {
            assert forall|i: int| 0 <= i < copy.state.len() implies (copy.cells() - 1) * copy.cells()
                + #[trigger] copy.state[i] <= usize::MAX by {
                assert(copy.state[i] == self.state[i]);
            }
        }
        copy
    }
}

impl<S: Scalar> Env<S> for Puzzle {
    /// One for a solved puzzle; else minus one half where no move is left,
    /// and minus one half over the greatest depth where moves are left.
    fn reward(&self) -> (reward: S)
        ensures
            is_puzzle_reward::<S>(*self, reward),
    {
        if self.solved() {
            S::one()
        } else {
            let half = penalty::<S>();
            if self.depth == 0 {
                half
            } else {
                let n = S::from_usize(self.max_depth);
                let reward = half.over(n);
                proof {
                    assert(is_over::<S>(half, n, reward));
                }
                reward
            }
        }
    }
}

} // verus!
