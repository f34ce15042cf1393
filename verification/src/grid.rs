//! The grid orchestrator: holds all cells, the authoritative hidden mine
//! layout, game-level flags, the generator, the transform pipeline and the
//! correlation registry, and drives placement, reveal, containment,
//! propagation and win detection.

use vstd::prelude::*;

use crate::PROB_UNIT;
use crate::circuit::Circuit;
use crate::circuit::spec_apply_gates;
use crate::count_matching;
use crate::entanglement::Entanglement;
use crate::entanglement::LinkType;
use crate::entanglement::spec_hard_linked;
use crate::entanglement::spec_other;
use crate::entanglement::spec_touches;
use crate::entanglement::spec_weak_blend;
use crate::lemma_count_bounds;
use crate::lemma_count_pointwise_le;
use crate::lemma_count_update;
use crate::lemma_count_zero;
use crate::rng::SplitMix64;
use crate::rng::spec_draw;
use crate::rng::spec_fraction;
use crate::rng::SAMPLE_TRIES;
use crate::rng::lemma_sample_in_range;
use crate::rng::lemma_state_after_step;
use crate::rng::lemma_wrapping_add_mod;
use crate::rng::spec_next_state;
use crate::rng::spec_sample;
use crate::rng::spec_state_after;

verus! {

/// Displayed hints are clamped into this band after placement, so that no
/// cell ever looks perfectly safe or perfectly doomed.
pub const HINT_MIN: u64 = 10_000;

/// Upper end of the displayed-hint band.
pub const HINT_MAX: u64 = 990_000;

/// Width of the setup noise band: ±5% around the baseline density.
pub const NOISE_SETUP: u64 = 100_000;

/// Width of the post-placement noise band: ±3% around the blended density.
pub const NOISE_RECALC: u64 = 60_000;

/// Width of the weak-measurement drift band: ±4% around the stored hint.
pub const NOISE_MEASURE: u64 = 80_000;

// ---------------------------------------------------------------------------
// Cell state
// ---------------------------------------------------------------------------

#[derive(Clone, Copy, Debug, PartialEq, Eq)]
pub enum CellState {
    /// Unobserved — the player sees a probability hint (parts per million).
    Superposition { probability: u64 },
    /// Observed safe — shows the true adjacent mine count.
    Revealed { adjacent_mines: u8 },
    /// Mine correctly contained by the player. Terminal.
    Contained,
    /// Mine detonated — game over. Terminal.
    Detonated,
}

#[derive(Clone, Copy, Debug, PartialEq, Eq)]
pub struct QuantumCell {
    pub x: u32,
    pub y: u32,
    pub state: CellState,
}

/// Whether a cell is still unresolved.
pub open spec fn spec_is_sup(c: QuantumCell) -> bool {
    c.state is Superposition
}

/// The displayed probability of an unresolved cell (0 on resolved cells).
pub open spec fn spec_prob(c: QuantumCell) -> u64 {
    match c.state {
        CellState::Superposition { probability } => probability,
        _ => 0u64,
    }
}

/// How many cells of a sequence are still unresolved.
pub open spec fn count_sup(cells: Seq<QuantumCell>) -> int {
    count_matching(cells, |c: QuantumCell| spec_is_sup(c))
}

/// How many entries of a mine layout are mines.
pub open spec fn count_mines(m: Seq<bool>) -> int {
    count_matching(m, |b: bool| b)
}

// ---------------------------------------------------------------------------
// Grid snapshot
// ---------------------------------------------------------------------------

#[derive(Clone, Debug)]
pub struct GridSnapshot {
    pub width: u32,
    pub height: u32,
    pub game_over: bool,
    pub won: bool,
    pub seed: u64,
    pub containment_charges: u32,
    /// Fraction of cells still unresolved, in parts per million.
    pub entropy: u64,
    pub cells: Vec<QuantumCell>,
}

// ---------------------------------------------------------------------------
// Reveal / contain outcomes
// ---------------------------------------------------------------------------

#[derive(Clone, Debug, PartialEq)]
pub enum RevealOutcome {
    /// Safe cell uncovered.
    Revealed { cell: QuantumCell },
    /// Mine detonated by direct reveal — game over.
    MineDetonated { x: u32, y: u32 },
    /// Correct containment — mine locked down.
    ContainmentSuccess { x: u32, y: u32 },
    /// Wrong containment — the cell was safe, the charge is spent anyway, and
    /// the cell gets revealed.
    ContainmentFailed { cell: QuantumCell },
    /// The cell was already resolved (not in superposition).
    AlreadyResolved,
    /// Coordinates outside the grid.
    OutOfBounds,
    /// The game is already finished.
    GameAlreadyOver,
    /// No containment charges remaining.
    NoChargesRemaining,
    /// One or more entangled partners were force-collapsed by hard-link
    /// propagation; the vector holds their resolved states.
    EntangledCollapse { cells: Vec<QuantumCell> },
}

/// Failure of one of the measurement tools.
#[derive(Clone, Copy, Debug, PartialEq, Eq)]
pub enum ToolError {
    /// Coordinates outside the grid.
    OutOfBounds,
    /// The cell is already resolved.
    AlreadyResolved,
}

impl ToolError {
    /// A short description of the failure.
    pub fn message(&self) -> (r: &'static str)
        ensures
            *self is OutOfBounds ==> r@ == "coordinates out of bounds"@,
            *self is AlreadyResolved ==> r@ == "cell is already resolved"@,
    {
        match self {
            ToolError::OutOfBounds => "coordinates out of bounds",
            ToolError::AlreadyResolved => "cell is already resolved",
        }
    }
}

// ---------------------------------------------------------------------------
// QuantumGrid — the core game state
// ---------------------------------------------------------------------------

#[derive(Clone, Debug)]
pub struct QuantumGrid {
    pub width: u32,
    pub height: u32,
    pub mine_count: u32,
    pub game_over: bool,
    pub won: bool,
    pub seed: u64,
    pub containment_charges: u32,
    pub cells: Vec<QuantumCell>,
    pub circuit: Circuit,
    pub entanglement: Entanglement,
    /// The generator's current state; public so a full game (including
    /// generator state) can be saved and restored bit for bit.
    pub rng: SplitMix64,
    /// The authoritative hidden layout: `mine_map[i]` is whether cell `i`
    /// holds a mine. Never exposed directly to the player.
    pub mine_map: Vec<bool>,
    pub mines_placed: bool,
}

/// The flat index of coordinates (x, y) on a grid of the given width.
pub open spec fn spec_index_in(w: int, x: int, y: int) -> int {
    y * w + x
}

/// 1 if (x, y) is a valid cell of the given layout holding a mine, else 0.
pub open spec fn spec_mine_at_in(mines: Seq<bool>, w: int, h: int, x: int, y: int) -> int {
    if 0 <= x < w && 0 <= y < h && mines[spec_index_in(w, x, y)] {
        1
    } else {
        0
    }
}

/// 1 if (x, y) is a valid cell of a w×h grid, else 0.
pub open spec fn spec_valid_at_in(w: int, h: int, x: int, y: int) -> int {
    if 0 <= x < w && 0 <= y < h {
        1
    } else {
        0
    }
}

/// The true number of mines among the up-to-8 neighbors of (x, y) in the
/// given layout.
pub open spec fn spec_adjacent_in(mines: Seq<bool>, w: int, h: int, x: int, y: int) -> int {
    spec_mine_at_in(mines, w, h, x - 1, y - 1) + spec_mine_at_in(mines, w, h, x, y - 1)
        + spec_mine_at_in(mines, w, h, x + 1, y - 1) + spec_mine_at_in(mines, w, h, x - 1, y)
        + spec_mine_at_in(mines, w, h, x + 1, y) + spec_mine_at_in(mines, w, h, x - 1, y + 1)
        + spec_mine_at_in(mines, w, h, x, y + 1) + spec_mine_at_in(mines, w, h, x + 1, y + 1)
}

/// The number of valid neighbor cells of (x, y) on a w×h grid.
pub open spec fn spec_neighbor_count_in(w: int, h: int, x: int, y: int) -> int {
    spec_valid_at_in(w, h, x - 1, y - 1) + spec_valid_at_in(w, h, x, y - 1) + spec_valid_at_in(
        w,
        h,
        x + 1,
        y - 1,
    ) + spec_valid_at_in(w, h, x - 1, y) + spec_valid_at_in(w, h, x + 1, y) + spec_valid_at_in(
        w,
        h,
        x - 1,
        y + 1,
    ) + spec_valid_at_in(w, h, x, y + 1) + spec_valid_at_in(w, h, x + 1, y + 1)
}

/// Whether flat indices `i` and `n` name distinct, 8-adjacent cells of a grid
/// of the given width.
pub open spec fn spec_cells_adjacent(w: int, i: int, n: int) -> bool {
    &&& n != i
    &&& -1 <= n % w - i % w <= 1
    &&& -1 <= n / w - i / w <= 1
}

impl QuantumGrid {
    /// Basic well-formedness: dimensions match the flat cell array, every
    /// cell records its own coordinates, hints and link strengths stay in the
    /// unit interval, link endpoints are in range, and once mines are placed
    /// exactly `mine_count` of them exist.
    pub open spec fn wf(self) -> bool {
        &&& (self.width as int) * (self.height as int) == self.cells@.len()
        &&& 9 <= self.cells@.len() <= PROB_UNIT
        &&& self.mine_map@.len() == self.cells@.len()
        &&& self.mine_count as int <= self.cells@.len() - 9
        &&& forall|i: int|
            0 <= i < self.cells@.len() ==> (#[trigger] self.cells@[i]).x as int == i % (
            self.width as int) && self.cells@[i].y as int == i / (self.width as int) && spec_prob(
                self.cells@[i],
            ) <= PROB_UNIT
        &&& forall|k: int|
            0 <= k < self.entanglement.pairs@.len() ==> (#[trigger] self.entanglement.pairs@[k]).left
                < self.cells@.len() && self.entanglement.pairs@[k].right < self.cells@.len()
                && self.entanglement.pairs@[k].strength <= PROB_UNIT
        &&& self.mines_placed ==> count_mines(self.mine_map@) == self.mine_count as int
        &&& !self.mines_placed ==> forall|i: int|
            0 <= i < self.mine_map@.len() ==> !(#[trigger] self.mine_map@[i])
    }

    /// The flat index of coordinates (x, y).
    pub open spec fn spec_index(self, x: int, y: int) -> int {
        y * (self.width as int) + x
    }

    /// 1 if (x, y) is a valid cell holding a mine, else 0.
    pub open spec fn spec_mine_at(self, x: int, y: int) -> int {
        spec_mine_at_in(self.mine_map@, self.width as int, self.height as int, x, y)
    }

    /// 1 if (x, y) is a valid cell, else 0.
    pub open spec fn spec_valid_at(self, x: int, y: int) -> int {
        spec_valid_at_in(self.width as int, self.height as int, x, y)
    }

    /// The true number of mines among the up-to-8 neighbors of (x, y).
    pub open spec fn spec_adjacent_mines(self, x: int, y: int) -> int {
        spec_adjacent_in(self.mine_map@, self.width as int, self.height as int, x, y)
    }

    /// The number of valid neighbor cells of (x, y).
    pub open spec fn spec_neighbor_count(self, x: int, y: int) -> int {
        spec_neighbor_count_in(self.width as int, self.height as int, x, y)
    }

    /// Whether cell index `i` lies in the 3×3 safe zone around (x, y).
    pub open spec fn spec_in_zone(self, i: int, x: int, y: int) -> bool {
        &&& 0 <= i < self.cells@.len()
        &&& -1 <= i % (self.width as int) - x <= 1
        &&& -1 <= i / (self.width as int) - y <= 1
    }

    /// Whether a resolved cell agrees with the ground truth: revealed cells
    /// are safe and show the true adjacent count, contained and detonated
    /// cells are mines.
    pub open spec fn spec_resolved_ok(self, i: int) -> bool {
        match self.cells@[i].state {
            CellState::Superposition { .. } => true,
            CellState::Revealed { adjacent_mines } => !self.mine_map@[i] && adjacent_mines as int
                == self.spec_adjacent_mines(i % (self.width as int), i / (self.width as int)),
            CellState::Contained => self.mine_map@[i],
            CellState::Detonated => self.mine_map@[i],
        }
    }

    /// The per-cell value of the probability cloud: unresolved cells emit
    /// their hint, contained and detonated cells emit 1, revealed cells 0.
    pub open spec fn spec_cloud_value(c: QuantumCell) -> u64 {
        match c.state {
            CellState::Superposition { probability } => probability,
            CellState::Revealed { .. } => 0u64,
            CellState::Contained => PROB_UNIT,
            CellState::Detonated => PROB_UNIT,
        }
    }

    /// Entropy in parts per million: the fraction of cells still unresolved.
    pub open spec fn spec_entropy(self) -> int
        recommends
            self.cells@.len() > 0,
    {
        count_sup(self.cells@) * (PROB_UNIT as int) / (self.cells@.len() as int)
    }
}

/// Everything but the cells, the generator, the layout, the flags and the
/// charges is fixed across an action.
pub open spec fn same_config(a: QuantumGrid, b: QuantumGrid) -> bool {
    &&& b.width == a.width
    &&& b.height == a.height
    &&& b.mine_count == a.mine_count
    &&& b.seed == a.seed
    &&& b.circuit.gates@ == a.circuit.gates@
    &&& b.entanglement.pairs@ == a.entanglement.pairs@
    &&& b.cells@.len() == a.cells@.len()
    &&& b.mine_map@.len() == a.mine_map@.len()
}

/// Cells only ever leave superposition: a resolved cell never changes again,
/// and positions are fixed.
pub open spec fn cells_evolve(a: Seq<QuantumCell>, b: Seq<QuantumCell>) -> bool {
    &&& b.len() == a.len()
    &&& forall|i: int|
        0 <= i < a.len() ==> (#[trigger] b[i]).x == a[i].x && b[i].y == a[i].y
    &&& forall|i: int| 0 <= i < a.len() && !spec_is_sup(#[trigger] a[i]) ==> b[i] == a[i]
}

/// Index arithmetic: a coordinate pair inside the grid maps below the total.
pub proof fn lemma_index_bound(x: int, y: int, w: int, h: int)
    requires
        0 <= x < w,
        0 <= y < h,
    ensures
        0 <= y * w + x < w * h,
        (y * w + x) % w == x,
        (y * w + x) / w == y,
{
    assert(0 <= y * w + x < w * h) by (nonlinear_arith)
        requires
            0 <= x < w,
            0 <= y < h,
    ;
    assert((y * w + x) % w == x && (y * w + x) / w == y) by (nonlinear_arith)
        requires
            0 <= x < w,
            0 <= y,
    ;
}

/// Every queue entry with on-grid coordinates names an in-range flat index.
pub proof fn lemma_stack_indices_in_range(stack: Seq<(u32, u32)>, wi: int, hi: int)
    requires
        1 <= wi,
        1 <= hi,
        forall|j: int| 0 <= j < stack.len() ==> (#[trigger] stack[j]).0 < wi && stack[j].1 < hi,
    ensures
        forall|j: int|
            0 <= j < stack.len() ==> ((#[trigger] stack[j]).1 as int) * wi + (stack[j].0 as int)
                < wi * hi,
    decreases stack.len(),
{
    if stack.len() > 0 {
        assert(forall|j: int|
            0 <= j < stack.len() - 1 ==> (#[trigger] stack.drop_last()[j]) == stack[j]);
        lemma_stack_indices_in_range(stack.drop_last(), wi, hi);
        let lst = stack[stack.len() - 1];
        lemma_index_bound(lst.0 as int, lst.1 as int, wi, hi);
        assert forall|j: int|
            0 <= j < stack.len() implies ((#[trigger] stack[j]).1 as int) * wi + (
        stack[j].0 as int) < wi * hi by {
            if j < stack.len() - 1 {
                assert(stack.drop_last()[j] == stack[j]);
            }
        }
    }
}

/// Division of the index by the width recovers the row, and the remainder
/// the column, both in range.
pub proof fn lemma_coords_bound(i: int, w: int, h: int)
    requires
        0 <= i < w * h,
        1 <= w,
        1 <= h,
    ensures
        0 <= i % w < w,
        0 <= i / w < h,
        (i / w) * w + (i % w) == i,
{
    assert(0 <= i % w < w && 0 <= i / w && (i / w) * w + (i % w) == i) by (nonlinear_arith)
        requires
            0 <= i,
            1 <= w,
    ;
    assert(i / w < h) by (nonlinear_arith)
        requires
            0 <= i < w * h,
            1 <= w,
            1 <= h,
    ;
}

impl QuantumGrid {
    /// The flat index of (x, y), or `None` outside the grid.
    pub fn index_of(&self, x: u32, y: u32) -> (r: Option<usize>)
        requires
            self.wf(),
        ensures
            x < self.width && y < self.height ==> r == Some(
                (self.spec_index(x as int, y as int)) as usize,
            ) && self.spec_index(x as int, y as int) < self.cells@.len(),
            !(x < self.width && y < self.height) ==> r is None,
    {
        if x >= self.width || y >= self.height {
            None
        } else {
            proof {
                lemma_index_bound(x as int, y as int, self.width as int, self.height as int);
            }
            Some((y as usize) * (self.width as usize) + (x as usize))
        }
    }

    /// The coordinates of a flat index.
    pub fn coords_of(&self, index: usize) -> (r: (u32, u32))
        requires
            self.wf(),
            index < self.cells@.len(),
        ensures
            r.0 as int == index as int % (self.width as int),
            r.1 as int == index as int / (self.width as int),
            r.0 < self.width,
            r.1 < self.height,
            self.spec_index(r.0 as int, r.1 as int) == index as int,
    {
        proof {
            lemma_coords_bound(index as int, self.width as int, self.height as int);
        }
        let x = (index % (self.width as usize)) as u32;
        let y = (index / (self.width as usize)) as u32;
        (x, y)
    }

    /// 1 if (x, y) is a valid cell holding a mine, else 0. Coordinates may
    /// fall outside the grid.
    fn mine_at(&self, x: i64, y: i64) -> (r: u8)
        requires
            self.wf(),
            -2 <= x <= u32::MAX as i64 + 1,
            -2 <= y <= u32::MAX as i64 + 1,
        ensures
            r as int == self.spec_mine_at(x as int, y as int),
            r <= 1,
    {
        if x >= 0 && y >= 0 && x < self.width as i64 && y < self.height as i64 {
            proof {
                lemma_index_bound(x as int, y as int, self.width as int, self.height as int);
            }
            if self.mine_map[(y as usize) * (self.width as usize) + (x as usize)] {
                1
            } else {
                0
            }
        } else {
            0
        }
    }

    /// 1 if (x, y) is a valid cell, else 0.
    fn valid_at(&self, x: i64, y: i64) -> (r: u8)
        requires
            self.wf(),
        ensures
            r as int == self.spec_valid_at(x as int, y as int),
            r <= 1,
    {
        if x >= 0 && y >= 0 && x < self.width as i64 && y < self.height as i64 {
            1
        } else {
            0
        }
    }

    /// Count adjacent mines from the ground-truth layout.
    pub fn adjacent_mines(&self, x: u32, y: u32) -> (r: u8)
        requires
            self.wf(),
        ensures
            r as int == self.spec_adjacent_mines(x as int, y as int),
            r <= 8,
    {
        let xi = x as i64;
        let yi = y as i64;
        let r = self.mine_at(xi - 1, yi - 1) + self.mine_at(xi, yi - 1) + self.mine_at(
            xi + 1,
            yi - 1,
        ) + self.mine_at(xi - 1, yi) + self.mine_at(xi + 1, yi) + self.mine_at(xi - 1, yi + 1)
            + self.mine_at(xi, yi + 1) + self.mine_at(xi + 1, yi + 1);
        r
    }

    /// The number of valid neighbor cells of (x, y).
    pub fn neighbor_count(&self, x: u32, y: u32) -> (r: u8)
        requires
            self.wf(),
        ensures
            r as int == self.spec_neighbor_count(x as int, y as int),
            r <= 8,
    {
        let xi = x as i64;
        let yi = y as i64;
        let r = self.valid_at(xi - 1, yi - 1) + self.valid_at(xi, yi - 1) + self.valid_at(
            xi + 1,
            yi - 1,
        ) + self.valid_at(xi - 1, yi) + self.valid_at(xi + 1, yi) + self.valid_at(xi - 1, yi + 1)
            + self.valid_at(xi, yi + 1) + self.valid_at(xi + 1, yi + 1);
        r
    }

    /// How many cells are still in superposition.
    pub fn count_superposition(&self) -> (r: u64)
        requires
            self.wf(),
        ensures
            r as int == count_sup(self.cells@),
            r as int <= self.cells@.len(),
    {
        let n = self.cells.len();
        let mut c: u64 = 0;
        let mut i: usize = 0;
        proof {
            assert(self.cells@.take(0) =~= Seq::<QuantumCell>::empty());
        }
        while i < n
            invariant
                0 <= i <= n,
                n == self.cells@.len(),
                n <= PROB_UNIT,
                c as int == count_sup(self.cells@.take(i as int)),
                c <= i,
            decreases n - i,
        {
            proof {
                assert(self.cells@.take(i as int + 1).drop_last() =~= self.cells@.take(i as int));
                assert(self.cells@.take(i as int + 1).last() == self.cells@[i as int]);
                lemma_count_bounds(
                    self.cells@.take(i as int + 1),
                    |cl: QuantumCell| spec_is_sup(cl),
                );
            }
            let is_s = match self.cells[i].state {
                CellState::Superposition { .. } => true,
                _ => false,
            };
            if is_s {
                c = c + 1;
            }
            i = i + 1;
        }
        proof {
            assert(self.cells@.take(n as int) =~= self.cells@);
        }
        c
    }

    /// Fraction of cells still unresolved, in parts per million:
    /// `PROB_UNIT` means fully uncertain, 0 fully resolved.
    pub fn entropy(&self) -> (r: u64)
        requires
            self.wf(),
        ensures
            r as int == self.spec_entropy(),
            r <= PROB_UNIT,
    {
        let c = self.count_superposition();
        let n = self.cells.len() as u64;
        proof {
            assert(c * PROB_UNIT <= n * PROB_UNIT) by (nonlinear_arith)
                requires
                    c <= n,
            ;
            assert(n * PROB_UNIT <= PROB_UNIT * PROB_UNIT) by (nonlinear_arith)
                requires
                    n <= PROB_UNIT,
            ;
            assert(((c * PROB_UNIT) as int) / (n as int) <= PROB_UNIT as int) by (nonlinear_arith)
                requires
                    (c * PROB_UNIT) as int <= (n as int) * (PROB_UNIT as int),
                    n >= 1,
            ;
        }
        (c * PROB_UNIT) / n
    }

    /// The player wins when every cell is resolved and the game is not over.
    pub fn is_win_condition_met(&self) -> (r: bool)
        requires
            self.wf(),
        ensures
            r == (!self.game_over && count_sup(self.cells@) == 0),
    {
        !self.game_over && self.count_superposition() == 0
    }

    /// One value per cell: unresolved cells emit their stored hint, contained
    /// and detonated cells 1, revealed cells 0 (all in parts per million).
    pub fn get_probability_cloud(&self) -> (r: Vec<u64>)
        requires
            self.wf(),
        ensures
            r@.len() == self.cells@.len(),
            forall|i: int|
                0 <= i < r@.len() ==> r@[i] == QuantumGrid::spec_cloud_value(self.cells@[i]),
    {
        let n = self.cells.len();
        let mut r: Vec<u64> = Vec::new();
        let mut i: usize = 0;
        while i < n
            invariant
                0 <= i <= n,
                n == self.cells@.len(),
                r@.len() == i,
                forall|j: int|
                    0 <= j < i ==> r@[j] == QuantumGrid::spec_cloud_value(self.cells@[j]),
            decreases n - i,
        {
            let v = match self.cells[i].state {
                CellState::Superposition { probability } => probability,
                CellState::Revealed { .. } => 0,
                CellState::Contained => PROB_UNIT,
                CellState::Detonated => PROB_UNIT,
            };
            r.push(v);
            i = i + 1;
        }
        r
    }

    /// A read-only projection of dimensions, flags, seed, charges, entropy
    /// and all cells.
    pub fn snapshot(&self) -> (r: GridSnapshot)
        requires
            self.wf(),
        ensures
            r.width == self.width,
            r.height == self.height,
            r.game_over == self.game_over,
            r.won == self.won,
            r.seed == self.seed,
            r.containment_charges == self.containment_charges,
            r.entropy as int == self.spec_entropy(),
            r.cells@ == self.cells@,
    {
        let entropy = self.entropy();
        let n = self.cells.len();
        let mut cells: Vec<QuantumCell> = Vec::new();
        let mut i: usize = 0;
        while i < n
            invariant
                0 <= i <= n,
                n == self.cells@.len(),
                cells@.len() == i,
                forall|j: int| 0 <= j < i ==> cells@[j] == self.cells@[j],
            decreases n - i,
        {
            cells.push(self.cells[i]);
            i = i + 1;
        }
        proof {
            assert(cells@ =~= self.cells@);
        }
        GridSnapshot {
            width: self.width,
            height: self.height,
            game_over: self.game_over,
            won: self.won,
            seed: self.seed,
            containment_charges: self.containment_charges,
            entropy,
            cells,
        }
    }
}

/// Every field except the cells is unchanged.
pub open spec fn only_cells_differ(a: QuantumGrid, b: QuantumGrid) -> bool {
    &&& b.width == a.width
    &&& b.height == a.height
    &&& b.mine_count == a.mine_count
    &&& b.game_over == a.game_over
    &&& b.won == a.won
    &&& b.seed == a.seed
    &&& b.containment_charges == a.containment_charges
    &&& b.circuit.gates@ == a.circuit.gates@
    &&& b.entanglement.pairs@ == a.entanglement.pairs@
    &&& b.rng == a.rng
    &&& b.mine_map@ == a.mine_map@
    &&& b.mines_placed == a.mines_placed
}

/// Every field except the cells and the generator is unchanged.
pub open spec fn only_cells_and_rng_differ(a: QuantumGrid, b: QuantumGrid) -> bool {
    &&& b.width == a.width
    &&& b.height == a.height
    &&& b.mine_count == a.mine_count
    &&& b.game_over == a.game_over
    &&& b.won == a.won
    &&& b.seed == a.seed
    &&& b.containment_charges == a.containment_charges
    &&& b.circuit.gates@ == a.circuit.gates@
    &&& b.entanglement.pairs@ == a.entanglement.pairs@
    &&& b.mine_map@ == a.mine_map@
    &&& b.mines_placed == a.mines_placed
}

/// The same cell with its displayed probability flipped.
pub open spec fn spec_flip_cell(c: QuantumCell) -> QuantumCell
    recommends
        spec_is_sup(c),
        spec_prob(c) <= PROB_UNIT,
{
    QuantumCell {
        x: c.x,
        y: c.y,
        state: CellState::Superposition { probability: (PROB_UNIT - spec_prob(c)) as u64 },
    }
}

/// A value clamped into the displayed-hint band.
pub open spec fn spec_clamp_hint(v: int) -> u64 {
    if v < HINT_MIN as int {
        HINT_MIN
    } else if v > HINT_MAX as int {
        HINT_MAX
    } else {
        v as u64
    }
}

/// A value clamped into the unit interval.
pub open spec fn spec_clamp_unit(v: int) -> u64 {
    if v < 0 {
        0u64
    } else if v > PROB_UNIT as int {
        PROB_UNIT
    } else {
        v as u64
    }
}

/// The stride at which the construction steps through cell indices when
/// laying correlation links, by difficulty label.
pub open spec fn spec_link_stride(difficulty: Seq<char>) -> int {
    if difficulty == "observer"@ {
        11
    } else if difficulty == "theorist"@ {
        5
    } else {
        7
    }
}

/// The strength of the laid correlation links (parts per million), by
/// difficulty label.
pub open spec fn spec_link_strength(difficulty: Seq<char>) -> u64 {
    if difficulty == "observer"@ {
        200_000
    } else if difficulty == "theorist"@ {
        500_000
    } else {
        350_000
    }
}

/// Whether the difficulty promotes alternating links to the hard kind.
pub open spec fn spec_link_uses_hard(difficulty: Seq<char>) -> bool {
    difficulty == "theorist"@
}

/// How many links the construction lays over `total` cells at a given
/// stride: one for each multiple of the stride whose half-stride partner is
/// still on the grid.
pub open spec fn spec_link_count(total: int, stride: int) -> int {
    (total - stride / 2 - 1) / stride + 1
}

/// The displayed hint the post-placement recomputation assigns to cell `i`:
/// the true local mine density around the cell (the baseline density where it
/// has no neighbors), blended 60% local / 40% baseline, plus one fresh noise
/// draw — the draw for `i` is preceded by one draw for every unresolved cell
/// before it — clamped into the hint band and scrambled through the pipeline.
pub open spec fn spec_recalc_hint(
    cells: Seq<QuantumCell>,
    mines: Seq<bool>,
    w: int,
    h: int,
    mine_count: int,
    gates: Seq<crate::circuit::Gate>,
    s0: u64,
    i: int,
) -> u64 {
    let baseline = mine_count * (PROB_UNIT as int) / (w * h);
    let x = i % w;
    let y = i / w;
    let ncount = spec_neighbor_count_in(w, h, x, y);
    let local = if ncount > 0 {
        spec_adjacent_in(mines, w, h, x, y) * (PROB_UNIT as int) / ncount
    } else {
        baseline
    };
    let blended = (local * 6 + baseline * 4) / 10;
    let noise = spec_fraction(
        spec_draw(spec_state_after(s0, count_sup(cells.take(i)))),
        NOISE_RECALC,
    );
    spec_apply_gates(gates, spec_clamp_hint(blended + noise - (NOISE_RECALC as int) / 2))
}

/// Flipping a cell's displayed probability twice restores the cell exactly,
/// so the flip tool is an involution on an otherwise-untouched unresolved
/// cell.
pub proof fn lemma_flip_involution(c: QuantumCell)
    requires
        spec_is_sup(c),
        spec_prob(c) <= PROB_UNIT,
    ensures
        spec_flip_cell(spec_flip_cell(c)) == c,
{
}

/// Lifted to whole grids: two flip actions on the same cell of an
/// otherwise-untouched grid leave the cell array exactly as it began.
pub proof fn lemma_flip_involution_grid(g0: QuantumGrid, g1: QuantumGrid, g2: QuantumGrid, i: int)
    requires
        g0.wf(),
        0 <= i < g0.cells@.len(),
        spec_is_sup(g0.cells@[i]),
        g1.cells@ == g0.cells@.update(i, spec_flip_cell(g0.cells@[i])),
        g2.cells@ == g1.cells@.update(i, spec_flip_cell(g1.cells@[i])),
    ensures
        g2.cells@ == g0.cells@,
{
    assert(g1.cells@[i] == spec_flip_cell(g0.cells@[i]));
    lemma_flip_involution(g0.cells@[i]);
    assert(g2.cells@ =~= g0.cells@);
}

/// Everything `new` promises of a freshly built grid, as a single relation
/// between the construction parameters and the result: well-formedness, the
/// clamped mine count and full charges, every cell unresolved with its exact
/// initial hint, the exact gate pipeline, the exact link list, and the exact
/// generator state. Every field of the grid is a function of the parameters,
/// which is what makes construction reproducible from a seed.
#[verifier::opaque]
pub open spec fn new_post(
    r: QuantumGrid,
    width: u32,
    height: u32,
    mine_count: u32,
    seed: u64,
    difficulty: Seq<char>,
) -> bool {
    &&& r.wf()
    &&& r.width == width
    &&& r.height == height
    &&& r.seed == seed
    &&& r.mine_count as int == if mine_count as int <= (width as int) * (height as int) - 9 {
            mine_count as int
        } else {
            (width as int) * (height as int) - 9
        }
    &&& r.containment_charges == r.mine_count
    &&& !r.game_over
    &&& !r.won
    &&& !r.mines_placed
    &&& forall|i: int| 0 <= i < r.cells@.len() ==> spec_is_sup(#[trigger] r.cells@[i])
    &&& count_sup(r.cells@) == r.cells@.len()
    &&& difficulty == "observer"@ ==> r.circuit.gates@ == seq![
            crate::circuit::Gate::PhaseShift(crate::circuit::ROT_PI_6),
        ]
    &&& difficulty == "theorist"@ ==> r.circuit.gates@ == seq![
            crate::circuit::Gate::Hadamard,
            crate::circuit::Gate::PhaseShift(crate::circuit::ROT_PI_3),
            crate::circuit::Gate::Hadamard,
        ]
    &&& difficulty != "observer"@ && difficulty != "theorist"@ ==> r.circuit.gates@ == seq![
            crate::circuit::Gate::Hadamard,
            crate::circuit::Gate::PhaseShift(crate::circuit::ROT_PI_4),
        ]
    &&& r.rng.state == spec_state_after(seed, (width as int) * (height as int))
    &&& forall|i: int|
            0 <= i < r.cells@.len() ==> spec_prob(#[trigger] r.cells@[i]) == spec_apply_gates(
                r.circuit.gates@,
                spec_clamp_unit(
                    (r.mine_count as int) * (PROB_UNIT as int) / ((width as int) * (
                    height as int)) + spec_fraction(
                        spec_draw(spec_state_after(seed, i)),
                        NOISE_SETUP,
                    ) - (NOISE_SETUP as int) / 2,
                ),
            )
    &&& r.entanglement.pairs@.len() == spec_link_count(
            (width as int) * (height as int),
            spec_link_stride(difficulty),
        )
    &&& forall|j: int|
            0 <= j < r.entanglement.pairs@.len() ==> {
                let stride = spec_link_stride(difficulty);
                &&& (#[trigger] r.entanglement.pairs@[j]).left as int == j * stride
                &&& r.entanglement.pairs@[j].right as int == j * stride + stride / 2
                &&& j * stride + stride / 2 < (width as int) * (height as int)
                &&& r.entanglement.pairs@[j].strength == spec_link_strength(difficulty)
                &&& (r.entanglement.pairs@[j].link_type == LinkType::BellState <==> (
                spec_link_uses_hard(difficulty) && j % 2 == 0))
            }
}

impl QuantumGrid {
    /// Create a new grid. Mine placement is deferred to the first
    /// interaction so the first reveal is guaranteed safe. The requested
    /// mine count is clamped to leave room for the 3×3 safe zone.
    #[verifier::rlimit(60)]
    pub fn new(width: u32, height: u32, mine_count: u32, seed: u64, difficulty: &str) -> (r: Self)
        requires
            9 <= (width as int) * (height as int) <= PROB_UNIT,
        ensures
            r.wf(),
            new_post(r, width, height, mine_count, seed, difficulty@),
    {
        proof {
            assert(width >= 1 && height >= 1) by (nonlinear_arith)
                requires
                    9 <= (width as int) * (height as int),
            ;
            assert(width as int <= (width as int) * (height as int) && height as int <= (
            width as int) * (height as int)) by (nonlinear_arith)
                requires
                    width >= 1,
                    height >= 1,
            ;
        }
        let total: usize = (width as usize) * (height as usize);
        let mc: u32 = if (mine_count as usize) <= total - 9 {
            mine_count
        } else {
            (total - 9) as u32
        };
        let baseline: u64 = (mc as u64) * PROB_UNIT / (total as u64);
        proof {
            assert((mc as u64) * PROB_UNIT <= (total as u64) * PROB_UNIT) by (nonlinear_arith)
                requires
                    mc as u64 <= total as u64,
            ;
            assert(((mc as u64) * PROB_UNIT) as int / (total as u64) as int <= PROB_UNIT as int)
                by (nonlinear_arith)
                requires
                    ((mc as u64) * PROB_UNIT) as int <= ((total as u64) as int) * (
                    PROB_UNIT as int),
                    total >= 1,
            ;
        }
        let circuit = Circuit::for_difficulty(difficulty);
        let ghost gates0 = circuit.gates@;
        let mut rng = SplitMix64::new(seed);

        // Per-cell probability hints: baseline density, ±5% noise, scrambled
        // through the pipeline.
        let mut cells: Vec<QuantumCell> = Vec::new();
        let mut i: usize = 0;
        proof {
            assert(rng.state == spec_state_after(seed, 0)) by {
                lemma_wrapping_add_mod(seed, u64::wrapping_mul(crate::rng::GOLDEN_GAMMA, 0u64));
                vstd::arithmetic::div_mod::lemma_small_mod(
                    seed as nat,
                    0x1_0000_0000_0000_0000nat,
                );
            }
        }
        while i < total
            invariant
                0 <= i <= total,
                total == (width as int) * (height as int),
                9 <= total <= PROB_UNIT,
                width >= 1,
                height >= 1,
                baseline <= PROB_UNIT,
                cells@.len() == i,
                rng.state == spec_state_after(seed, i as int),
                circuit.gates@ == gates0,
                forall|j: int|
                    0 <= j < i ==> (#[trigger] cells@[j]).x as int == j % (width as int)
                        && cells@[j].y as int == j / (width as int) && spec_is_sup(cells@[j])
                        && spec_prob(cells@[j]) <= PROB_UNIT && spec_prob(cells@[j])
                        == spec_apply_gates(
                        gates0,
                        spec_clamp_unit(
                            baseline + spec_fraction(
                                spec_draw(spec_state_after(seed, j)),
                                NOISE_SETUP,
                            ) - (NOISE_SETUP as int) / 2,
                        ),
                    ),
            decreases total - i,
        {
            proof {
                lemma_coords_bound(i as int, width as int, height as int);
                lemma_state_after_step(seed, i as int);
            }
            let x = (i % (width as usize)) as u32;
            let y = (i / (width as usize)) as u32;
            let noise = rng.next_fraction(NOISE_SETUP);
            let shifted = baseline + noise;
            let raw: u64 = if shifted < NOISE_SETUP / 2 {
                0
            } else if shifted - NOISE_SETUP / 2 > PROB_UNIT {
                PROB_UNIT
            } else {
                shifted - NOISE_SETUP / 2
            };
            proof {
                assert(raw == spec_clamp_unit(baseline + noise - (NOISE_SETUP as int) / 2));
            }
            let probability = circuit.apply_probability(raw);
            cells.push(QuantumCell { x, y, state: CellState::Superposition { probability } });
            i = i + 1;
        }

        // Difficulty-scaled correlation links: step through the cell indices
        // with a difficulty-dependent stride, pairing each sampled index with
        // one offset by half the stride; the hardest tier promotes
        // alternating links to the hard kind, producing chains.
        let use_theorist = crate::str_eq(difficulty, "theorist");
        let (step, strength, use_bell): (usize, u64, bool) = if crate::str_eq(
            difficulty,
            "observer",
        ) {
            (11, 200_000, false)
        } else if use_theorist {
            (5, 500_000, true)
        } else {
            (7, 350_000, false)
        };
        let half = if step / 2 >= 1 {
            step / 2
        } else {
            1
        };
        let mut entanglement = Entanglement::default();
        let mut pair_index: usize = 0;
        let mut left: usize = 0;
        let ghost mut iters: int = 0;
        proof {
            assert(iters * (step as int) == 0) by (nonlinear_arith)
                requires
                    iters == 0,
            ;
        }
        while left < total
            invariant
                9 <= total <= PROB_UNIT,
                5 <= step <= 11,
                half == step / 2,
                step as int == spec_link_stride(difficulty@),
                strength == spec_link_strength(difficulty@),
                use_bell == spec_link_uses_hard(difficulty@),
                strength <= PROB_UNIT,
                iters >= 0,
                left as int == iters * (step as int),
                pair_index == entanglement.pairs@.len(),
                pair_index <= left,
                entanglement.pairs@.len() <= iters,
                entanglement.pairs@.len() < iters ==> (entanglement.pairs@.len() as int) * (
                step as int) + half >= total,
                forall|j: int|
                    0 <= j < entanglement.pairs@.len() ==> {
                        &&& (#[trigger] entanglement.pairs@[j]).left as int == j * (step as int)
                        &&& entanglement.pairs@[j].right as int == j * (step as int) + half
                        &&& j * (step as int) + half < total
                        &&& entanglement.pairs@[j].strength == strength
                        &&& (entanglement.pairs@[j].link_type == LinkType::BellState <==> (
                        use_bell && j % 2 == 0))
                    },
            decreases total + step - left,
        {
            let right = left + half;
            if right < total {
                proof {
                    let len = entanglement.pairs@.len() as int;
                    if len < iters {
                        assert(len * (step as int) <= iters * (step as int)) by (nonlinear_arith)
                            requires
                                len <= iters,
                                step >= 1,
                        ;
                        assert(false);
                    }
                }
                let link_type = if use_bell && pair_index % 2 == 0 {
                    LinkType::BellState
                } else {
                    LinkType::Probabilistic
                };
                entanglement.add_pair(left, right, strength, link_type);
                pair_index = pair_index + 1;
            }
            left = left + step;
            proof {
                iters = iters + 1;
            }
        }
        proof {
            let st = step as int;
            let len = entanglement.pairs@.len() as int;
            if len == iters {
                assert(len * st == iters * st);
            }
            assert(len * st + half >= total);
            if len == 0 {
                assert(half >= total);
                assert(false);
            }
            assert(entanglement.pairs@[len - 1].left as int == (len - 1) * st);
            assert((len - 1) * st + half < total);
            assert((total - st / 2 - 1) / st == len - 1) by (nonlinear_arith)
                requires
                    len >= 1,
                    (len - 1) * st + st / 2 < total,
                    len * st + st / 2 >= total,
                    half == st / 2,
                    len * st + half >= total,
                    (len - 1) * st + half < total,
                    5 <= st <= 11,
            ;
            assert(len == spec_link_count(total as int, st));
        }

        let mut mine_map: Vec<bool> = Vec::new();
        let mut m: usize = 0;
        while m < total
            invariant
                0 <= m <= total,
                mine_map@.len() == m,
                forall|j: int| 0 <= j < m ==> !(#[trigger] mine_map@[j]),
            decreases total - m,
        {
            mine_map.push(false);
            m = m + 1;
        }

        let r = QuantumGrid {
            width,
            height,
            mine_count: mc,
            game_over: false,
            won: false,
            seed,
            containment_charges: mc,
            cells,
            circuit,
            entanglement,
            rng,
            mine_map,
            mines_placed: false,
        };
        proof {
            assert(forall|i: int|
                0 <= i < r.cells@.len() ==> spec_is_sup(#[trigger] r.cells@[i]));
            lemma_count_all_sup(r.cells@);
            reveal(new_post);
        }
        r
    }

    /// Flip tool: replace an unresolved cell's displayed probability with its
    /// complement, in place; ground truth is unaffected. Fails if the cell is
    /// already resolved or the coordinates are invalid.
    pub fn apply_hadamard(&mut self, x: u32, y: u32) -> (r: Result<u64, ToolError>)
        requires
            old(self).wf(),
        ensures
            final(self).wf(),
            !(x < old(self).width && y < old(self).height) ==> r == Err::<u64, ToolError>(
                ToolError::OutOfBounds,
            ) && *final(self) == *old(self),
            x < old(self).width && y < old(self).height && !spec_is_sup(
                old(self).cells@[old(self).spec_index(x as int, y as int)],
            ) ==> r == Err::<u64, ToolError>(ToolError::AlreadyResolved) && *final(self) == *old(
                self,
            ),
            x < old(self).width && y < old(self).height && spec_is_sup(
                old(self).cells@[old(self).spec_index(x as int, y as int)],
            ) ==> {
                let idx = old(self).spec_index(x as int, y as int);
                let p = spec_prob(old(self).cells@[idx]);
                &&& r == Ok::<u64, ToolError>((PROB_UNIT - p) as u64)
                &&& final(self).cells@ == old(self).cells@.update(
                    idx,
                    spec_flip_cell(old(self).cells@[idx]),
                )
                &&& count_sup(final(self).cells@) == count_sup(old(self).cells@)
                &&& only_cells_differ(*old(self), *final(self))
            },
    {
        let index = match self.index_of(x, y) {
            Some(i) => i,
            None => {
                return Err(ToolError::OutOfBounds);
            },
        };
        match self.cells[index].state {
            CellState::Superposition { probability } => {
                let new_p = PROB_UNIT - probability;
                let cell = QuantumCell {
                    x: self.cells[index].x,
                    y: self.cells[index].y,
                    state: CellState::Superposition { probability: new_p },
                };
                proof {
                    lemma_count_update(
                        self.cells@,
                        |c: QuantumCell| spec_is_sup(c),
                        index as int,
                        cell,
                    );
                }
                self.cells[index] = cell;
                Ok(new_p)
            },
            _ => Err(ToolError::AlreadyResolved),
        }
    }

    /// Weak measurement: return the hint as currently displayed, then perturb
    /// the stored hint by a small drift — observing disturbs the system.
    /// Fails exactly as the flip tool does.
    pub fn measure_weak(&mut self, x: u32, y: u32) -> (r: Result<u64, ToolError>)
        requires
            old(self).wf(),
        ensures
            final(self).wf(),
            !(x < old(self).width && y < old(self).height) ==> r == Err::<u64, ToolError>(
                ToolError::OutOfBounds,
            ) && *final(self) == *old(self),
            x < old(self).width && y < old(self).height && !spec_is_sup(
                old(self).cells@[old(self).spec_index(x as int, y as int)],
            ) ==> r == Err::<u64, ToolError>(ToolError::AlreadyResolved) && *final(self) == *old(
                self,
            ),
            x < old(self).width && y < old(self).height && spec_is_sup(
                old(self).cells@[old(self).spec_index(x as int, y as int)],
            ) ==> {
                let idx = old(self).spec_index(x as int, y as int);
                let p = spec_prob(old(self).cells@[idx]);
                let d = spec_fraction(spec_draw(old(self).rng.state), NOISE_MEASURE);
                &&& r == Ok::<u64, ToolError>(p)
                &&& final(self).rng.state == spec_next_state(old(self).rng.state)
                &&& final(self).cells@ == old(self).cells@.update(
                    idx,
                    QuantumCell {
                        x: old(self).cells@[idx].x,
                        y: old(self).cells@[idx].y,
                        state: CellState::Superposition {
                            probability: spec_clamp_hint(
                                p + d - (NOISE_MEASURE as int) / 2,
                            ),
                        },
                    },
                )
                &&& count_sup(final(self).cells@) == count_sup(old(self).cells@)
                &&& only_cells_and_rng_differ(*old(self), *final(self))
            },
    {
        let index = match self.index_of(x, y) {
            Some(i) => i,
            None => {
                return Err(ToolError::OutOfBounds);
            },
        };
        match self.cells[index].state {
            CellState::Superposition { probability } => {
                let observed = probability;
                let drift = self.rng.next_fraction(NOISE_MEASURE);
                let shifted = probability + drift;
                let half = NOISE_MEASURE / 2;
                let perturbed: u64 = if shifted < half + HINT_MIN {
                    HINT_MIN
                } else if shifted - half > HINT_MAX {
                    HINT_MAX
                } else {
                    shifted - half
                };
                let cell = QuantumCell {
                    x: self.cells[index].x,
                    y: self.cells[index].y,
                    state: CellState::Superposition { probability: perturbed },
                };
                proof {
                    lemma_count_update(
                        self.cells@,
                        |c: QuantumCell| spec_is_sup(c),
                        index as int,
                        cell,
                    );
                }
                self.cells[index] = cell;
                Ok(observed)
            },
            _ => Err(ToolError::AlreadyResolved),
        }
    }
}

impl QuantumGrid {
    /// 1 if (x, y) is a valid cell whose index is below `bound`, else 0.
    pub open spec fn spec_zone_term(self, x: int, y: int, bound: int) -> int {
        if 0 <= x < self.width as int && 0 <= y < self.height as int && self.spec_index(x, y)
            < bound {
            1
        } else {
            0
        }
    }

    /// How many valid cells of the 3×3 zone around (sx, sy) have an index
    /// below `bound`.
    pub open spec fn spec_zone_seen(self, sx: int, sy: int, bound: int) -> int {
        self.spec_zone_term(sx - 1, sy - 1, bound) + self.spec_zone_term(sx, sy - 1, bound)
            + self.spec_zone_term(sx + 1, sy - 1, bound) + self.spec_zone_term(sx - 1, sy, bound)
            + self.spec_zone_term(sx, sy, bound) + self.spec_zone_term(sx + 1, sy, bound)
            + self.spec_zone_term(sx - 1, sy + 1, bound) + self.spec_zone_term(sx, sy + 1, bound)
            + self.spec_zone_term(sx + 1, sy + 1, bound)
    }

    /// Raising the bound by one adds exactly the indicator of cell `i` being
    /// in the zone.
    pub proof fn lemma_zone_seen_step(self, sx: int, sy: int, i: int)
        requires
            self.wf(),
            0 <= i < self.cells@.len(),
            0 <= sx < self.width as int,
            0 <= sy < self.height as int,
        ensures
            self.spec_zone_seen(sx, sy, i + 1) == self.spec_zone_seen(sx, sy, i) + (
            if self.spec_in_zone(i, sx, sy) {
                1int
            } else {
                0int
            }),
    {
        let w = self.width as int;
        let h = self.height as int;
        lemma_coords_bound(i, w, h);
        if 0 <= sx - 1 < w && 0 <= sy - 1 < h {
            lemma_index_bound(sx - 1, sy - 1, w, h);
        }
        if 0 <= sx < w && 0 <= sy - 1 < h {
            lemma_index_bound(sx, sy - 1, w, h);
        }
        if 0 <= sx + 1 < w && 0 <= sy - 1 < h {
            lemma_index_bound(sx + 1, sy - 1, w, h);
        }
        if 0 <= sx - 1 < w && 0 <= sy < h {
            lemma_index_bound(sx - 1, sy, w, h);
        }
        lemma_index_bound(sx, sy, w, h);
        if 0 <= sx + 1 < w && 0 <= sy < h {
            lemma_index_bound(sx + 1, sy, w, h);
        }
        if 0 <= sx - 1 < w && 0 <= sy + 1 < h {
            lemma_index_bound(sx - 1, sy + 1, w, h);
        }
        if 0 <= sx < w && 0 <= sy + 1 < h {
            lemma_index_bound(sx, sy + 1, w, h);
        }
        if 0 <= sx + 1 < w && 0 <= sy + 1 < h {
            lemma_index_bound(sx + 1, sy + 1, w, h);
        }
    }
}

/// The eligible mine positions for a placement anchored at (sx, sy): every
/// cell index below `n` outside the anchor's 3×3 safe zone, ascending.
pub open spec fn spec_candidates_upto(g: QuantumGrid, sx: int, sy: int, n: int) -> Seq<usize>
    decreases n,
{
    if n <= 0 {
        Seq::empty()
    } else {
        let s = spec_candidates_upto(g, sx, sy, n - 1);
        if !g.spec_in_zone(n - 1, sx, sy) {
            s.push((n - 1) as usize)
        } else {
            s
        }
    }
}

/// The partial Fisher–Yates shuffle, slot by slot: each slot `k` below
/// `to_place` is swapped with a slot drawn uniformly from `[k, len)` by the
/// generator's bounded draw. Returns the shuffled sequence and the
/// generator's state afterwards.
pub open spec fn spec_shuffle(c: Seq<usize>, s: u64, k: int, to_place: int) -> (Seq<usize>, u64)
    decreases to_place - k,
{
    if k >= to_place {
        (c, s)
    } else {
        let bound = c.len() - k;
        if bound <= 1 {
            spec_shuffle(c, s, k + 1, to_place)
        } else {
            let sr = spec_sample(s, bound as u64, SAMPLE_TRIES as nat);
            let j = k + sr.1;
            spec_shuffle(c.update(k, c[j as int]).update(j as int, c[k]), sr.0, k + 1, to_place)
        }
    }
}

/// The layout after marking the first `k` entries of the shuffled candidate
/// list as mines.
pub open spec fn spec_mark(m: Seq<bool>, c: Seq<usize>, k: int) -> Seq<bool>
    decreases k,
{
    if k <= 0 {
        m
    } else {
        spec_mark(m, c, k - 1).update(c[k - 1] as int, true)
    }
}

/// Swapping two entries of a pairwise-distinct sequence keeps it pairwise
/// distinct, and keeps every pointwise property of its elements.
pub proof fn lemma_swap_distinct(s: Seq<usize>, i: int, j: int)
    requires
        0 <= i < s.len(),
        0 <= j < s.len(),
        forall|a: int, b: int| 0 <= a < b < s.len() ==> s[a] != s[b],
    ensures
        forall|a: int, b: int|
            #![trigger s.update(i, s[j]).update(j, s[i])[a], s.update(i, s[j]).update(j, s[i])[b]]
            0 <= a < b < s.len() ==> s.update(i, s[j]).update(j, s[i])[a] != s.update(
                i,
                s[j],
            ).update(j, s[i])[b],
{
    let s2 = s.update(i, s[j]).update(j, s[i]);
    assert forall|a: int, b: int| 0 <= a < b < s.len() implies s2[a] != s2[b] by {
        assert(s2[a] == if a == j {
            s[i]
        } else if a == i {
            s[j]
        } else {
            s[a]
        });
        assert(s2[b] == if b == j {
            s[i]
        } else if b == i {
            s[j]
        } else {
            s[b]
        });
    }
}

impl QuantumGrid {
    /// Whether cell index `i` lies in the 3×3 zone around (sx, sy).
    fn in_zone(&self, i: usize, sx: u32, sy: u32) -> (r: bool)
        requires
            self.wf(),
            i < self.cells@.len(),
        ensures
            r == self.spec_in_zone(i as int, sx as int, sy as int),
    {
        proof {
            lemma_coords_bound(i as int, self.width as int, self.height as int);
        }
        let ix = (i % (self.width as usize)) as i64;
        let iy = (i / (self.width as usize)) as i64;
        let dx = ix - (sx as i64);
        let dy = iy - (sy as i64);
        -1 <= dx && dx <= 1 && -1 <= dy && dy <= 1
    }

    /// Place the mines: exclude the 3×3 safe zone around the anchor, pick the
    /// first `mine_count` of a partial Fisher–Yates shuffle of the remaining
    /// indices, then recompute every still-unresolved cell's displayed hint
    /// from the now-known layout.
    #[verifier::rlimit(60)]
    fn place_mines(&mut self, safe_index: usize)
        requires
            old(self).wf(),
            !old(self).mines_placed,
            safe_index < old(self).cells@.len(),
        ensures
            final(self).wf(),
            final(self).mines_placed,
            same_config(*old(self), *final(self)),
            final(self).game_over == old(self).game_over,
            final(self).won == old(self).won,
            final(self).containment_charges == old(self).containment_charges,
            count_mines(final(self).mine_map@) == old(self).mine_count as int,
            forall|i: int|
                old(self).spec_in_zone(
                    i,
                    safe_index as int % (old(self).width as int),
                    safe_index as int / (old(self).width as int),
                ) ==> !final(self).mine_map@[i],
            forall|i: int|
                0 <= i < old(self).cells@.len() ==> (#[trigger] final(self).cells@[i]).x == old(
                    self,
                ).cells@[i].x && final(self).cells@[i].y == old(self).cells@[i].y && (spec_is_sup(
                    final(self).cells@[i],
                ) <==> spec_is_sup(old(self).cells@[i])) && (!spec_is_sup(old(self).cells@[i])
                    ==> final(self).cells@[i] == old(self).cells@[i]),
            ({
                let w = old(self).width as int;
                let cands = spec_candidates_upto(
                    *old(self),
                    safe_index as int % w,
                    safe_index as int / w,
                    old(self).cells@.len() as int,
                );
                let sh = spec_shuffle(
                    cands,
                    old(self).rng.state,
                    0,
                    old(self).mine_count as int,
                );
                &&& final(self).mine_map@ == spec_mark(
                    old(self).mine_map@,
                    sh.0,
                    old(self).mine_count as int,
                )
                &&& final(self).rng.state == spec_state_after(sh.1, count_sup(old(self).cells@))
                &&& forall|i: int|
                    0 <= i < old(self).cells@.len() && spec_is_sup(old(self).cells@[i]) ==> (
                    #[trigger] final(self).cells@[i]).state == (CellState::Superposition {
                        probability: spec_recalc_hint(
                            old(self).cells@,
                            final(self).mine_map@,
                            old(self).width as int,
                            old(self).height as int,
                            old(self).mine_count as int,
                            old(self).circuit.gates@,
                            sh.1,
                            i,
                        ),
                    })
            }),
    {
        let total = self.cells.len();
        let (sx, sy) = self.coords_of(safe_index);
        let ghost w = self.width as int;

        // Eligible indices: everything outside the safe zone, ascending.
        let mut candidates: Vec<usize> = Vec::new();
        let mut i: usize = 0;
        while i < total
            invariant
                0 <= i <= total,
                total == self.cells@.len(),
                self.wf(),
                sx < self.width,
                sy < self.height,
                *self == *old(self),
                candidates@ == spec_candidates_upto(*old(self), sx as int, sy as int, i as int),
                candidates@.len() + self.spec_zone_seen(sx as int, sy as int, i as int) == i,
                forall|k: int|
                    0 <= k < candidates@.len() ==> (#[trigger] candidates@[k]) < i
                        && !self.spec_in_zone(candidates@[k] as int, sx as int, sy as int),
                forall|a: int, b: int|
                    0 <= a < b < candidates@.len() ==> candidates@[a] < candidates@[b],
            decreases total - i,
        {
            proof {
                self.lemma_zone_seen_step(sx as int, sy as int, i as int);
            }
            if !self.in_zone(i, sx, sy) {
                candidates.push(i);
            }
            i = i + 1;
        }
        let n = candidates.len();
        proof {
            assert(self.spec_zone_seen(sx as int, sy as int, total as int) <= 9);
            assert(n >= total - 9);
        }

        // Partial Fisher–Yates: an unbiased draw swaps each of the first
        // `mine_count` slots with a random later slot.
        let to_place: usize = if (self.mine_count as usize) < n {
            self.mine_count as usize
        } else {
            n
        };
        proof {
            // The zone removes at most 9 candidates and the clamped mine
            // count leaves room for them, so every mine fits.
            assert(to_place == self.mine_count as usize);
        }
        let ghost cands0 = candidates@;
        let mut k: usize = 0;
        while k < to_place
            invariant
                0 <= k <= to_place,
                to_place <= n,
                to_place == old(self).mine_count as int,
                n == candidates@.len(),
                total == self.cells@.len(),
                self.wf(),
                sx < self.width,
                sy < self.height,
                spec_shuffle(cands0, old(self).rng.state, 0, to_place as int) == spec_shuffle(
                    candidates@,
                    self.rng.state,
                    k as int,
                    to_place as int,
                ),
                forall|kk: int|
                    0 <= kk < candidates@.len() ==> (#[trigger] candidates@[kk]) < total
                        && !self.spec_in_zone(candidates@[kk] as int, sx as int, sy as int),
                forall|a: int, b: int|
                    0 <= a < b < candidates@.len() ==> candidates@[a] != candidates@[b],
                same_config(*old(self), *self),
                *self == (QuantumGrid { rng: self.rng, ..*old(self) }),
            decreases to_place - k,
        {
            let ghost cs = candidates@;
            let ghost s_pre = self.rng.state;
            let j = k + self.rng.next_usize(n - k);
            proof {
                lemma_swap_distinct(cs, k as int, j as int);
            }
            let ck = candidates[k];
            let cj = candidates[j];
            candidates[k] = cj;
            candidates[j] = ck;
            proof {
                let ki = k as int;
                let tp = to_place as int;
                assert(ki < tp);
                assert(cs.len() - ki == n - k);
                if n - k <= 1 {
                    assert(j == k);
                    assert(self.rng.state == s_pre);
                    assert(candidates@ =~= cs);
                    assert(spec_shuffle(cs, s_pre, ki, tp) == spec_shuffle(cs, s_pre, ki + 1, tp));
                } else {
                    let sr = spec_sample(s_pre, (n - k) as u64, SAMPLE_TRIES as nat);
                    lemma_sample_in_range(s_pre, (n - k) as u64, SAMPLE_TRIES as nat);
                    assert(self.rng.state == sr.0);
                    assert(j as int == ki + sr.1);
                    assert(candidates@ == cs.update(ki, cs[j as int]).update(j as int, cs[ki]));
                    assert(spec_shuffle(cs, s_pre, ki, tp) == spec_shuffle(
                        cs.update(ki, cs[ki + sr.1]).update(ki + sr.1, cs[ki]),
                        sr.0,
                        ki + 1,
                        tp,
                    ));
                }
                assert(spec_shuffle(cs, s_pre, ki, tp) == spec_shuffle(
                    candidates@,
                    self.rng.state,
                    ki + 1,
                    tp,
                ));
            }
            k = k + 1;
        }

        // Mark the selected candidates in the layout.
        proof {
            lemma_count_zero(self.mine_map@, |b: bool| b);
            assert(spec_shuffle(candidates@, self.rng.state, to_place as int, to_place as int)
                == (candidates@, self.rng.state));
        }
        let ghost shuffled = candidates@;
        let ghost s_shuffled: u64 = self.rng.state;
        let mut placed: usize = 0;
        while placed < to_place
            invariant
                0 <= placed <= to_place,
                to_place <= n,
                shuffled == candidates@,
                s_shuffled == self.rng.state,
                self.mine_map@ == spec_mark(old(self).mine_map@, shuffled, placed as int),
                n == candidates@.len(),
                total == self.cells@.len(),
                self.mine_map@.len() == total,
                forall|kk: int|
                    0 <= kk < candidates@.len() ==> (#[trigger] candidates@[kk]) < total
                        && !self.spec_in_zone(candidates@[kk] as int, sx as int, sy as int),
                forall|a: int, b: int|
                    0 <= a < b < candidates@.len() ==> candidates@[a] != candidates@[b],
                count_mines(self.mine_map@) == placed,
                forall|i2: int|
                    0 <= i2 < total ==> ((#[trigger] self.mine_map@[i2]) <==> exists|kk: int|
                        0 <= kk < placed && candidates@[kk] == i2),
                sx < self.width,
                sy < self.height,
                *self == (QuantumGrid { mine_map: self.mine_map, rng: self.rng, ..*old(self) }),
            decreases to_place - placed,
        {
            let idx = candidates[placed];
            proof {
                if self.mine_map@[idx as int] {
                    let kk = choose|kk: int| 0 <= kk < placed && candidates@[kk] == idx;
                    assert(candidates@[kk] != candidates@[placed as int]);
                }
                assert(!self.mine_map@[idx as int]);
                lemma_count_update(self.mine_map@, |b: bool| b, idx as int, true);
                assert(spec_mark(old(self).mine_map@, shuffled, placed as int + 1) == spec_mark(
                    old(self).mine_map@,
                    shuffled,
                    placed as int,
                ).update(idx as int, true));
            }
            self.mine_map[idx] = true;
            placed = placed + 1;
        }

        self.mines_placed = true;
        proof {
            assert(count_mines(self.mine_map@) == self.mine_count as int);
            assert forall|i2: int|
                self.spec_in_zone(i2, sx as int, sy as int) implies !self.mine_map@[i2] by {
                if self.mine_map@[i2] {
                    let kk = choose|kk: int|
                        0 <= kk < to_place && candidates@[kk] == i2;
                    assert(!self.spec_in_zone(candidates@[kk] as int, sx as int, sy as int));
                }
            }
        }

        // Neighbor-aware hinting from the fresh layout.
        self.recalculate_probabilities();
    }

    /// Recompute every still-unresolved cell's displayed hint: the true local
    /// mine density around the cell, blended 60/40 with the global baseline,
    /// plus fresh noise, clamped into the hint band and scrambled through the
    /// pipeline. Ground truth is never exposed directly — only this
    /// transformed value.
    fn recalculate_probabilities(&mut self)
        requires
            old(self).wf(),
        ensures
            final(self).wf(),
            same_config(*old(self), *final(self)),
            final(self).mine_map@ == old(self).mine_map@,
            final(self).mines_placed == old(self).mines_placed,
            final(self).game_over == old(self).game_over,
            final(self).won == old(self).won,
            final(self).containment_charges == old(self).containment_charges,
            final(self).rng.state == spec_state_after(
                old(self).rng.state,
                count_sup(old(self).cells@),
            ),
            forall|i: int|
                0 <= i < old(self).cells@.len() ==> (#[trigger] final(self).cells@[i]).x == old(
                    self,
                ).cells@[i].x && final(self).cells@[i].y == old(self).cells@[i].y && (spec_is_sup(
                    final(self).cells@[i],
                ) <==> spec_is_sup(old(self).cells@[i])) && (!spec_is_sup(old(self).cells@[i])
                    ==> final(self).cells@[i] == old(self).cells@[i]),
            forall|i: int|
                0 <= i < old(self).cells@.len() && spec_is_sup(old(self).cells@[i]) ==> (
                #[trigger] final(self).cells@[i]).state == (CellState::Superposition {
                    probability: spec_recalc_hint(
                        old(self).cells@,
                        old(self).mine_map@,
                        old(self).width as int,
                        old(self).height as int,
                        old(self).mine_count as int,
                        old(self).circuit.gates@,
                        old(self).rng.state,
                        i,
                    ),
                }),
    {
        let total = self.cells.len();
        let ghost s0: u64 = self.rng.state;
        proof {
            assert(self.cells@.take(0) =~= Seq::<QuantumCell>::empty());
        }
        let baseline: u64 = (self.mine_count as u64) * PROB_UNIT / (total as u64);
        proof {
            assert((self.mine_count as u64) * PROB_UNIT <= (total as u64) * PROB_UNIT)
                by (nonlinear_arith)
                requires
                    self.mine_count as u64 <= total as u64,
            ;
            assert(((self.mine_count as u64) * PROB_UNIT) as int / (total as u64) as int
                <= PROB_UNIT as int) by (nonlinear_arith)
                requires
                    ((self.mine_count as u64) * PROB_UNIT) as int <= ((total as u64) as int) * (
                    PROB_UNIT as int),
                    total >= 1,
            ;
        }
        let mut i: usize = 0;
        while i < total
            invariant
                0 <= i <= total,
                total == self.cells@.len(),
                self.wf(),
                baseline <= PROB_UNIT,
                baseline as int == ((old(self).mine_count as int) * (PROB_UNIT as int)) / (
                total as int),
                same_config(*old(self), *self),
                self.mine_map@ == old(self).mine_map@,
                self.mines_placed == old(self).mines_placed,
                self.game_over == old(self).game_over,
                self.won == old(self).won,
                self.containment_charges == old(self).containment_charges,
                self.circuit.gates@ == old(self).circuit.gates@,
                s0 == old(self).rng.state,
                self.rng.state == spec_state_after(s0, count_sup(old(self).cells@.take(i as int))),
                forall|j: int|
                    0 <= j < total ==> (#[trigger] self.cells@[j]).x == old(self).cells@[j].x
                        && self.cells@[j].y == old(self).cells@[j].y && (spec_is_sup(
                        self.cells@[j],
                    ) <==> spec_is_sup(old(self).cells@[j])) && (!spec_is_sup(old(self).cells@[j])
                        ==> self.cells@[j] == old(self).cells@[j]),
                forall|j: int|
                    0 <= j < i && spec_is_sup(old(self).cells@[j]) ==> (
                    #[trigger] self.cells@[j]).state == (CellState::Superposition {
                        probability: spec_recalc_hint(
                            old(self).cells@,
                            old(self).mine_map@,
                            old(self).width as int,
                            old(self).height as int,
                            old(self).mine_count as int,
                            old(self).circuit.gates@,
                            s0,
                            j,
                        ),
                    }),
                forall|j: int|
                    i <= j < total ==> self.cells@[j] == old(self).cells@[j],
            decreases total - i,
        {
            proof {
                assert(old(self).cells@.take(i as int + 1).drop_last() =~= old(self).cells@.take(
                    i as int,
                ));
                assert(old(self).cells@.take(i as int + 1).last() == old(self).cells@[i as int]);
                lemma_count_bounds(
                    old(self).cells@.take(i as int),
                    |cl: QuantumCell| spec_is_sup(cl),
                );
                lemma_count_bounds(old(self).cells@, |cl: QuantumCell| spec_is_sup(cl));
            }
            let is_s = match self.cells[i].state {
                CellState::Superposition { .. } => true,
                _ => false,
            };
            if is_s {
                proof {
                    lemma_state_after_step(
                        s0,
                        count_sup(old(self).cells@.take(i as int)),
                    );
                }
                let (x, y) = self.coords_of(i);
                let neighbor_mines = self.adjacent_mines(x, y);
                let max_neighbors = self.neighbor_count(x, y);
                let local_density: u64 = if max_neighbors > 0 {
                    let nm = neighbor_mines as u64;
                    let nc = max_neighbors as u64;
                    proof {
                        assert(nm <= 8 && nc <= 8);
                    }
                    let d = nm * PROB_UNIT / nc;
                    proof {
                        assert(self.spec_adjacent_mines(x as int, y as int)
                            <= self.spec_neighbor_count(x as int, y as int));
                        assert((nm * PROB_UNIT) as int / (nc as int) <= PROB_UNIT as int)
                            by (nonlinear_arith)
                            requires
                                nm <= nc,
                                1 <= nc,
                        ;
                    }
                    d
                } else {
                    baseline
                };
                // 60% local signal, 40% global baseline, then fresh noise
                // and the pipeline scramble.
                let blended = (local_density * 6 + baseline * 4) / 10;
                let noise = self.rng.next_fraction(NOISE_RECALC);
                let shifted = blended + noise;
                let half = NOISE_RECALC / 2;
                let raw: u64 = if shifted < half + HINT_MIN {
                    HINT_MIN
                } else if shifted - half > HINT_MAX {
                    HINT_MAX
                } else {
                    shifted - half
                };
                let scrambled = self.circuit.apply_probability(raw);
                let cell = QuantumCell {
                    x: self.cells[i].x,
                    y: self.cells[i].y,
                    state: CellState::Superposition { probability: scrambled },
                };
                self.cells[i] = cell;
            }
            i = i + 1;
        }
        proof {
            assert(old(self).cells@.take(total as int) =~= old(self).cells@);
        }
    }
}

/// The state a collapse gives a cell it resolves: strictly from ground truth,
/// contained if it is actually a mine, revealed with its true adjacent count
/// if not — whatever the anti-correlation prediction said.
pub open spec fn spec_collapse_shape(
    mines: Seq<bool>,
    w: int,
    h: int,
    c: QuantumCell,
    i: int,
) -> bool {
    &&& mines[i] ==> c.state == CellState::Contained
    &&& !mines[i] ==> c.state == (CellState::Revealed {
        adjacent_mines: spec_adjacent_in(mines, w, h, i % w, i / w) as u8,
    })
}

/// Whether some flood-stack entry's coordinates name flat cell index `c` on a
/// grid of the given width.
pub open spec fn on_stack_xy(stack: Seq<(u32, u32)>, w: int, c: int) -> bool {
    exists|j: int|
        0 <= j < stack.len() && ((#[trigger] stack[j]).1 as int) * w + stack[j].0 as int == c
}

/// Whether some work-stack entry names cell `p`.
pub open spec fn on_stack(stack: Seq<(usize, bool)>, p: usize) -> bool {
    exists|j: int| 0 <= j < stack.len() && (#[trigger] stack[j]).0 == p
}

/// What hard-link propagation guarantees about an action that resolved cell
/// `idx`: there is an intermediate cell array (taken after propagation, before
/// any flood fill) in which `idx` and every hard partner of `idx` are
/// resolved, in which every hard partner of any cell newly resolved by the
/// propagation is resolved as well (so chains and cycles collapse all the way
/// through), and whose resolved cells stay resolved in the final state.
pub open spec fn chain_post(g0: QuantumGrid, g1: QuantumGrid, idx: usize) -> bool {
    exists|mid: Seq<QuantumCell>|
        {
            &&& mid.len() == g0.cells@.len()
            &&& forall|i: int|
                0 <= i < mid.len() && spec_is_sup(#[trigger] mid[i]) ==> spec_is_sup(
                    g0.cells@[i],
                )
            &&& !spec_is_sup(mid[idx as int])
            &&& forall|p: usize|
                p < mid.len() && #[trigger] spec_hard_linked(g0.entanglement.pairs@, idx, p)
                    ==> !spec_is_sup(mid[p as int])
            &&& forall|c: usize, p: usize|
                c < mid.len() && p < mid.len() && #[trigger] spec_hard_linked(
                    g0.entanglement.pairs@,
                    c,
                    p,
                ) && spec_is_sup(g0.cells@[c as int]) && !spec_is_sup(mid[c as int])
                    ==> !spec_is_sup(mid[p as int])
            &&& forall|i: int|
                0 <= i < mid.len() && !spec_is_sup(#[trigger] mid[i]) ==> !spec_is_sup(
                    g1.cells@[i],
                )
        }
}

/// A vector of `n` entries, all false.
fn make_bool_vec(n: usize) -> (r: Vec<bool>)
    ensures
        r@.len() == n,
        forall|i: int| 0 <= i < n ==> !(#[trigger] r@[i]),
{
    let mut r: Vec<bool> = Vec::new();
    let mut i: usize = 0;
    while i < n
        invariant
            0 <= i <= n,
            r@.len() == i,
            forall|j: int| 0 <= j < i ==> !(#[trigger] r@[j]),
        decreases n - i,
    {
        r.push(false);
        i = i + 1;
    }
    r
}

impl QuantumGrid {
    /// Iterative hard-link collapse with an explicit work stack and a visited
    /// set, safe against cyclic link topologies. Each popped cell still in
    /// superposition is resolved strictly from ground truth — contained if it
    /// is actually a mine, revealed with its true adjacent count if not — and
    /// its hard partners are pushed with the trigger signal set to whether
    /// this cell was actually a mine.
    #[verifier::rlimit(60)]
    fn propagate_collapse(
        &mut self,
        index: usize,
        triggering_cell_was_mine: bool,
        visited: &mut Vec<bool>,
    )
        requires
            old(self).wf(),
            old(self).mines_placed,
            index < old(self).cells@.len(),
            old(visited)@.len() == old(self).cells@.len(),
            forall|m: int|
                0 <= m < old(visited)@.len() && old(visited)@[m] ==> !spec_is_sup(
                    old(self).cells@[m],
                ),
        ensures
            final(self).wf(),
            final(self).mines_placed,
            *final(self) == (QuantumGrid { cells: final(self).cells, ..*old(self) }),
            cells_evolve(old(self).cells@, final(self).cells@),
            forall|i: int|
                0 <= i < old(self).cells@.len() && final(self).cells@[i] != old(self).cells@[i]
                    ==> !spec_is_sup(#[trigger] final(self).cells@[i]) && spec_collapse_shape(
                    old(self).mine_map@,
                    old(self).width as int,
                    old(self).height as int,
                    final(self).cells@[i],
                    i,
                ),
            forall|i: usize|
                i < old(self).cells@.len() && final(self).cells@[i as int] != old(self).cells@[i as int]
                    ==> i == index || exists|m: usize|
                    m < old(self).cells@.len() && #[trigger] spec_hard_linked(
                        old(self).entanglement.pairs@,
                        m,
                        i,
                    ) && spec_is_sup(old(self).cells@[m as int]) && !spec_is_sup(
                        final(self).cells@[m as int],
                    ),
            final(visited)@.len() == old(visited)@.len(),
            forall|m: int| 0 <= m < old(visited)@.len() && old(visited)@[m] ==> final(visited)@[m],
            forall|m: int|
                0 <= m < old(visited)@.len() && #[trigger] final(visited)@[m] ==> !spec_is_sup(
                    final(self).cells@[m],
                ),
            forall|m: usize, p: usize|
                m < old(self).cells@.len() && p < old(self).cells@.len() && final(visited)@[m as int]
                    && !old(visited)@[m as int] && spec_is_sup(old(self).cells@[m as int])
                    && #[trigger] spec_hard_linked(old(self).entanglement.pairs@, m, p)
                    ==> final(visited)@[p as int],
            final(visited)@[index as int],
            forall|m: int|
                0 <= m < old(self).cells@.len() && spec_is_sup(old(self).cells@[m]) && !spec_is_sup(
                    #[trigger] final(self).cells@[m],
                ) ==> final(visited)@[m],
    {
        let total = self.cells.len();
        let ghost pairs0 = self.entanglement.pairs@;
        let mut stack: Vec<(usize, bool)> = Vec::new();
        stack.push((index, triggering_cell_was_mine));
        proof {
            lemma_count_bounds(visited@, |b: bool| !b);
            assert(stack@[0].0 == index);
        }
        while stack.len() > 0
            invariant
                self.wf(),
                self.mines_placed,
                total == self.cells@.len(),
                index < total,
                *self == (QuantumGrid { cells: self.cells, ..*old(self) }),
                self.entanglement.pairs@ == pairs0,
                cells_evolve(old(self).cells@, self.cells@),
                forall|i: int|
                    0 <= i < total && self.cells@[i] != old(self).cells@[i] ==> !spec_is_sup(
                        #[trigger] self.cells@[i],
                    ) && spec_collapse_shape(
                        old(self).mine_map@,
                        old(self).width as int,
                        old(self).height as int,
                        self.cells@[i],
                        i,
                    ),
                forall|i: usize|
                    i < total && self.cells@[i as int] != old(self).cells@[i as int] ==> i == index
                        || exists|m: usize|
                        m < total && #[trigger] spec_hard_linked(pairs0, m, i) && spec_is_sup(
                            old(self).cells@[m as int],
                        ) && !spec_is_sup(self.cells@[m as int]),
                // every queued cell is the seed or was queued by a cell this
                // call resolved
                forall|j: int|
                    0 <= j < stack@.len() ==> (#[trigger] stack@[j]).0 == index || exists|m: usize|
                        m < total && spec_hard_linked(pairs0, m, stack@[j].0) && spec_is_sup(
                            old(self).cells@[m as int],
                        ) && !spec_is_sup(self.cells@[m as int]),
                visited@.len() == total,
                old(visited)@.len() == total,
                forall|m: int| 0 <= m < total && old(visited)@[m] ==> visited@[m],
                // a visited cell is never left unresolved
                forall|m: int|
                    0 <= m < total && #[trigger] visited@[m] ==> !spec_is_sup(self.cells@[m]),
                // a cell this call marked and resolved has every hard partner
                // marked or still queued
                forall|m: usize, p: usize|
                    m < total && p < total && visited@[m as int] && !old(visited)@[m as int]
                        && spec_is_sup(old(self).cells@[m as int]) && #[trigger] spec_hard_linked(
                        pairs0,
                        m,
                        p,
                    ) ==> visited@[p as int] || on_stack(stack@, p),
                visited@[index as int] || on_stack(stack@, index),
                // every cell this call resolved was marked
                forall|m: int|
                    0 <= m < total && spec_is_sup(old(self).cells@[m]) && !spec_is_sup(
                        #[trigger] self.cells@[m],
                    ) ==> visited@[m],
                forall|j: int| 0 <= j < stack@.len() ==> (#[trigger] stack@[j]).0 < total,
            decreases count_matching(visited@, |b: bool| !b) * (pairs0.len() + 2) + stack@.len(),
        {
            let ghost unvisited0 = count_matching(visited@, |b: bool| !b);
            let ghost stack_len0 = stack@.len() as int;
            let ghost stack_pre = stack@;
            proof {
                lemma_count_bounds(visited@, |b: bool| !b);
            }
            let top = match stack.pop() {
                Some(t) => t,
                None => {
                    proof {
                        assert(false);
                    }
                    (0, false)
                },
            };
            // The popped trigger signal predicts the anti-correlated state,
            // but ground truth is authoritative for what the cell actually
            // is, so resolution below reads only the mine layout.
            let current = top.0;
            proof {
                // Every previously queued cell is the popped one or remains
                // queued.
                assert forall|q: usize|
                    on_stack(stack_pre, q) implies q == current || on_stack(stack@, q) by {
                    let j = choose|j: int|
                        0 <= j < stack_pre.len() && (#[trigger] stack_pre[j]).0 == q;
                    if j < stack_pre.len() - 1 {
                        assert(stack@[j].0 == q);
                    }
                }
            }
            if visited[current] {
                proof {
                    lemma_count_bounds(visited@, |b: bool| !b);
                    assert(count_matching(visited@, |b: bool| !b) * (pairs0.len() + 2)
                        + stack@.len() < unvisited0 * (pairs0.len() + 2) + stack_len0);
                    if !visited@[index as int] {
                        assert(on_stack(stack_pre, index));
                        assert(index == current || on_stack(stack@, index));
                    }
                }
                continue ;
            }
            proof {
                lemma_count_update(visited@, |b: bool| !b, current as int, true);
            }
            visited[current] = true;
            let ghost unvisited1 = count_matching(visited@, |b: bool| !b);
            proof {
                assert(unvisited1 == unvisited0 - 1);
                lemma_count_bounds(visited@, |b: bool| !b);
            }
            let cell_is_sup = match self.cells[current].state {
                CellState::Superposition { .. } => true,
                _ => false,
            };
            if !cell_is_sup {
                proof {
                    assert(unvisited1 * (pairs0.len() + 2) + stack@.len() < unvisited0 * (
                    pairs0.len() + 2) + stack_len0) by (nonlinear_arith)
                        requires
                            unvisited1 == unvisited0 - 1,
                            stack@.len() == stack_len0 - 1,
                            pairs0.len() >= 0,
                            unvisited1 >= 0,
                    ;
                }
                continue ;
            }
            // Resolve strictly from ground truth.
            let (cx, cy) = self.coords_of(current);
            if self.mine_map[current] {
                let cell = QuantumCell {
                    x: self.cells[current].x,
                    y: self.cells[current].y,
                    state: CellState::Contained,
                };
                self.cells[current] = cell;
            } else {
                let adj = self.adjacent_mines(cx, cy);
                let cell = QuantumCell {
                    x: self.cells[current].x,
                    y: self.cells[current].y,
                    state: CellState::Revealed { adjacent_mines: adj },
                };
                self.cells[current] = cell;
            }
            // Continue the cascade through the hard partners of this cell,
            // carrying whether it actually was a mine.
            let next_carried = self.mine_map[current];
            let npairs = self.entanglement.pairs.len();
            let ghost stack_mark = stack@;
            let ghost cells_mark = self.cells@;
            let ghost visited_mark = visited@;
            let mut kk: usize = 0;
            while kk < npairs
                invariant
                    0 <= kk <= npairs,
                    npairs == pairs0.len(),
                    self.entanglement.pairs@ == pairs0,
                    self.cells@ == cells_mark,
                    visited@ == visited_mark,
                    visited@.len() == total,
                    total == self.cells@.len(),
                    self.wf(),
                    current < total,
                    stack@.len() <= stack_mark.len() + kk,
                    forall|j: int| 0 <= j < stack_mark.len() ==> stack@[j] == stack_mark[j],
                    stack@.len() >= stack_mark.len(),
                    forall|j: int| 0 <= j < stack@.len() ==> (#[trigger] stack@[j]).0 < total,
                    forall|j: int|
                        stack_mark.len() <= j < stack@.len() ==> spec_hard_linked(
                            pairs0,
                            current,
                            (#[trigger] stack@[j]).0,
                        ),
                    spec_is_sup(old(self).cells@[current as int]),
                    !spec_is_sup(self.cells@[current as int]),
                    forall|j: int|
                        0 <= j < stack_mark.len() ==> (#[trigger] stack_mark[j]).0 == index
                            || exists|m: usize|
                            m < total && spec_hard_linked(pairs0, m, stack_mark[j].0) && spec_is_sup(
                                old(self).cells@[m as int],
                            ) && !spec_is_sup(self.cells@[m as int]),
                    forall|pk: int|
                        0 <= pk < kk && pairs0[pk].link_type == LinkType::BellState
                            && #[trigger] spec_touches(pairs0[pk], current) ==> visited@[spec_other(
                            pairs0[pk],
                            current,
                        ) as int] || on_stack(stack@, spec_other(pairs0[pk], current)),
                decreases npairs - kk,
            {
                let pr = self.entanglement.pairs[kk];
                let is_bell = match pr.link_type {
                    LinkType::BellState => true,
                    LinkType::Probabilistic => false,
                };
                if is_bell && (pr.left == current || pr.right == current) {
                    let partner = if pr.left == current {
                        pr.right
                    } else {
                        pr.left
                    };
                    if !visited[partner] {
                        let ghost stack_before = stack@;
                        stack.push((partner, next_carried));
                        proof {
                            assert(stack@[stack@.len() - 1].0 == partner);
                            assert(spec_hard_linked(pairs0, current, partner)) by {
                                assert(pairs0[kk as int].link_type == LinkType::BellState
                                    && spec_touches(pairs0[kk as int], current) && spec_other(
                                    pairs0[kk as int],
                                    current,
                                ) == partner);
                            }
                            assert(forall|j: int|
                                0 <= j < stack_before.len() ==> stack@[j] == stack_before[j]);
                            assert forall|q: usize|
                                on_stack(stack_before, q) implies on_stack(stack@, q) by {
                                let j = choose|j: int|
                                    0 <= j < stack_before.len() && (#[trigger] stack_before[j]).0
                                        == q;
                                assert(stack@[j].0 == q);
                            }
                        }
                    }
                }
                kk = kk + 1;
            }
            proof {
                // All hard partners of `current` are now marked or queued.
                assert forall|p: usize|
                    p < total && #[trigger] spec_hard_linked(pairs0, current, p) implies visited@[p as int]
                    || on_stack(stack@, p) by {
                    let k2 = choose|k2: int|
                        0 <= k2 < pairs0.len() && pairs0[k2].link_type == LinkType::BellState
                            && spec_touches(pairs0[k2], current) && spec_other(pairs0[k2], current)
                            == p;
                    assert(spec_touches(pairs0[k2], current));
                }
                // Entries queued before this iteration are still queued.
                assert forall|q: usize| on_stack(stack_mark, q) implies on_stack(stack@, q) by {
                    let j = choose|j: int|
                        0 <= j < stack_mark.len() && (#[trigger] stack_mark[j]).0 == q;
                    assert(stack@[j].0 == q);
                }
                // Every queued entry still traces back to the seed or to a
                // cell this call resolved.
                assert forall|j: int|
                    0 <= j < stack@.len() implies ((#[trigger] stack@[j]).0 == index || exists|
                    m: usize,
                |
                    m < total && spec_hard_linked(pairs0, m, stack@[j].0) && spec_is_sup(
                        old(self).cells@[m as int],
                    ) && !spec_is_sup(self.cells@[m as int])) by {
                    if j < stack_mark.len() {
                        assert(stack@[j] == stack_mark[j]);
                    } else {
                        assert(spec_hard_linked(pairs0, current, stack@[j].0));
                        assert(spec_is_sup(old(self).cells@[current as int]) && !spec_is_sup(
                            self.cells@[current as int],
                        ));
                    }
                }
                // The measure shrank: one fewer unvisited cell pays for every
                // push this iteration made.
                assert(stack@.len() <= stack_len0 - 1 + pairs0.len());
                assert(unvisited1 * (pairs0.len() + 2) + stack@.len() < unvisited0 * (pairs0.len()
                    + 2) + stack_len0) by (nonlinear_arith)
                    requires
                        unvisited1 == unvisited0 - 1,
                        stack@.len() <= stack_len0 - 1 + pairs0.len(),
                        unvisited1 >= 0,
                        pairs0.len() >= 0,
                ;
            }
        }
    }
}

impl QuantumGrid {
    /// Propagate correlation after resolving cell `index`: every weak link
    /// touching it nudges the partner's displayed hint; every hard link
    /// force-collapses the partner, cascading through chains.
    #[verifier::rlimit(60)]
    fn propagate_entanglement(&mut self, index: usize, was_mine: bool)
        requires
            old(self).wf(),
            old(self).mines_placed,
            index < old(self).cells@.len(),
            !spec_is_sup(old(self).cells@[index as int]),
        ensures
            final(self).wf(),
            final(self).mines_placed,
            *final(self) == (QuantumGrid { cells: final(self).cells, ..*old(self) }),
            cells_evolve(old(self).cells@, final(self).cells@),
            forall|i: int|
                0 <= i < old(self).cells@.len() && final(self).cells@[i] != old(self).cells@[i]
                    ==> spec_is_sup(#[trigger] final(self).cells@[i]) || spec_collapse_shape(
                    old(self).mine_map@,
                    old(self).width as int,
                    old(self).height as int,
                    final(self).cells@[i],
                    i,
                ),
            forall|p: usize|
                p < old(self).cells@.len() && #[trigger] spec_hard_linked(
                    old(self).entanglement.pairs@,
                    index,
                    p,
                ) ==> !spec_is_sup(final(self).cells@[p as int]),
            forall|c: usize, p: usize|
                c < old(self).cells@.len() && p < old(self).cells@.len()
                    && #[trigger] spec_hard_linked(old(self).entanglement.pairs@, c, p)
                    && spec_is_sup(old(self).cells@[c as int]) && !spec_is_sup(
                    final(self).cells@[c as int],
                ) ==> !spec_is_sup(final(self).cells@[p as int]),
            forall|i: usize|
                i < old(self).cells@.len() && final(self).cells@[i as int] != old(self).cells@[i as int]
                    && !spec_is_sup(final(self).cells@[i as int]) ==> exists|m: usize|
                    m < old(self).cells@.len() && #[trigger] spec_hard_linked(
                        old(self).entanglement.pairs@,
                        m,
                        i,
                    ) && (m == index || (spec_is_sup(old(self).cells@[m as int]) && !spec_is_sup(
                        final(self).cells@[m as int],
                    ))),
            forall|p: usize|
                p < old(self).cells@.len() && spec_is_sup(#[trigger] final(self).cells@[p as int])
                    ==> final(self).cells@[p as int].state == (CellState::Superposition {
                    probability: crate::entanglement::spec_weak_fold(
                        old(self).entanglement.pairs@,
                        index,
                        p,
                        was_mine,
                        spec_prob(old(self).cells@[p as int]),
                        old(self).entanglement.pairs@.len() as int,
                    ),
                }),
    {
        let total = self.cells.len();
        let ghost pairs0 = self.entanglement.pairs@;
        let npairs = self.entanglement.pairs.len();
        let mut k: usize = 0;
        while k < npairs
            invariant
                0 <= k <= npairs,
                npairs == pairs0.len(),
                total == self.cells@.len(),
                index < total,
                self.wf(),
                self.mines_placed,
                *self == (QuantumGrid { cells: self.cells, ..*old(self) }),
                self.entanglement.pairs@ == pairs0,
                cells_evolve(old(self).cells@, self.cells@),
                !spec_is_sup(self.cells@[index as int]),
                forall|i: int|
                    0 <= i < total && self.cells@[i] != old(self).cells@[i] ==> spec_is_sup(
                        #[trigger] self.cells@[i],
                    ) || spec_collapse_shape(
                        old(self).mine_map@,
                        old(self).width as int,
                        old(self).height as int,
                        self.cells@[i],
                        i,
                    ),
                forall|i: usize|
                    i < total && self.cells@[i as int] != old(self).cells@[i as int]
                        && !spec_is_sup(self.cells@[i as int]) ==> exists|m: usize|
                        m < total && #[trigger] spec_hard_linked(pairs0, m, i) && (m == index || (
                        spec_is_sup(old(self).cells@[m as int]) && !spec_is_sup(
                            self.cells@[m as int],
                        ))),
                forall|p: usize|
                    p < total && spec_is_sup(#[trigger] self.cells@[p as int])
                        ==> self.cells@[p as int].state == (CellState::Superposition {
                        probability: crate::entanglement::spec_weak_fold(
                            pairs0,
                            index,
                            p,
                            was_mine,
                            spec_prob(old(self).cells@[p as int]),
                            k as int,
                        ),
                    }),
                forall|pk: int|
                    0 <= pk < k && pairs0[pk].link_type == LinkType::BellState
                        && #[trigger] spec_touches(pairs0[pk], index) ==> !spec_is_sup(
                        self.cells@[spec_other(pairs0[pk], index) as int],
                    ),
                forall|c: usize, p: usize|
                    c < total && p < total && #[trigger] spec_hard_linked(pairs0, c, p)
                        && spec_is_sup(old(self).cells@[c as int]) && !spec_is_sup(
                        self.cells@[c as int],
                    ) ==> !spec_is_sup(self.cells@[p as int]),
            decreases npairs - k,
        {
            let ghost cells_at_k = self.cells@;
            let pr = self.entanglement.pairs[k];
            if pr.left == index || pr.right == index {
                let partner = if pr.left == index {
                    pr.right
                } else {
                    pr.left
                };
                proof {
                    assert(partner == spec_other(pairs0[k as int], index));
                }
                let partner_is_sup = match self.cells[partner].state {
                    CellState::Superposition { .. } => true,
                    _ => false,
                };
                if partner_is_sup {
                    let is_bell = match pr.link_type {
                        LinkType::BellState => true,
                        LinkType::Probabilistic => false,
                    };
                    if is_bell {
                        // Force-collapse the partner and cascade.
                        let ghost pre = *self;
                        let mut visited = make_bool_vec(total);
                        let ghost visited_pre = visited@.update(index as int, true);
                        visited[index] = true;
                        proof {
                            assert(visited@ == visited_pre);
                        }
                        self.propagate_collapse(partner, was_mine, &mut visited);
                        proof {
                            // Newly resolved cells carry their hard partners
                            // with them: the collapse marked both, and marked
                            // cells are resolved.
                            assert forall|c: usize, p: usize|
                                c < total && p < total && #[trigger] spec_hard_linked(pairs0, c, p)
                                    && spec_is_sup(old(self).cells@[c as int]) && !spec_is_sup(
                                    self.cells@[c as int],
                                ) implies !spec_is_sup(self.cells@[p as int]) by {
                                if spec_is_sup(pre.cells@[c as int]) {
                                    assert(visited@[c as int]);
                                    assert(c != index);
                                    assert(!visited_pre[c as int]);
                                    assert(visited@[p as int]);
                                } else {
                                    assert(!spec_is_sup(pre.cells@[p as int]));
                                }
                            }
                            assert forall|i: int|
                                0 <= i < total && self.cells@[i] != old(self).cells@[i] implies
                                spec_is_sup(#[trigger] self.cells@[i]) || spec_collapse_shape(
                                    old(self).mine_map@,
                                    old(self).width as int,
                                    old(self).height as int,
                                    self.cells@[i],
                                    i,
                                ) by {
                                assert(pre.mine_map@ == old(self).mine_map@);
                                if self.cells@[i] == pre.cells@[i] {
                                    assert(spec_is_sup(pre.cells@[i]) || spec_collapse_shape(
                                        old(self).mine_map@,
                                        old(self).width as int,
                                        old(self).height as int,
                                        pre.cells@[i],
                                        i,
                                    ));
                                }
                            }
                            assert forall|i: usize|
                                i < total && self.cells@[i as int] != old(self).cells@[i as int]
                                    && !spec_is_sup(self.cells@[i as int]) implies exists|m: usize|
                                m < total && #[trigger] spec_hard_linked(pairs0, m, i) && (m
                                    == index || (spec_is_sup(old(self).cells@[m as int])
                                    && !spec_is_sup(self.cells@[m as int]))) by {
                                if self.cells@[i as int] != pre.cells@[i as int] {
                                    if i == partner {
                                        assert(spec_hard_linked(pairs0, index, partner)) by {
                                            assert(pairs0[k as int].link_type
                                                == LinkType::BellState && spec_touches(
                                                pairs0[k as int],
                                                index,
                                            ) && spec_other(pairs0[k as int], index) == partner);
                                        }
                                    } else {
                                        let m = choose|m: usize|
                                            m < total && #[trigger] spec_hard_linked(pairs0, m, i)
                                                && spec_is_sup(pre.cells@[m as int])
                                                && !spec_is_sup(self.cells@[m as int]);
                                        assert(spec_is_sup(old(self).cells@[m as int]));
                                    }
                                } else {
                                    let m = choose|m: usize|
                                        m < total && #[trigger] spec_hard_linked(pairs0, m, i) && (
                                        m == index || (spec_is_sup(old(self).cells@[m as int])
                                            && !spec_is_sup(pre.cells@[m as int])));
                                    assert(spec_hard_linked(pairs0, m, i));
                                }
                            }
                        }
                    } else {
                        // Weak link: recompute the partner's displayed hint.
                        let baseline = match self.cells[partner].state {
                            CellState::Superposition { probability } => probability,
                            _ => 0,
                        };
                        let adjusted = self.entanglement.collapse_partner_probability(
                            &pr,
                            was_mine,
                            baseline,
                        );
                        let cell = QuantumCell {
                            x: self.cells[partner].x,
                            y: self.cells[partner].y,
                            state: CellState::Superposition { probability: adjusted },
                        };
                        self.cells[partner] = cell;
                    }
                }
            }
            proof {
                // The weak fold advances by one link: the link at hand blends
                // its still-unresolved partner, every other cell keeps its
                // fold value.
                assert forall|p: usize|
                    p < total && spec_is_sup(#[trigger] self.cells@[p as int]) implies
                    self.cells@[p as int].state == (CellState::Superposition {
                        probability: crate::entanglement::spec_weak_fold(
                            pairs0,
                            index,
                            p,
                            was_mine,
                            spec_prob(old(self).cells@[p as int]),
                            k as int + 1,
                        ),
                    }) by {
                    let prk = pairs0[k as int];
                    let fold_prev = crate::entanglement::spec_weak_fold(
                        pairs0,
                        index,
                        p,
                        was_mine,
                        spec_prob(old(self).cells@[p as int]),
                        k as int,
                    );
                    if prk.link_type == LinkType::Probabilistic && spec_touches(prk, index)
                        && spec_other(prk, index) == p {
                        assert(spec_is_sup(cells_at_k[p as int]));
                        assert(cells_at_k[p as int].state == (CellState::Superposition {
                            probability: fold_prev,
                        }));
                        assert(self.cells@[p as int].state == (CellState::Superposition {
                            probability: spec_weak_blend(prk.strength, was_mine, fold_prev),
                        }));
                    } else {
                        assert(self.cells@[p as int] == cells_at_k[p as int]);
                        assert(spec_is_sup(cells_at_k[p as int]));
                    }
                }
            }
            k = k + 1;
        }
        proof {
            assert forall|p: usize|
                p < total && #[trigger] spec_hard_linked(pairs0, index, p) implies !spec_is_sup(
                self.cells@[p as int]) by {
                let pk = choose|pk: int|
                    0 <= pk < pairs0.len() && pairs0[pk].link_type == LinkType::BellState
                        && spec_touches(pairs0[pk], index) && spec_other(pairs0[pk], index) == p;
                assert(spec_touches(pairs0[pk], index));
            }
        }
    }

    /// Reveal one candidate neighbor during flood fill: if it is a valid,
    /// still-unresolved, safe cell, reveal it with its true adjacent count and
    /// queue it for further expansion when that count is zero.
    fn flood_visit(&mut self, stack: &mut Vec<(u32, u32)>, nx: i64, ny: i64)
        requires
            old(self).wf(),
            old(self).mines_placed,
            forall|j: int|
                0 <= j < old(stack)@.len() ==> (#[trigger] old(stack)@[j]).0 < old(self).width && old(
                    stack,
                )@[j].1 < old(self).height,
        ensures
            final(self).wf(),
            final(self).mines_placed,
            *final(self) == (QuantumGrid { cells: final(self).cells, ..*old(self) }),
            cells_evolve(old(self).cells@, final(self).cells@),
            forall|i: int|
                0 <= i < old(self).cells@.len() && final(self).cells@[i] != old(self).cells@[i]
                    ==> (#[trigger] final(self).cells@[i]).state is Revealed && final(self).spec_resolved_ok(
                    i,
                ) && 0 <= nx < old(self).width && 0 <= ny < old(self).height && i == ny * (
                old(self).width as int) + nx,
            forall|j: int|
                0 <= j < final(stack)@.len() ==> (#[trigger] final(stack)@[j]).0 < old(self).width
                    && final(stack)@[j].1 < old(self).height,
            final(stack)@.len() >= old(stack)@.len(),
            forall|j: int| 0 <= j < old(stack)@.len() ==> final(stack)@[j] == old(stack)@[j],
            // the candidate itself ends resolved unless it is off-grid or a
            // mine
            0 <= nx < old(self).width && 0 <= ny < old(self).height && !old(self).mine_map@[ny * (
            old(self).width as int) + nx] ==> !spec_is_sup(
                final(self).cells@[ny * (old(self).width as int) + nx],
            ),
            // a freshly revealed zero-count cell is queued for expansion
            forall|i: int|
                0 <= i < old(self).cells@.len() && final(self).cells@[i] != old(self).cells@[i]
                    && (#[trigger] final(self).cells@[i]).state == (CellState::Revealed {
                    adjacent_mines: 0u8,
                }) ==> on_stack_xy(final(stack)@, old(self).width as int, i),
            // and everything newly queued is such a cell
            forall|j: int|
                old(stack)@.len() <= j < final(stack)@.len() ==> {
                    let e = ((#[trigger] final(stack)@[j]).1 as int) * (old(self).width as int)
                        + final(stack)@[j].0 as int;
                    &&& 0 <= e < old(self).cells@.len()
                    &&& final(self).cells@[e] != old(self).cells@[e]
                    &&& final(self).cells@[e].state == (CellState::Revealed {
                        adjacent_mines: 0u8,
                    })
                },
            2 * count_sup(final(self).cells@) + final(stack)@.len() <= 2 * count_sup(
                old(self).cells@,
            ) + old(stack)@.len(),
    {
        if nx < 0 || ny < 0 || nx >= self.width as i64 || ny >= self.height as i64 {
            return ;
        }
        let x = nx as u32;
        let y = ny as u32;
        proof {
            lemma_index_bound(x as int, y as int, self.width as int, self.height as int);
        }
        let idx = (y as usize) * (self.width as usize) + (x as usize);
        let is_s = match self.cells[idx].state {
            CellState::Superposition { .. } => true,
            _ => false,
        };
        if !is_s {
            return ;
        }
        if self.mine_map[idx] {
            return ;
        }
        let adj = self.adjacent_mines(x, y);
        let cell = QuantumCell {
            x: self.cells[idx].x,
            y: self.cells[idx].y,
            state: CellState::Revealed { adjacent_mines: adj },
        };
        proof {
            lemma_count_update(self.cells@, |c: QuantumCell| spec_is_sup(c), idx as int, cell);
        }
        self.cells[idx] = cell;
        if adj == 0 {
            stack.push((x, y));
            proof {
                assert(stack@[stack@.len() - 1] == (x, y));
                assert(on_stack_xy(stack@, old(self).width as int, idx as int));
            }
        }
    }

    /// Stack-based flood fill for zero-adjacent safe cells: repeatedly expand
    /// into adjacent cells that are still unresolved and not mines, revealing
    /// each with its true adjacent count, and continuing the expansion only
    /// through further zero-count cells.
    /// Expand the flood one step: visit all eight neighbors of (px, py),
    /// revealing each still-unresolved safe one with its true adjacent count
    /// and queueing those whose count is zero.
    #[verifier::spinoff_prover]
    #[verifier::rlimit(100)]
    fn flood_expand(&mut self, stack: &mut Vec<(u32, u32)>, px: u32, py: u32)
        requires
            old(self).wf(),
            old(self).mines_placed,
            px < old(self).width,
            py < old(self).height,
            forall|j: int|
                0 <= j < old(stack)@.len() ==> (#[trigger] old(stack)@[j]).0 < old(self).width && old(
                    stack,
                )@[j].1 < old(self).height,
        ensures
            final(self).wf(),
            final(self).mines_placed,
            *final(self) == (QuantumGrid { cells: final(self).cells, ..*old(self) }),
            cells_evolve(old(self).cells@, final(self).cells@),
            forall|i: int|
                0 <= i < old(self).cells@.len() && final(self).cells@[i] != old(self).cells@[i]
                    ==> (#[trigger] final(self).cells@[i]).state is Revealed && final(self).spec_resolved_ok(
                    i,
                ) && !old(self).mine_map@[i] && spec_cells_adjacent(
                    old(self).width as int,
                    (py as int) * (old(self).width as int) + px as int,
                    i,
                ),
            forall|n: int|
                0 <= n < old(self).cells@.len() && #[trigger] spec_cells_adjacent(
                    old(self).width as int,
                    (py as int) * (old(self).width as int) + px as int,
                    n,
                ) && !old(self).mine_map@[n] ==> !spec_is_sup(final(self).cells@[n]),
            forall|j: int|
                0 <= j < final(stack)@.len() ==> (#[trigger] final(stack)@[j]).0 < old(self).width
                    && final(stack)@[j].1 < old(self).height,
            final(stack)@.len() >= old(stack)@.len(),
            forall|j: int| 0 <= j < old(stack)@.len() ==> final(stack)@[j] == old(stack)@[j],
            forall|i: int|
                0 <= i < old(self).cells@.len() && final(self).cells@[i] != old(self).cells@[i]
                    && (#[trigger] final(self).cells@[i]).state == (CellState::Revealed {
                    adjacent_mines: 0u8,
                }) ==> on_stack_xy(final(stack)@, old(self).width as int, i),
            forall|j: int|
                old(stack)@.len() <= j < final(stack)@.len() ==> {
                    let e = ((#[trigger] final(stack)@[j]).1 as int) * (old(self).width as int)
                        + final(stack)@[j].0 as int;
                    &&& 0 <= e < old(self).cells@.len()
                    &&& final(self).cells@[e] != old(self).cells@[e]
                    &&& final(self).cells@[e].state == (CellState::Revealed {
                        adjacent_mines: 0u8,
                    })
                },
            2 * count_sup(final(self).cells@) + final(stack)@.len() <= 2 * count_sup(
                old(self).cells@,
            ) + old(stack)@.len(),
    {
        let ghost total = self.cells@.len();
        let ghost wi = self.width as int;
        let ghost hi = self.height as int;
        let ghost e = (py as int) * wi + px as int;
        proof {
            lemma_index_bound(px as int, py as int, wi, hi);
        }
        let cx = px as i64;
        let cy = py as i64;
        let ghost s0 = self.cells@;
        let ghost k0 = stack@;
        self.flood_visit(stack, cx - 1, cy - 1);
        let ghost s1 = self.cells@;
        let ghost k1 = stack@;
        self.flood_visit(stack, cx, cy - 1);
        let ghost s2 = self.cells@;
        let ghost k2 = stack@;
        self.flood_visit(stack, cx + 1, cy - 1);
        let ghost s3 = self.cells@;
        let ghost k3 = stack@;
        self.flood_visit(stack, cx - 1, cy);
        let ghost s4 = self.cells@;
        let ghost k4 = stack@;
        self.flood_visit(stack, cx + 1, cy);
        let ghost s5 = self.cells@;
        let ghost k5 = stack@;
        self.flood_visit(stack, cx - 1, cy + 1);
        let ghost s6 = self.cells@;
        let ghost k6 = stack@;
        self.flood_visit(stack, cx, cy + 1);
        let ghost s7 = self.cells@;
        let ghost k7 = stack@;
        self.flood_visit(stack, cx + 1, cy + 1);
        proof {
            assert(cells_evolve(s1, self.cells@));
            assert(cells_evolve(s2, self.cells@));
            assert(cells_evolve(s3, self.cells@));
            assert(cells_evolve(s4, self.cells@));
            assert(cells_evolve(s5, self.cells@));
            assert(cells_evolve(s6, self.cells@));
            assert(cells_evolve(s7, self.cells@));
            assert(forall|j: int| 0 <= j < k1.len() ==> stack@[j] == k1[j]);
            assert(forall|j: int| 0 <= j < k2.len() ==> stack@[j] == k2[j]);
            assert(forall|j: int| 0 <= j < k3.len() ==> stack@[j] == k3[j]);
            assert(forall|j: int| 0 <= j < k4.len() ==> stack@[j] == k4[j]);
            assert(forall|j: int| 0 <= j < k5.len() ==> stack@[j] == k5[j]);
            assert(forall|j: int| 0 <= j < k6.len() ==> stack@[j] == k6[j]);
            assert(forall|j: int| 0 <= j < k7.len() ==> stack@[j] == k7[j]);
            // every safe neighbor of (px, py) is now resolved
            assert forall|n: int|
                0 <= n < total && #[trigger] spec_cells_adjacent(wi, e, n) && !old(
                    self,
                ).mine_map@[n] implies !spec_is_sup(self.cells@[n]) by {
                lemma_coords_bound(n, wi, hi);
                lemma_coords_bound(e, wi, hi);
                let dx = n % wi - e % wi;
                let dy = n / wi - e / wi;
                assert(n == (cy + dy) * wi + (cx + dx));
                if dy == -1 && dx == -1 {
                    assert(!spec_is_sup(s1[n]));
                } else if dy == -1 && dx == 0 {
                    assert(!spec_is_sup(s2[n]));
                } else if dy == -1 && dx == 1 {
                    assert(!spec_is_sup(s3[n]));
                } else if dy == 0 && dx == -1 {
                    assert(!spec_is_sup(s4[n]));
                } else if dy == 0 && dx == 1 {
                    assert(!spec_is_sup(s5[n]));
                } else if dy == 1 && dx == -1 {
                    assert(!spec_is_sup(s6[n]));
                } else if dy == 1 && dx == 0 {
                    assert(!spec_is_sup(s7[n]));
                } else {
                    assert(dy == 1 && dx == 1);
                    assert(!spec_is_sup(self.cells@[n]));
                }
            }
            // every cell this step revealed is one of the eight neighbors
            assert forall|i: int|
                0 <= i < total && self.cells@[i] != s0[i] implies spec_cells_adjacent(
                wi,
                e,
                i,
            ) by {
                lemma_coords_bound(e, wi, hi);
                if s1[i] != s0[i] {
                    lemma_index_bound(cx as int - 1, cy as int - 1, wi, hi);
                } else if s2[i] != s1[i] {
                    lemma_index_bound(cx as int, cy as int - 1, wi, hi);
                } else if s3[i] != s2[i] {
                    lemma_index_bound(cx as int + 1, cy as int - 1, wi, hi);
                } else if s4[i] != s3[i] {
                    lemma_index_bound(cx as int - 1, cy as int, wi, hi);
                } else if s5[i] != s4[i] {
                    lemma_index_bound(cx as int + 1, cy as int, wi, hi);
                } else if s6[i] != s5[i] {
                    lemma_index_bound(cx as int - 1, cy as int + 1, wi, hi);
                } else if s7[i] != s6[i] {
                    lemma_index_bound(cx as int, cy as int + 1, wi, hi);
                } else {
                    assert(self.cells@[i] != s7[i]);
                    lemma_index_bound(cx as int + 1, cy as int + 1, wi, hi);
                }
            }
            // a zero-count reveal of this step is still queued at its end
            assert forall|i: int|
                0 <= i < total && self.cells@[i] != s0[i] && (#[trigger] self.cells@[i]).state
                    == (CellState::Revealed { adjacent_mines: 0u8 }) implies on_stack_xy(
                stack@,
                wi,
                i,
            ) by {
                if s1[i] != s0[i] {
                    assert(on_stack_xy(k1, wi, i));
                    let j = choose|j: int|
                        0 <= j < k1.len() && ((#[trigger] k1[j]).1 as int) * wi + k1[j].0 as int
                            == i;
                    assert(stack@[j] == k1[j]);
                } else if s2[i] != s1[i] {
                    assert(on_stack_xy(k2, wi, i));
                    let j = choose|j: int|
                        0 <= j < k2.len() && ((#[trigger] k2[j]).1 as int) * wi + k2[j].0 as int
                            == i;
                    assert(stack@[j] == k2[j]);
                } else if s3[i] != s2[i] {
                    assert(on_stack_xy(k3, wi, i));
                    let j = choose|j: int|
                        0 <= j < k3.len() && ((#[trigger] k3[j]).1 as int) * wi + k3[j].0 as int
                            == i;
                    assert(stack@[j] == k3[j]);
                } else if s4[i] != s3[i] {
                    assert(on_stack_xy(k4, wi, i));
                    let j = choose|j: int|
                        0 <= j < k4.len() && ((#[trigger] k4[j]).1 as int) * wi + k4[j].0 as int
                            == i;
                    assert(stack@[j] == k4[j]);
                } else if s5[i] != s4[i] {
                    assert(on_stack_xy(k5, wi, i));
                    let j = choose|j: int|
                        0 <= j < k5.len() && ((#[trigger] k5[j]).1 as int) * wi + k5[j].0 as int
                            == i;
                    assert(stack@[j] == k5[j]);
                } else if s6[i] != s5[i] {
                    assert(on_stack_xy(k6, wi, i));
                    let j = choose|j: int|
                        0 <= j < k6.len() && ((#[trigger] k6[j]).1 as int) * wi + k6[j].0 as int
                            == i;
                    assert(stack@[j] == k6[j]);
                } else if s7[i] != s6[i] {
                    assert(on_stack_xy(k7, wi, i));
                    let j = choose|j: int|
                        0 <= j < k7.len() && ((#[trigger] k7[j]).1 as int) * wi + k7[j].0 as int
                            == i;
                    assert(stack@[j] == k7[j]);
                } else {
                    assert(self.cells@[i] != s7[i]);
                    assert(on_stack_xy(stack@, wi, i));
                }
            }
        }
    }

    /// Stack-based flood fill for zero-adjacent safe cells: repeatedly expand
    /// into adjacent cells that are still unresolved and not mines, revealing
    /// each with its true adjacent count, and continuing the expansion only
    /// through further zero-count cells.
    #[verifier::rlimit(100)]
    #[verifier::spinoff_prover]
    fn flood_fill(&mut self, start_x: u32, start_y: u32)
        requires
            old(self).wf(),
            old(self).mines_placed,
            start_x < old(self).width,
            start_y < old(self).height,
            old(self).cells@[(start_y as int) * (old(self).width as int) + start_x as int].state
                == (CellState::Revealed { adjacent_mines: 0u8 }),
        ensures
            final(self).wf(),
            final(self).mines_placed,
            *final(self) == (QuantumGrid { cells: final(self).cells, ..*old(self) }),
            cells_evolve(old(self).cells@, final(self).cells@),
            forall|i: int|
                0 <= i < old(self).cells@.len() && final(self).cells@[i] != old(self).cells@[i]
                    ==> (#[trigger] final(self).cells@[i]).state is Revealed && final(self).spec_resolved_ok(
                    i,
                ),
            // closure: around the start cell and around every zero-count cell
            // this flood revealed, every safe cell is resolved
            forall|c: int|
                0 <= c < old(self).cells@.len() && (#[trigger] final(self).cells@[c]).state == (
                CellState::Revealed { adjacent_mines: 0u8 }) && (final(self).cells@[c] != old(
                    self,
                ).cells@[c] || c == (start_y as int) * (old(self).width as int) + start_x as int)
                    ==> forall|n: int|
                    0 <= n < old(self).cells@.len() && #[trigger] spec_cells_adjacent(
                        old(self).width as int,
                        c,
                        n,
                    ) && !old(self).mine_map@[n] ==> !spec_is_sup(final(self).cells@[n]),
            // confinement: everything this flood revealed is safe and sits
            // next to the start cell or to a zero-count cell it revealed
            forall|i: int|
                0 <= i < old(self).cells@.len() && final(self).cells@[i] != old(self).cells@[i]
                    ==> !old(self).mine_map@[i] && exists|nn: int|
                    0 <= nn < old(self).cells@.len() && #[trigger] spec_cells_adjacent(
                        old(self).width as int,
                        nn,
                        i,
                    ) && final(self).cells@[nn].state == (CellState::Revealed {
                        adjacent_mines: 0u8,
                    }) && (final(self).cells@[nn] != old(self).cells@[nn] || nn == (
                    start_y as int) * (old(self).width as int) + start_x as int),
    {
        let ghost total = self.cells@.len();
        let ghost wi = self.width as int;
        let ghost hi = self.height as int;
        let ghost start_idx = (start_y as int) * wi + start_x as int;
        proof {
            lemma_index_bound(start_x as int, start_y as int, wi, hi);
        }
        let mut stack: Vec<(u32, u32)> = Vec::new();
        stack.push((start_x, start_y));
        proof {
            lemma_count_bounds(self.cells@, |c: QuantumCell| spec_is_sup(c));
            assert(stack@[0] == (start_x, start_y));
        }
        while stack.len() > 0
            invariant
                self.wf(),
                self.mines_placed,
                total == self.cells@.len(),
                wi == self.width as int,
                hi == self.height as int,
                start_idx == (start_y as int) * wi + start_x as int,
                0 <= start_idx < total,
                *self == (QuantumGrid { cells: self.cells, ..*old(self) }),
                cells_evolve(old(self).cells@, self.cells@),
                self.cells@[start_idx].state == (CellState::Revealed { adjacent_mines: 0u8 }),
                forall|i: int|
                    0 <= i < total && self.cells@[i] != old(self).cells@[i] ==> (
                    #[trigger] self.cells@[i]).state is Revealed && self.spec_resolved_ok(i),
                forall|j: int|
                    0 <= j < stack@.len() ==> (#[trigger] stack@[j]).0 < self.width && stack@[j].1
                        < self.height,
                // every queued cell shows zero and is the start or freshly
                // revealed
                forall|j: int|
                    0 <= j < stack@.len() ==> {
                        let e = ((#[trigger] stack@[j]).1 as int) * wi + stack@[j].0 as int;
                        &&& self.cells@[e].state == (CellState::Revealed { adjacent_mines: 0u8 })
                        &&& (self.cells@[e] != old(self).cells@[e] || e == start_idx)
                    },
                // every zero-count cell of the flood has its safe neighbors
                // resolved or still waits in the queue
                forall|c: int|
                    0 <= c < total && (#[trigger] self.cells@[c]).state == (CellState::Revealed {
                        adjacent_mines: 0u8,
                    }) && (self.cells@[c] != old(self).cells@[c] || c == start_idx) ==> (forall|
                        n: int,
                    |
                        0 <= n < total && #[trigger] spec_cells_adjacent(wi, c, n) && !old(
                            self,
                        ).mine_map@[n] ==> !spec_is_sup(self.cells@[n])) || on_stack_xy(
                        stack@,
                        wi,
                        c,
                    ),
                // everything revealed so far is safe and sits next to a
                // zero-count cell of the flood
                forall|i: int|
                    0 <= i < total && self.cells@[i] != old(self).cells@[i] ==> !old(
                        self,
                    ).mine_map@[i] && exists|nn: int|
                        0 <= nn < total && #[trigger] spec_cells_adjacent(wi, nn, i)
                            && self.cells@[nn].state == (CellState::Revealed {
                            adjacent_mines: 0u8,
                        }) && (self.cells@[nn] != old(self).cells@[nn] || nn == start_idx),
            decreases 2 * count_sup(self.cells@) + stack@.len(),
        {
            proof {
                lemma_count_bounds(self.cells@, |c: QuantumCell| spec_is_sup(c));
            }
            let ghost measure0 = 2 * count_sup(self.cells@) + stack@.len();
            let ghost stack_pre = stack@;
            let ghost cells_pre = self.cells@;
            let top = match stack.pop() {
                Some(t) => t,
                None => {
                    proof {
                        assert(false);
                    }
                    (0, 0)
                },
            };
            let ghost e = (top.1 as int) * wi + top.0 as int;
            proof {
                assert(stack_pre[stack_pre.len() - 1] == top);
                lemma_index_bound(top.0 as int, top.1 as int, wi, hi);
            }
            let ghost k0 = stack@;
            self.flood_expand(&mut stack, top.0, top.1);
            proof {
                lemma_count_bounds(self.cells@, |c: QuantumCell| spec_is_sup(c));
                assert(2 * count_sup(self.cells@) + stack@.len() < measure0);
                assert(forall|i: int|
                    0 <= i < total && cells_pre[i] != old(self).cells@[i] ==> !spec_is_sup(
                        #[trigger] cells_pre[i],
                    ));
                lemma_stack_indices_in_range(stack_pre, wi, hi);
                lemma_flood_step(
                    old(self).cells@,
                    cells_pre,
                    self.cells@,
                    stack_pre,
                    stack@,
                    old(self).mine_map@,
                    wi,
                    hi,
                    start_idx,
                    e,
                );
                // every queue entry still shows zero and is the start or
                // freshly revealed
                assert forall|j: int|
                    0 <= j < stack@.len() implies {
                    let e2 = ((#[trigger] stack@[j]).1 as int) * wi + stack@[j].0 as int;
                    &&& self.cells@[e2].state == (CellState::Revealed { adjacent_mines: 0u8 })
                    &&& (self.cells@[e2] != old(self).cells@[e2] || e2 == start_idx)
                } by {
                    let e2 = (stack@[j].1 as int) * wi + stack@[j].0 as int;
                    lemma_index_bound(stack@[j].0 as int, stack@[j].1 as int, wi, hi);
                    assert(cells_evolve(cells_pre, self.cells@));
                    if j < stack_pre.len() - 1 {
                        assert(stack@[j] == stack_pre[j]);
                        assert(cells_pre[e2].state == (CellState::Revealed {
                            adjacent_mines: 0u8,
                        }));
                        assert(!spec_is_sup(cells_pre[e2]));
                        assert(self.cells@[e2] == cells_pre[e2]);
                    } else {
                        assert(self.cells@[e2] != cells_pre[e2]);
                        assert(self.cells@[e2].state == (CellState::Revealed {
                            adjacent_mines: 0u8,
                        }));
                        if cells_pre[e2] != old(self).cells@[e2] {
                            assert(!spec_is_sup(cells_pre[e2]));
                            assert(self.cells@[e2] == cells_pre[e2]);
                        }
                    }
                }
            }
        }
        proof {
            assert forall|c: int|
                0 <= c < total && (#[trigger] self.cells@[c]).state == (CellState::Revealed {
                    adjacent_mines: 0u8,
                }) && (self.cells@[c] != old(self).cells@[c] || c == start_idx) implies forall|
                n: int,
            |
                0 <= n < total && #[trigger] spec_cells_adjacent(wi, c, n) && !old(
                    self,
                ).mine_map@[n] ==> !spec_is_sup(self.cells@[n]) by {
                assert(!on_stack_xy(stack@, wi, c));
            }
        }
    }

    /// Resolve a cell known to be safe: reveal it with its true adjacent
    /// count, propagate correlation with the "observed safe" signal, flood
    /// fill when the count is zero, and recompute the win condition.
    #[verifier::rlimit(60)]
    fn reveal_safe(&mut self, index: usize) -> (r: RevealOutcome)
        requires
            old(self).wf(),
            old(self).mines_placed,
            index < old(self).cells@.len(),
            spec_is_sup(old(self).cells@[index as int]),
            !old(self).mine_map@[index as int],
        ensures
            final(self).wf(),
            final(self).mines_placed,
            *final(self) == (QuantumGrid {
                cells: final(self).cells,
                won: final(self).won,
                ..*old(self)
            }),
            cells_evolve(old(self).cells@, final(self).cells@),
            forall|i: int|
                0 <= i < old(self).cells@.len() && final(self).cells@[i] != old(self).cells@[i]
                    ==> spec_is_sup(#[trigger] final(self).cells@[i]) || final(self).spec_resolved_ok(
                    i,
                ),
            final(self).cells@[index as int].state is Revealed,
            final(self).spec_resolved_ok(index as int),
            final(self).won == (!final(self).game_over && count_sup(final(self).cells@) == 0),
            r == (RevealOutcome::Revealed { cell: final(self).cells@[index as int] }),
            chain_post(*old(self), *final(self), index),
    {
        let (x, y) = self.coords_of(index);
        let adj = self.adjacent_mines(x, y);
        let cell = QuantumCell {
            x: self.cells[index].x,
            y: self.cells[index].y,
            state: CellState::Revealed { adjacent_mines: adj },
        };
        self.cells[index] = cell;
        let ghost g_revealed = *self;
        self.propagate_entanglement(index, false);
        let ghost mid = self.cells@;
        proof {
            assert forall|c: usize, p: usize|
                c < mid.len() && p < mid.len() && #[trigger] spec_hard_linked(
                    old(self).entanglement.pairs@,
                    c,
                    p,
                ) && spec_is_sup(old(self).cells@[c as int]) && !spec_is_sup(mid[c as int]) implies
                !spec_is_sup(mid[p as int]) by {
                if c != index {
                    assert(spec_is_sup(g_revealed.cells@[c as int]));
                } else {
                    assert(!spec_is_sup(mid[p as int]));
                }
            }
        }
        if adj == 0 {
            self.flood_fill(x, y);
        }
        proof {
            assert(chain_post(*old(self), *self, index)) by {
                assert(mid.len() == old(self).cells@.len());
                assert(forall|i: int|
                    0 <= i < mid.len() && !spec_is_sup(#[trigger] mid[i]) ==> !spec_is_sup(
                        self.cells@[i],
                    ));
            }
        }
        let won = self.is_win_condition_met();
        self.won = won;
        RevealOutcome::Revealed { cell: self.cells[index] }
    }
}

/// If cells only evolve and one cell actually left superposition, the count
/// of unresolved cells strictly drops.
pub proof fn lemma_count_strict_lt(a: Seq<QuantumCell>, b: Seq<QuantumCell>, i: int)
    requires
        a.len() == b.len(),
        forall|j: int|
            0 <= j < a.len() && spec_is_sup(#[trigger] b[j]) ==> spec_is_sup(a[j]),
        0 <= i < a.len(),
        spec_is_sup(a[i]),
        !spec_is_sup(b[i]),
    ensures
        count_sup(b) < count_sup(a),
    decreases a.len(),
{
    let p = |c: QuantumCell| spec_is_sup(c);
    if i == a.len() - 1 {
        assert(forall|j: int|
            0 <= j < a.len() - 1 && p(#[trigger] b.drop_last()[j]) ==> p(a.drop_last()[j]));
        lemma_count_pointwise_le(a.drop_last(), b.drop_last(), p);
        assert(a.last() == a[i] && b.last() == b[i]);
    } else {
        lemma_count_strict_lt(a.drop_last(), b.drop_last(), i);
        assert(a.last() == a[a.len() - 1] && b.last() == b[b.len() - 1]);
    }
}

/// What `reveal_cell` guarantees, branch by branch.
pub open spec fn reveal_post(
    g0: QuantumGrid,
    g1: QuantumGrid,
    x: u32,
    y: u32,
    r: RevealOutcome,
) -> bool {
    let idx = g0.spec_index(x as int, y as int);
    let over = g0.game_over || g0.won;
    let oob = !(x < g0.width && y < g0.height);
    &&& (over ==> r == RevealOutcome::GameAlreadyOver && g1 == g0)
    &&& (!over && oob ==> r == RevealOutcome::OutOfBounds && g1 == g0)
    &&& (!over && !oob && !spec_is_sup(g0.cells@[idx]) ==> r == RevealOutcome::AlreadyResolved
        && g1 == g0)
    &&& (!over && !oob && spec_is_sup(g0.cells@[idx]) ==> {
        &&& same_config(g0, g1)
        &&& g1.containment_charges == g0.containment_charges
        &&& g1.mines_placed
        &&& count_mines(g1.mine_map@) == g1.mine_count as int
        &&& (g0.mines_placed ==> g1.mine_map@ == g0.mine_map@)
        &&& (!g0.mines_placed ==> forall|i: int|
            g0.spec_in_zone(i, x as int, y as int) ==> !g1.mine_map@[i])
        &&& (!g0.mines_placed ==> !g1.mine_map@[idx] && r matches RevealOutcome::Revealed { .. })
        &&& (g0.mines_placed ==> g1.rng == g0.rng)
        &&& (!g0.mines_placed ==> {
            let cands = spec_candidates_upto(
                g0,
                idx % (g0.width as int),
                idx / (g0.width as int),
                g0.cells@.len() as int,
            );
            let sh = spec_shuffle(cands, g0.rng.state, 0, g0.mine_count as int);
            &&& g1.mine_map@ == spec_mark(g0.mine_map@, sh.0, g0.mine_count as int)
            &&& g1.rng.state == spec_state_after(sh.1, count_sup(g0.cells@))
        })
        &&& cells_evolve(g0.cells@, g1.cells@)
        &&& count_sup(g1.cells@) < count_sup(g0.cells@)
        &&& !spec_is_sup(g1.cells@[idx])
        &&& forall|i: int|
            0 <= i < g0.cells@.len() && g1.cells@[i] != g0.cells@[i] ==> spec_is_sup(
                #[trigger] g1.cells@[i],
            ) || g1.spec_resolved_ok(i)
        &&& (g1.mine_map@[idx] ==> r == (RevealOutcome::MineDetonated { x, y }) && g1.game_over
            && g1.cells@[idx].state is Detonated && g1.won == g0.won)
        &&& (!g1.mine_map@[idx] ==> {
            &&& r == (RevealOutcome::Revealed { cell: g1.cells@[idx] })
            &&& g1.cells@[idx].state is Revealed
            &&& g1.game_over == g0.game_over
            &&& g1.won == (!g1.game_over && count_sup(g1.cells@) == 0)
        })
        &&& chain_post(g0, g1, idx as usize)
    })
}

/// What `contain_cell` guarantees, branch by branch. The precondition order
/// matches `reveal_cell` with the charge check inserted second, and one charge
/// is spent on every attempt that reaches a cell, success or failure.
pub open spec fn contain_post(
    g0: QuantumGrid,
    g1: QuantumGrid,
    x: u32,
    y: u32,
    r: RevealOutcome,
) -> bool {
    let idx = g0.spec_index(x as int, y as int);
    let over = g0.game_over || g0.won;
    let oob = !(x < g0.width && y < g0.height);
    &&& (over ==> r == RevealOutcome::GameAlreadyOver && g1 == g0)
    &&& (!over && g0.containment_charges == 0 ==> r == RevealOutcome::NoChargesRemaining && g1
        == g0)
    &&& (!over && g0.containment_charges > 0 && oob ==> r == RevealOutcome::OutOfBounds && g1
        == g0)
    &&& (!over && g0.containment_charges > 0 && !oob && !spec_is_sup(g0.cells@[idx]) ==> r
        == RevealOutcome::AlreadyResolved && g1 == g0)
    &&& (!over && g0.containment_charges > 0 && !oob && spec_is_sup(g0.cells@[idx]) ==> {
        &&& same_config(g0, g1)
        &&& g1.containment_charges == g0.containment_charges - 1
        &&& g1.mines_placed
        &&& count_mines(g1.mine_map@) == g1.mine_count as int
        &&& (g0.mines_placed ==> g1.mine_map@ == g0.mine_map@)
        &&& (!g0.mines_placed ==> forall|i: int|
            g0.spec_in_zone(i, x as int, y as int) ==> !g1.mine_map@[i])
        &&& (g0.mines_placed ==> g1.rng == g0.rng)
        &&& (!g0.mines_placed ==> {
            let cands = spec_candidates_upto(
                g0,
                idx % (g0.width as int),
                idx / (g0.width as int),
                g0.cells@.len() as int,
            );
            let sh = spec_shuffle(cands, g0.rng.state, 0, g0.mine_count as int);
            &&& g1.mine_map@ == spec_mark(g0.mine_map@, sh.0, g0.mine_count as int)
            &&& g1.rng.state == spec_state_after(sh.1, count_sup(g0.cells@))
        })
        &&& cells_evolve(g0.cells@, g1.cells@)
        &&& count_sup(g1.cells@) < count_sup(g0.cells@)
        &&& !spec_is_sup(g1.cells@[idx])
        &&& forall|i: int|
            0 <= i < g0.cells@.len() && g1.cells@[i] != g0.cells@[i] ==> spec_is_sup(
                #[trigger] g1.cells@[i],
            ) || g1.spec_resolved_ok(i)
        &&& g1.game_over == g0.game_over
        &&& g1.won == (!g1.game_over && count_sup(g1.cells@) == 0)
        &&& (g1.mine_map@[idx] ==> r == (RevealOutcome::ContainmentSuccess { x, y })
            && g1.cells@[idx].state is Contained)
        &&& (!g1.mine_map@[idx] ==> r == (RevealOutcome::ContainmentFailed { cell: g1.cells@[idx] })
            && g1.cells@[idx].state is Revealed)
        &&& chain_post(g0, g1, idx as usize)
    })
}

impl QuantumGrid {
    /// Reveal a cell. The first reveal of a game triggers mine placement with
    /// this cell as the guaranteed-safe anchor, so it never detonates.
    #[verifier::rlimit(60)]
    pub fn reveal_cell(&mut self, x: u32, y: u32) -> (r: RevealOutcome)
        requires
            old(self).wf(),
        ensures
            final(self).wf(),
            reveal_post(*old(self), *final(self), x, y, r),
    {
        if self.game_over || self.won {
            return RevealOutcome::GameAlreadyOver;
        }
        let index = match self.index_of(x, y) {
            Some(i) => i,
            None => {
                return RevealOutcome::OutOfBounds;
            },
        };
        let is_s = match self.cells[index].state {
            CellState::Superposition { .. } => true,
            _ => false,
        };
        if !is_s {
            return RevealOutcome::AlreadyResolved;
        }
        // Deferred mine placement — the first interaction is always safe.
        if !self.mines_placed {
            self.place_mines(index);
            proof {
                lemma_index_bound(x as int, y as int, self.width as int, self.height as int);
                assert(old(self).spec_in_zone(index as int, x as int, y as int));
            }
        }
        let ghost g_placed = *self;
        if self.mine_map[index] {
            let cell = QuantumCell {
                x: self.cells[index].x,
                y: self.cells[index].y,
                state: CellState::Detonated,
            };
            self.cells[index] = cell;
            self.game_over = true;
            let ghost g_det = *self;
            self.propagate_entanglement(index, true);
            proof {
                let ghost mid = self.cells@;
                assert forall|c: usize, p: usize|
                    c < mid.len() && p < mid.len() && #[trigger] spec_hard_linked(
                        old(self).entanglement.pairs@,
                        c,
                        p,
                    ) && spec_is_sup(old(self).cells@[c as int]) && !spec_is_sup(
                        mid[c as int],
                    ) implies !spec_is_sup(mid[p as int]) by {
                    if c != index {
                        assert(spec_is_sup(g_det.cells@[c as int]));
                    } else {
                        assert(!spec_is_sup(mid[p as int]));
                    }
                }
                assert(chain_post(*old(self), *self, index));
                lemma_count_strict_lt(old(self).cells@, self.cells@, index as int);
            }
            RevealOutcome::MineDetonated { x, y }
        } else {
            let out = self.reveal_safe(index);
            proof {
                let ghost mid = choose|mid: Seq<QuantumCell>|
                    {
                        &&& mid.len() == g_placed.cells@.len()
                        &&& forall|i: int|
                            0 <= i < mid.len() && spec_is_sup(#[trigger] mid[i]) ==> spec_is_sup(
                                g_placed.cells@[i],
                            )
                        &&& !spec_is_sup(mid[index as int])
                        &&& forall|p: usize|
                            p < mid.len() && #[trigger] spec_hard_linked(
                                g_placed.entanglement.pairs@,
                                index,
                                p,
                            ) ==> !spec_is_sup(mid[p as int])
                        &&& forall|c: usize, p: usize|
                            c < mid.len() && p < mid.len() && #[trigger] spec_hard_linked(
                                g_placed.entanglement.pairs@,
                                c,
                                p,
                            ) && spec_is_sup(g_placed.cells@[c as int]) && !spec_is_sup(
                                mid[c as int],
                            ) ==> !spec_is_sup(mid[p as int])
                        &&& forall|i: int|
                            0 <= i < mid.len() && !spec_is_sup(#[trigger] mid[i]) ==> !spec_is_sup(
                                self.cells@[i],
                            )
                    };
                assert(chain_post(*old(self), *self, index));
                lemma_count_strict_lt(old(self).cells@, self.cells@, index as int);
            }
            out
        }
    }

    /// Contain a cell: the player's guess that it is a mine. A charge is
    /// spent on every attempt that reaches an unresolved cell, whether or not
    /// the guess was right; a wrong guess reveals the (safe) cell.
    #[verifier::rlimit(60)]
    pub fn contain_cell(&mut self, x: u32, y: u32) -> (r: RevealOutcome)
        requires
            old(self).wf(),
        ensures
            final(self).wf(),
            contain_post(*old(self), *final(self), x, y, r),
    {
        if self.game_over || self.won {
            return RevealOutcome::GameAlreadyOver;
        }
        if self.containment_charges == 0 {
            return RevealOutcome::NoChargesRemaining;
        }
        let index = match self.index_of(x, y) {
            Some(i) => i,
            None => {
                return RevealOutcome::OutOfBounds;
            },
        };
        let is_s = match self.cells[index].state {
            CellState::Superposition { .. } => true,
            _ => false,
        };
        if !is_s {
            return RevealOutcome::AlreadyResolved;
        }
        if !self.mines_placed {
            self.place_mines(index);
            proof {
                lemma_index_bound(x as int, y as int, self.width as int, self.height as int);
                assert(old(self).spec_in_zone(index as int, x as int, y as int));
            }
        }
        // The charge is spent whatever the outcome.
        self.containment_charges = self.containment_charges - 1;
        let ghost g_placed = *self;
        if self.mine_map[index] {
            let cell = QuantumCell {
                x: self.cells[index].x,
                y: self.cells[index].y,
                state: CellState::Contained,
            };
            self.cells[index] = cell;
            let ghost g_cont = *self;
            self.propagate_entanglement(index, true);
            proof {
                let ghost mid = self.cells@;
                assert forall|c: usize, p: usize|
                    c < mid.len() && p < mid.len() && #[trigger] spec_hard_linked(
                        old(self).entanglement.pairs@,
                        c,
                        p,
                    ) && spec_is_sup(old(self).cells@[c as int]) && !spec_is_sup(
                        mid[c as int],
                    ) implies !spec_is_sup(mid[p as int]) by {
                    if c != index {
                        assert(spec_is_sup(g_cont.cells@[c as int]));
                    } else {
                        assert(!spec_is_sup(mid[p as int]));
                    }
                }
                assert(chain_post(*old(self), *self, index));
                lemma_count_strict_lt(old(self).cells@, self.cells@, index as int);
            }
            let won = self.is_win_condition_met();
            self.won = won;
            RevealOutcome::ContainmentSuccess { x, y }
        } else {
            // Wrong guess — the cell was safe. Reveal it; the charge is lost.
            let out = self.reveal_safe(index);
            let cell_out = match out {
                RevealOutcome::Revealed { cell } => cell,
                _ => {
                    proof {
                        assert(false);
                    }
                    QuantumCell { x, y, state: CellState::Detonated }
                },
            };
            proof {
                let ghost mid = choose|mid: Seq<QuantumCell>|
                    {
                        &&& mid.len() == g_placed.cells@.len()
                        &&& forall|i: int|
                            0 <= i < mid.len() && spec_is_sup(#[trigger] mid[i]) ==> spec_is_sup(
                                g_placed.cells@[i],
                            )
                        &&& !spec_is_sup(mid[index as int])
                        &&& forall|p: usize|
                            p < mid.len() && #[trigger] spec_hard_linked(
                                g_placed.entanglement.pairs@,
                                index,
                                p,
                            ) ==> !spec_is_sup(mid[p as int])
                        &&& forall|c: usize, p: usize|
                            c < mid.len() && p < mid.len() && #[trigger] spec_hard_linked(
                                g_placed.entanglement.pairs@,
                                c,
                                p,
                            ) && spec_is_sup(g_placed.cells@[c as int]) && !spec_is_sup(
                                mid[c as int],
                            ) ==> !spec_is_sup(mid[p as int])
                        &&& forall|i: int|
                            0 <= i < mid.len() && !spec_is_sup(#[trigger] mid[i]) ==> !spec_is_sup(
                                self.cells@[i],
                            )
                    };
                assert(chain_post(*old(self), *self, index));
                lemma_count_strict_lt(old(self).cells@, self.cells@, index as int);
            }
            RevealOutcome::ContainmentFailed { cell: cell_out }
        }
    }
}

/// Determinism of construction: two grids built from the same dimensions,
/// mine count, seed and difficulty agree in every field — the same cells with
/// the same initial hints, the same pipeline, the same link list, the same
/// generator state, the same layout and flags. Replaying a game therefore
/// needs only the construction parameters and the ordered action log.
pub proof fn lemma_construction_deterministic(
    a: QuantumGrid,
    b: QuantumGrid,
    width: u32,
    height: u32,
    mine_count: u32,
    seed: u64,
    difficulty: Seq<char>,
)
    requires
        new_post(a, width, height, mine_count, seed, difficulty),
        new_post(b, width, height, mine_count, seed, difficulty),
    ensures
        a.cells@ == b.cells@,
        a.circuit.gates@ == b.circuit.gates@,
        a.entanglement.pairs@ == b.entanglement.pairs@,
        a.mine_map@ == b.mine_map@,
        a.rng == b.rng,
        a.mine_count == b.mine_count,
        a.containment_charges == b.containment_charges,
        a.game_over == b.game_over,
        a.won == b.won,
        a.mines_placed == b.mines_placed,
{
    reveal(new_post);
    assert(a.circuit.gates@ == b.circuit.gates@);
    assert forall|i: int| 0 <= i < a.cells@.len() implies a.cells@[i] == b.cells@[i] by {
        let ca = a.cells@[i];
        let cb = b.cells@[i];
        assert(spec_is_sup(ca) && spec_is_sup(cb));
        assert(ca.state == (CellState::Superposition { probability: spec_prob(ca) }));
        assert(cb.state == (CellState::Superposition { probability: spec_prob(cb) }));
        assert(spec_prob(ca) == spec_prob(cb));
        assert(ca.x == cb.x && ca.y == cb.y);
    }
    assert(a.cells@ =~= b.cells@);
    assert forall|j: int|
        0 <= j < a.entanglement.pairs@.len() implies a.entanglement.pairs@[j]
        == b.entanglement.pairs@[j] by {
        let pa = a.entanglement.pairs@[j];
        let pb = b.entanglement.pairs@[j];
        assert(pa.left == pb.left && pa.right == pb.right && pa.strength == pb.strength);
        if pa.link_type != LinkType::BellState {
            assert(pa.link_type == LinkType::Probabilistic);
        }
        if pb.link_type != LinkType::BellState {
            assert(pb.link_type == LinkType::Probabilistic);
        }
    }
    assert(a.entanglement.pairs@ =~= b.entanglement.pairs@);
    assert forall|i: int| 0 <= i < a.mine_map@.len() implies a.mine_map@[i] == b.mine_map@[i] by {
        assert(!a.mine_map@[i] && !b.mine_map@[i]);
    }
    assert(a.mine_map@ =~= b.mine_map@);
}

/// Entropy never increases: if an action leaves at most as many unresolved
/// cells on a grid of the same size, the entropy fraction is at most what it
/// was.
pub proof fn lemma_entropy_nonincreasing(g0: QuantumGrid, g1: QuantumGrid)
    requires
        g0.cells@.len() == g1.cells@.len(),
        g0.cells@.len() >= 1,
        count_sup(g1.cells@) <= count_sup(g0.cells@),
    ensures
        g1.spec_entropy() <= g0.spec_entropy(),
{
    let len = g0.cells@.len() as int;
    let c0 = count_sup(g0.cells@);
    let c1 = count_sup(g1.cells@);
    assert(c1 * (PROB_UNIT as int) <= c0 * (PROB_UNIT as int)) by (nonlinear_arith)
        requires
            c1 <= c0,
    ;
    assert((c1 * (PROB_UNIT as int)) / len <= (c0 * (PROB_UNIT as int)) / len)
        by (nonlinear_arith)
        requires
            c1 * (PROB_UNIT as int) <= c0 * (PROB_UNIT as int),
            len >= 1,
    ;
}

/// The win condition holds exactly when entropy is zero and the game is not
/// over.
pub proof fn lemma_win_iff_entropy_zero(g: QuantumGrid)
    requires
        g.wf(),
    ensures
        (!g.game_over && count_sup(g.cells@) == 0) <==> (g.spec_entropy() == 0 && !g.game_over),
{
    let len = g.cells@.len() as int;
    let c = count_sup(g.cells@);
    lemma_count_bounds(g.cells@, |cl: QuantumCell| spec_is_sup(cl));
    if c == 0 {
        assert(g.spec_entropy() == 0);
    } else {
        assert(c * (PROB_UNIT as int) >= PROB_UNIT as int) by (nonlinear_arith)
            requires
                c >= 1,
        ;
        assert((c * (PROB_UNIT as int)) / len >= 1) by (nonlinear_arith)
            requires
                c * (PROB_UNIT as int) >= PROB_UNIT as int,
                1 <= len <= PROB_UNIT as int,
        ;
    }
}

/// Chain propagation: if the revealed cell is hard-linked to `b` and `b` to
/// `c`, and both were unresolved, revealing leaves none of the three in
/// superposition — chains (and cycles, which add further links) collapse all
/// the way through.
pub proof fn lemma_chain_resolution(
    g0: QuantumGrid,
    g1: QuantumGrid,
    x: u32,
    y: u32,
    r: RevealOutcome,
    b: usize,
    c: usize,
)
    requires
        g0.wf(),
        reveal_post(g0, g1, x, y, r),
        !g0.game_over,
        !g0.won,
        x < g0.width,
        y < g0.height,
        spec_is_sup(g0.cells@[g0.spec_index(x as int, y as int)]),
        b < g0.cells@.len(),
        c < g0.cells@.len(),
        spec_hard_linked(g0.entanglement.pairs@, (g0.spec_index(x as int, y as int)) as usize, b),
        spec_hard_linked(g0.entanglement.pairs@, b, c),
        spec_is_sup(g0.cells@[b as int]),
    ensures
        !spec_is_sup(g1.cells@[g0.spec_index(x as int, y as int)]),
        !spec_is_sup(g1.cells@[b as int]),
        !spec_is_sup(g1.cells@[c as int]),
{
    let idx = (g0.spec_index(x as int, y as int)) as usize;
    lemma_index_bound(x as int, y as int, g0.width as int, g0.height as int);
    let mid = choose|mid: Seq<QuantumCell>|
        {
            &&& mid.len() == g0.cells@.len()
            &&& forall|i: int|
                0 <= i < mid.len() && spec_is_sup(#[trigger] mid[i]) ==> spec_is_sup(
                    g0.cells@[i],
                )
            &&& !spec_is_sup(mid[idx as int])
            &&& forall|p: usize|
                p < mid.len() && #[trigger] spec_hard_linked(g0.entanglement.pairs@, idx, p)
                    ==> !spec_is_sup(mid[p as int])
            &&& forall|cc: usize, p: usize|
                cc < mid.len() && p < mid.len() && #[trigger] spec_hard_linked(
                    g0.entanglement.pairs@,
                    cc,
                    p,
                ) && spec_is_sup(g0.cells@[cc as int]) && !spec_is_sup(mid[cc as int])
                    ==> !spec_is_sup(mid[p as int])
            &&& forall|i: int|
                0 <= i < mid.len() && !spec_is_sup(#[trigger] mid[i]) ==> !spec_is_sup(
                    g1.cells@[i],
                )
        };
    assert(!spec_is_sup(mid[b as int]));
    assert(!spec_is_sup(mid[c as int]));
}

/// One flood step keeps the worklist invariants: after the popped cell's
/// neighborhood is expanded, every zero-count cell of the flood is either
/// fully expanded or still queued, and every revealed cell has a zero-count
/// flood neighbor.
#[verifier::spinoff_prover]
#[verifier::rlimit(100)]
proof fn lemma_flood_step(
    base: Seq<QuantumCell>,
    pre: Seq<QuantumCell>,
    now: Seq<QuantumCell>,
    stack_pre: Seq<(u32, u32)>,
    stack_now: Seq<(u32, u32)>,
    mines: Seq<bool>,
    wi: int,
    hi: int,
    start_idx: int,
    e: int,
)
    requires
        base.len() == pre.len(),
        pre.len() == now.len(),
        mines.len() == now.len(),
        1 <= wi,
        1 <= hi,
        0 <= start_idx < now.len(),
        0 <= e < now.len(),
        stack_pre.len() >= 1,
        e == (stack_pre[stack_pre.len() - 1].1 as int) * wi + stack_pre[stack_pre.len()
            - 1].0 as int,
        forall|j: int|
            0 <= j < stack_pre.len() ==> ((#[trigger] stack_pre[j]).1 as int) * wi
                + (stack_pre[j].0 as int) < now.len(),
        cells_evolve(base, pre),
        cells_evolve(pre, now),
        forall|n: int|
            0 <= n < now.len() && #[trigger] spec_cells_adjacent(wi, e, n) && !mines[n]
                ==> !spec_is_sup(now[n]),
        forall|i: int|
            0 <= i < now.len() && now[i] != pre[i] ==> !mines[i] && spec_cells_adjacent(wi, e, i),
        forall|i: int|
            0 <= i < now.len() && now[i] != pre[i] && (#[trigger] now[i]).state == (
            CellState::Revealed { adjacent_mines: 0u8 }) ==> on_stack_xy(stack_now, wi, i),
        forall|j: int| 0 <= j < stack_pre.len() - 1 ==> stack_now[j] == stack_pre[j],
        stack_now.len() >= stack_pre.len() - 1,
        pre[e].state == (CellState::Revealed { adjacent_mines: 0u8 }),
        pre[e] != base[e] || e == start_idx,
        pre[start_idx].state == (CellState::Revealed { adjacent_mines: 0u8 }),
        forall|i: int|
            0 <= i < pre.len() && pre[i] != base[i] ==> !spec_is_sup(#[trigger] pre[i]),
        forall|c: int|
            0 <= c < pre.len() && (#[trigger] pre[c]).state == (CellState::Revealed {
                adjacent_mines: 0u8,
            }) && (pre[c] != base[c] || c == start_idx) ==> (forall|n: int|
                0 <= n < pre.len() && #[trigger] spec_cells_adjacent(wi, c, n) && !mines[n]
                    ==> !spec_is_sup(pre[n])) || on_stack_xy(stack_pre, wi, c),
        forall|i: int|
            0 <= i < pre.len() && pre[i] != base[i] ==> !mines[i] && exists|nn: int|
                0 <= nn < pre.len() && #[trigger] spec_cells_adjacent(wi, nn, i) && pre[nn].state
                    == (CellState::Revealed { adjacent_mines: 0u8 }) && (pre[nn] != base[nn] || nn
                    == start_idx),
    ensures
        forall|c: int|
            0 <= c < now.len() && (#[trigger] now[c]).state == (CellState::Revealed {
                adjacent_mines: 0u8,
            }) && (now[c] != base[c] || c == start_idx) ==> (forall|n: int|
                0 <= n < now.len() && #[trigger] spec_cells_adjacent(wi, c, n) && !mines[n]
                    ==> !spec_is_sup(now[n])) || on_stack_xy(stack_now, wi, c),
        forall|i: int|
            0 <= i < now.len() && now[i] != base[i] ==> !mines[i] && exists|nn: int|
                0 <= nn < now.len() && #[trigger] spec_cells_adjacent(wi, nn, i) && now[nn].state
                    == (CellState::Revealed { adjacent_mines: 0u8 }) && (now[nn] != base[nn] || nn
                    == start_idx),
{
    assert forall|c: int|
        0 <= c < now.len() && (#[trigger] now[c]).state == (CellState::Revealed {
            adjacent_mines: 0u8,
        }) && (now[c] != base[c] || c == start_idx) implies (forall|n: int|
        0 <= n < now.len() && #[trigger] spec_cells_adjacent(wi, c, n) && !mines[n]
            ==> !spec_is_sup(now[n])) || on_stack_xy(stack_now, wi, c) by {
        if c != e {
            if pre[c] != base[c] || c == start_idx {
                assert(!spec_is_sup(pre[c]));
                assert(pre[c] == now[c]);
                if !(forall|n: int|
                    0 <= n < pre.len() && #[trigger] spec_cells_adjacent(wi, c, n) && !mines[n]
                        ==> !spec_is_sup(pre[n])) {
                    let j = choose|j: int|
                        0 <= j < stack_pre.len() && ((#[trigger] stack_pre[j]).1 as int) * wi
                            + stack_pre[j].0 as int == c;
                    assert(j != stack_pre.len() - 1);
                    assert(j < stack_pre.len() - 1);
                    assert(stack_now[j] == stack_pre[j]);
                    assert(on_stack_xy(stack_now, wi, c));
                }
            } else {
                assert(now[c] != pre[c]);
                assert(on_stack_xy(stack_now, wi, c));
            }
        }
    }
    assert forall|i: int|
        0 <= i < now.len() && now[i] != base[i] implies !mines[i] && exists|nn: int|
        0 <= nn < now.len() && #[trigger] spec_cells_adjacent(wi, nn, i) && now[nn].state == (
        CellState::Revealed { adjacent_mines: 0u8 }) && (now[nn] != base[nn] || nn == start_idx) by {
        if now[i] == pre[i] {
            let nn = choose|nn: int|
                0 <= nn < pre.len() && #[trigger] spec_cells_adjacent(wi, nn, i) && pre[nn].state
                    == (CellState::Revealed { adjacent_mines: 0u8 }) && (pre[nn] != base[nn] || nn
                    == start_idx);
            assert(now[nn] == pre[nn]);
        } else {
            assert(spec_cells_adjacent(wi, e, i));
            assert(now[e] == pre[e]);
        }
    }
}

/// A sequence of all-unresolved cells counts fully unresolved.
pub proof fn lemma_count_all_sup(cells: Seq<QuantumCell>)
    requires
        forall|i: int| 0 <= i < cells.len() ==> spec_is_sup(#[trigger] cells[i]),
    ensures
        count_sup(cells) == cells.len(),
    decreases cells.len(),
{
    if cells.len() > 0 {
        lemma_count_all_sup(cells.drop_last());
    }
}

} // verus!
