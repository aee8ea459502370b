//! Mathematical model of the cellular automaton.
//!
//! A grid of edge `size` is modelled as two flat sequences of ages (one per
//! buffer) together with the flag that says which buffer holds the current
//! generation.  A cell `(x, y, z)` lives at flat index `(x * size + y) * size + z`
//! of its buffer.  The transition rule, the sweep (`step`) and the laws that
//! relate them are all stated here, over this model alone.

use vstd::arithmetic::div_mod::{lemma_fundamental_div_mod, lemma_fundamental_div_mod_converse, lemma_mod_pos_bound};
use vstd::prelude::*;

verus! {

/// True when the coordinate triple lies inside a cubic grid of edge `size`.
pub open spec fn in_grid(size: int, x: int, y: int, z: int) -> bool {
    0 <= x < size && 0 <= y < size && 0 <= z < size
}

/// Flat index of cell `(x, y, z)` inside one buffer of a grid of edge `size`.
pub open spec fn idx3(size: int, x: int, y: int, z: int) -> int {
    (x * size + y) * size + z
}

/// First coordinate of the cell stored at flat index `i`.
pub open spec fn x_of(size: int, i: int) -> int {
    i / (size * size)
}

/// Second coordinate of the cell stored at flat index `i`.
pub open spec fn y_of(size: int, i: int) -> int {
    (i / size) % size
}

/// Third coordinate of the cell stored at flat index `i`.
pub open spec fn z_of(size: int, i: int) -> int {
    i % size
}

/// The Moore neighbourhood, clipped at the boundary: `(nx, ny, nz)` is a
/// neighbour of `(px, py, pz)` when it lies in the grid, differs by at most
/// one on every axis, and is not the position itself.  There is no wraparound.
pub open spec fn is_neighbor(size: int, px: int, py: int, pz: int, nx: int, ny: int, nz: int) -> bool {
    &&& in_grid(size, nx, ny, nz)
    &&& -1 <= nx - px <= 1
    &&& -1 <= ny - py <= 1
    &&& -1 <= nz - pz <= 1
    &&& !(nx == px && ny == py && nz == pz)
}

/// The deterministic demo seed: the eight corners of the unit sub-cube
/// `{0,1}^3` together with the far corner `(size-1, size-1, size-1)`.
pub open spec fn is_seed_pos(size: int, x: int, y: int, z: int) -> bool {
    (0 <= x <= 1 && 0 <= y <= 1 && 0 <= z <= 1)
        || (x == size - 1 && y == size - 1 && z == size - 1)
}

/// Abstract state of a grid: the edge length, the flag naming the buffer that
/// holds the current generation (`0` or `1`), and the two flat age buffers.
#[verifier::ext_equal]
pub struct GameView {
    pub size: int,
    pub active: int,
    pub buf0: Seq<usize>,
    pub buf1: Seq<usize>,
}

impl GameView {
    /// Well-formedness: the edge is at least 3, the flag names one of the two
    /// buffers, and each buffer holds exactly `size^3` ages.
    pub open spec fn wf(self) -> bool {
        &&& 3 <= self.size
        &&& 0 <= self.active <= 1
        &&& self.buf0.len() == self.size * self.size * self.size
        &&& self.buf1.len() == self.size * self.size * self.size
    }

    /// The buffer named by `b`.
    pub open spec fn buf(self, b: int) -> Seq<usize> {
        if b == 0 {
            self.buf0
        } else {
            self.buf1
        }
    }

    /// The buffer holding the current generation.
    pub open spec fn active_buf(self) -> Seq<usize> {
        self.buf(self.active)
    }

    /// The index of the buffer that the next sweep writes into.
    pub open spec fn inactive(self) -> int {
        1 - self.active
    }

    /// Age of cell `(x, y, z)` in buffer `b`.
    pub open spec fn cell(self, b: int, x: int, y: int, z: int) -> usize {
        self.buf(b)[idx3(self.size, x, y, z)]
    }

    /// A cell is alive when its age in the current generation is nonzero.
    pub open spec fn alive(self, x: int, y: int, z: int) -> bool {
        self.cell(self.active, x, y, z) > 0
    }

    /// The set of neighbours of `(x, y, z)` that are alive in the current
    /// generation.
    pub open spec fn live_neighbors(self, x: int, y: int, z: int) -> Set<(int, int, int)> {
        Set::new(
            |t: (int, int, int)|
                is_neighbor(self.size, x, y, z, t.0, t.1, t.2) && self.alive(t.0, t.1, t.2),
        )
    }

    /// How many neighbours of `(x, y, z)` are alive in the current generation.
    pub open spec fn live_neighbor_count(self, x: int, y: int, z: int) -> nat {
        self.live_neighbors(x, y, z).len()
    }

    /// The survival/birth rule of this project: a cell lives in the next
    /// generation exactly when it has between 2 and 4 live neighbours
    /// (inclusive).
    pub open spec fn will_live(self, x: int, y: int, z: int) -> bool {
        2 <= self.live_neighbor_count(x, y, z) <= 4
    }

    /// Next age of cell `(x, y, z)`: birth starts at 1, survival grows the
    /// age by one (saturating at the machine limit), anything else is death.
    /// Only the current generation's buffer is read.
    pub open spec fn next_age(self, x: int, y: int, z: int) -> usize {
        if self.will_live(x, y, z) {
            if self.alive(x, y, z) {
                if self.cell(self.active, x, y, z) == usize::MAX {
                    usize::MAX
                } else {
                    (self.cell(self.active, x, y, z) + 1) as usize
                }
            } else {
                1usize
            }
        } else {
            0usize
        }
    }

    /// `next_age` of the cell stored at flat index `i`.
    pub open spec fn next_age_flat(self, i: int) -> usize {
        self.next_age(x_of(self.size, i), y_of(self.size, i), z_of(self.size, i))
    }

    /// The whole buffer that one sweep writes: the next age of every cell.
    pub open spec fn next_buf(self) -> Seq<usize> {
        Seq::new((self.size * self.size * self.size) as nat, |i: int| self.next_age_flat(i))
    }

    /// One generation: the sweep fills the inactive buffer with the next ages
    /// while the previously active buffer is left untouched, then the flag is
    /// toggled.
    pub open spec fn step(self) -> GameView {
        GameView {
            size: self.size,
            active: 1 - self.active,
            buf0: if self.active == 0 {
                self.buf0
            } else {
                self.next_buf()
            },
            buf1: if self.active == 0 {
                self.next_buf()
            } else {
                self.buf1
            },
        }
    }

    /// `n` generations in a row.
    pub open spec fn step_n(self, n: nat) -> GameView
        decreases n,
    {
        if n == 0 {
            self
        } else {
            self.step_n((n - 1) as nat).step()
        }
    }
}

/// The grid state right after construction: flag on buffer 0, all ages zero.
pub open spec fn empty_view(size: int) -> GameView {
    GameView {
        size: size,
        active: 0,
        buf0: Seq::new((size * size * size) as nat, |i: int| 0usize),
        buf1: Seq::new((size * size * size) as nat, |i: int| 0usize),
    }
}

/// Bounds of the flat index: a cell of the grid lands strictly inside one
/// buffer, and the intermediate products of the index computation are bounded
/// by the buffer length.
pub proof fn lemma_idx3_bounds(size: int, x: int, y: int, z: int)
    by (nonlinear_arith)
    requires
        1 <= size,
        in_grid(size, x, y, z),
    ensures
        0 <= x * size + y < size * size,
        0 <= (x * size + y) * size + z < size * size * size,
        size * size <= size * size * size,
{
}

/// The coordinates can be read back from the flat index: `x_of`, `y_of` and
/// `z_of` invert `idx3` on the grid.  In particular `idx3` is injective.
pub proof fn lemma_coords_of_idx3(size: int, x: int, y: int, z: int)
    requires
        1 <= size,
        in_grid(size, x, y, z),
    ensures
        x_of(size, idx3(size, x, y, z)) == x,
        y_of(size, idx3(size, x, y, z)) == y,
        z_of(size, idx3(size, x, y, z)) == z,
{
    let n = idx3(size, x, y, z);
    lemma_idx3_bounds(size, x, y, z);
    lemma_fundamental_div_mod_converse(n, size, x * size + y, z);
    lemma_fundamental_div_mod_converse(x * size + y, size, x, y);
    assert(n == x * (size * size) + (y * size + z) && 0 <= y * size + z < size * size)
        by (nonlinear_arith)
        requires
            1 <= size,
            in_grid(size, x, y, z),
            n == (x * size + y) * size + z,
    ;
    lemma_fundamental_div_mod_converse(n, size * size, x, y * size + z);
}

/// Every flat index of a buffer stores a cell of the grid: the decoded
/// coordinates are in range and encode back to the same index.
pub proof fn lemma_flat_decomp(size: int, i: int)
    requires
        1 <= size,
        0 <= i < size * size * size,
    ensures
        in_grid(size, x_of(size, i), y_of(size, i), z_of(size, i)),
        idx3(size, x_of(size, i), y_of(size, i), z_of(size, i)) == i,
{
    let q = i / size;
    let r = i % size;
    lemma_fundamental_div_mod(i, size);
    lemma_mod_pos_bound(i, size);
    assert(0 <= q < size * size) by (nonlinear_arith)
        requires
            1 <= size,
            0 <= i < size * size * size,
            i == size * q + r,
            0 <= r < size,
    ;
    lemma_fundamental_div_mod(q, size);
    lemma_mod_pos_bound(q, size);
    let x = q / size;
    let y = q % size;
    assert(0 <= x < size) by (nonlinear_arith)
        requires
            1 <= size,
            0 <= q < size * size,
            q == size * x + y,
            0 <= y < size,
    ;
    assert(i == x * (size * size) + (y * size + r) && 0 <= y * size + r < size * size)
        by (nonlinear_arith)
        requires
            1 <= size,
            q == size * x + y,
            i == size * q + r,
            0 <= y < size,
            0 <= r < size,
    ;
    lemma_fundamental_div_mod_converse(i, size * size, x, y * size + r);
    assert(i == (x * size + y) * size + r) by (nonlinear_arith)
        requires
            q == size * x + y,
            i == size * q + r,
    ;
}

/// Stepping the flat index: finishing a row continues at the start of the
/// next row, and finishing a plane continues at the start of the next plane.
pub proof fn lemma_idx3_step(size: int, x: int, y: int)
    by (nonlinear_arith)
    requires
        1 <= size,
    ensures
        idx3(size, x, y, size) == idx3(size, x, y + 1, 0),
        idx3(size, x, size, 0) == idx3(size, x + 1, 0, 0),
        idx3(size, size, 0, 0) == size * size * size,
{
}

/// The next age of a cell depends only on the current generation: two states
/// with the same size, the same flag and the same active buffer assign every
/// cell the same next age, whatever their inactive buffers hold.
pub proof fn lemma_next_age_active_only(v1: GameView, v2: GameView, x: int, y: int, z: int)
    requires
        v1.size == v2.size,
        v1.active == v2.active,
        v1.active_buf() == v2.active_buf(),
        in_grid(v1.size, x, y, z),
    ensures
        v1.next_age(x, y, z) == v2.next_age(x, y, z),
{
    assert(v1.live_neighbors(x, y, z) =~= v2.live_neighbors(x, y, z));
    assert(v1.live_neighbor_count(x, y, z) == v2.live_neighbor_count(x, y, z));
}

/// One generation preserves well-formedness.
pub proof fn lemma_step_wf(v: GameView)
    requires
        v.wf(),
    ensures
        v.step().wf(),
{
}

/// Any number of generations preserves well-formedness.
pub proof fn lemma_step_n_wf(v: GameView, n: nat)
    requires
        v.wf(),
    ensures
        v.step_n(n).wf(),
    decreases n,
{
    if n > 0 {
        lemma_step_n_wf(v, (n - 1) as nat);
        lemma_step_wf(v.step_n((n - 1) as nat));
    }
}

/// Buffer-flip correctness: one generation leaves the buffer that was active
/// during the sweep untouched, makes the other buffer the active one, and
/// fills it with exactly the ages that the transition rule computed against
/// the pre-sweep snapshot.
pub proof fn lemma_buffer_flip(v: GameView)
    requires
        v.wf(),
    ensures
        v.step().active == 1 - v.active,
        v.step().buf(v.active) == v.buf(v.active),
        v.step().active_buf() == v.next_buf(),
        forall|x: int, y: int, z: int|
            in_grid(v.size, x, y, z) ==> #[trigger] v.step().cell(1 - v.active, x, y, z)
                == v.next_age(x, y, z),
{
    assert forall|x: int, y: int, z: int| in_grid(v.size, x, y, z) implies #[trigger] v.step().cell(
        1 - v.active,
        x,
        y,
        z,
    ) == v.next_age(x, y, z) by {
        lemma_idx3_bounds(v.size, x, y, z);
        lemma_coords_of_idx3(v.size, x, y, z);
    }
}

/// Determinism of the evolution: two well-formed grids of the same size that
/// hold the same current generation keep holding the same current generation
/// after any number of steps.  There is no hidden input to the rule.
pub proof fn lemma_deterministic(v1: GameView, v2: GameView, n: nat)
    requires
        v1.wf(),
        v2.wf(),
        v1.size == v2.size,
        v1.active == v2.active,
        v1.active_buf() == v2.active_buf(),
    ensures
        v1.step_n(n).size == v2.step_n(n).size,
        v1.step_n(n).active == v2.step_n(n).active,
        v1.step_n(n).active_buf() == v2.step_n(n).active_buf(),
    decreases n,
{
    if n > 0 {
        lemma_deterministic(v1, v2, (n - 1) as nat);
        let w1 = v1.step_n((n - 1) as nat);
        let w2 = v2.step_n((n - 1) as nat);
        lemma_step_n_wf(v1, (n - 1) as nat);
        lemma_step_n_wf(v2, (n - 1) as nat);
        assert(w1.next_buf() =~= w2.next_buf()) by {
            assert forall|i: int| 0 <= i < w1.size * w1.size * w1.size implies w1.next_age_flat(
                i,
            ) == w2.next_age_flat(i) by {
                lemma_flat_decomp(w1.size, i);
                lemma_next_age_active_only(
                    w1,
                    w2,
                    x_of(w1.size, i),
                    y_of(w1.size, i),
                    z_of(w1.size, i),
                );
            }
        }
    }
}

} // verus!
