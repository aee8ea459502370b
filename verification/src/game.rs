//! The executable engine: the grid with its two age buffers, the neighbour
//! enumeration, the transition rule and the generation sweep.

use crate::model::{
    empty_view, idx3, in_grid, is_neighbor, is_seed_pos, lemma_coords_of_idx3, lemma_idx3_bounds,
    lemma_idx3_step, lemma_next_age_active_only, GameView,
};
use vstd::prelude::*;

verus! {

/// A cell position in the game space.  Every coordinate of a position handed
/// to the engine lies in `[0, size)`.
#[derive(Clone, Copy, Debug, PartialEq, Eq, Structural)]
pub struct Position {
    pub x: usize,
    pub y: usize,
    pub z: usize,
}

/// Main game structure: the edge length, the two age buffers, and the flag
/// naming the buffer that holds the current generation.
///
/// The grid is a cube of `size^3` cells; cell `(x, y, z)` of a buffer lives
/// at flat index `(x * size + y) * size + z`.  One buffer is read, the other
/// is written, and the flag flips once per completed sweep.
#[derive(Clone, Debug, PartialEq)]
pub struct Game {
    pub size: usize,
    buf0: Vec<usize>,
    buf1: Vec<usize>,
    state: usize,
}

impl View for Game {
    type V = GameView;

    closed spec fn view(&self) -> GameView {
        GameView {
            size: self.size as int,
            active: self.state as int,
            buf0: self.buf0@,
            buf1: self.buf1@,
        }
    }
}

/// The coordinates of a position, as mathematical integers.
pub open spec fn pos_as_ints(p: Position) -> (int, int, int) {
    (p.x as int, p.y as int, p.z as int)
}

/// True when the position lies inside a grid of edge `size`.
pub open spec fn pos_in_grid(size: int, p: Position) -> bool {
    in_grid(size, p.x as int, p.y as int, p.z as int)
}

/// True when some entry of `s` holds the value `w`.
pub open spec fn seq_has_val(s: Seq<usize>, w: usize) -> bool {
    exists|j: int| 0 <= j < s.len() && s[j] == w
}

/// True when some entry of `s` is the position `(x, y, z)`.
pub open spec fn seq_has_coords(s: Seq<Position>, x: int, y: int, z: int) -> bool {
    exists|j: int| 0 <= j < s.len() && pos_as_ints(s[j]) == (x, y, z)
}

/// Lexicographic order on coordinate triples, first axis most significant.
pub open spec fn lex_lt(a: (int, int, int), b: (int, int, int)) -> bool {
    a.0 < b.0 || (a.0 == b.0 && (a.1 < b.1 || (a.1 == b.1 && a.2 < b.2)))
}

/// Order of a position against the first two axes of a candidate: strictly
/// earlier plane, or same plane and strictly earlier row.
pub open spec fn lex2_lt(p: Position, x: usize, y: usize) -> bool {
    p.x < x || (p.x == x && p.y < y)
}

/// The contract of a clipped per-axis candidate range around `v`: the entries
/// are exactly the grid coordinates within distance 1 of `v`, in strictly
/// increasing order.
pub open spec fn axis_range_ok(size: int, v: int, r: Seq<usize>) -> bool {
    &&& forall|j: int|
        #![trigger r[j]]
        0 <= j < r.len() ==> ((r[j] as int) < size && v - 1 <= (r[j] as int) <= v + 1)
    &&& forall|w: usize|
        #![trigger seq_has_val(r, w)]
        ((w as int) < size && v - 1 <= (w as int) <= v + 1) ==> seq_has_val(r, w)
    &&& forall|j: int, k: int| #![trigger r[j], r[k]] 0 <= j < k < r.len() ==> r[j] < r[k]
}

/// Every entry of `s` is a neighbour of `(px, py, pz)`, and the entries are in
/// strictly increasing lexicographic order (so no entry repeats).
pub open spec fn neighbor_list_ok(size: int, px: int, py: int, pz: int, s: Seq<Position>) -> bool {
    &&& forall|j: int|
        #![trigger s[j]]
        0 <= j < s.len() ==> is_neighbor(size, px, py, pz, s[j].x as int, s[j].y as int, s[j].z as int)
    &&& forall|j: int, k: int|
        #![trigger s[j], s[k]]
        0 <= j < k < s.len() ==> lex_lt(pos_as_ints(s[j]), pos_as_ints(s[k]))
}

/// A value found in a prefix of `r` is still found in any longer prefix.
proof fn lemma_has_val_take_grow(r: Seq<usize>, i: int, i2: int, w: usize)
    requires
        0 <= i <= i2 <= r.len(),
        seq_has_val(r.take(i), w),
    ensures
        seq_has_val(r.take(i2), w),
{
    let j = choose|j: int| 0 <= j < r.take(i).len() && r.take(i)[j] == w;
    assert(r.take(i2)[j] == w);
}

/// Coordinates found in `s1` are found in any extension of `s1`.
proof fn lemma_coords_prefix(s1: Seq<Position>, s2: Seq<Position>, x: int, y: int, z: int)
    requires
        s1.len() <= s2.len(),
        forall|j: int| #![trigger s2[j]] 0 <= j < s1.len() ==> s2[j] == s1[j],
        seq_has_coords(s1, x, y, z),
    ensures
        seq_has_coords(s2, x, y, z),
{
    let j = choose|j: int| 0 <= j < s1.len() && pos_as_ints(s1[j]) == (x, y, z);
    assert(pos_as_ints(s2[j]) == (x, y, z));
}

/// In a strictly increasing sequence, a value drawn from the prefix before
/// slot `i` is below the value at slot `i`.
proof fn lemma_sorted_take_below(r: Seq<usize>, i: int, w: usize)
    requires
        forall|j: int, k: int| #![trigger r[j], r[k]] 0 <= j < k < r.len() ==> r[j] < r[k],
        0 <= i < r.len(),
        seq_has_val(r.take(i), w),
    ensures
        w < r[i],
{
    let j = choose|j: int| 0 <= j < r.take(i).len() && r.take(i)[j] == w;
    assert(r[j] == w && r[j] < r[i]);
}

/// One row of the enumeration: append, in order, every candidate `(x, y, z)`
/// with `z` drawn from the clipped range `rz`, skipping the query position.
#[verifier::loop_isolation(false)]
fn push_row(size: usize, pos: &Position, x: usize, y: usize, rz: &Vec<usize>, positions: &mut Vec<Position>)
    requires
        3 <= size,
        pos_in_grid(size as int, *pos),
        (x as int) < size,
        (y as int) < size,
        pos.x - 1 <= x as int <= pos.x + 1,
        pos.y - 1 <= y as int <= pos.y + 1,
        axis_range_ok(size as int, pos.z as int, rz@),
        neighbor_list_ok(size as int, pos.x as int, pos.y as int, pos.z as int, old(positions)@),
        forall|j: int|
            #![trigger old(positions)@[j]]
            0 <= j < old(positions)@.len() ==> lex2_lt(old(positions)@[j], x, y),
    ensures
        neighbor_list_ok(size as int, pos.x as int, pos.y as int, pos.z as int, final(positions)@),
        old(positions)@.len() <= final(positions)@.len(),
        forall|j: int|
            #![trigger final(positions)@[j]]
            0 <= j < old(positions)@.len() ==> final(positions)@[j] == old(positions)@[j],
        forall|j: int|
            #![trigger final(positions)@[j]]
            old(positions)@.len() <= j < final(positions)@.len() ==> (final(positions)@[j].x == x
                && final(positions)@[j].y == y),
        forall|nz: int|
            #![trigger is_neighbor(size as int, pos.x as int, pos.y as int, pos.z as int, x as int, y as int, nz)]
            is_neighbor(size as int, pos.x as int, pos.y as int, pos.z as int, x as int, y as int, nz)
                ==> seq_has_coords(final(positions)@, x as int, y as int, nz),
{
    let ghost px = pos.x as int;
    let ghost py = pos.y as int;
    let ghost pz = pos.z as int;
    for iz in 0..rz.len()
        invariant
            neighbor_list_ok(size as int, px, py, pz, positions@),
            old(positions)@.len() <= positions@.len(),
            forall|j: int|
                #![trigger positions@[j]]
                0 <= j < old(positions)@.len() ==> positions@[j] == old(positions)@[j],
            forall|j: int|
                #![trigger positions@[j]]
                old(positions)@.len() <= j < positions@.len() ==> (positions@[j].x == x
                    && positions@[j].y == y && seq_has_val(rz@.take(iz as int), positions@[j].z)),
            forall|nz: int|
                #![trigger is_neighbor(size as int, px, py, pz, x as int, y as int, nz)]
                is_neighbor(size as int, px, py, pz, x as int, y as int, nz) && seq_has_val(
                    rz@.take(iz as int),
                    nz as usize,
                ) ==> seq_has_coords(positions@, x as int, y as int, nz),
    {
        let ghost pre = positions@;
        let z = rz[iz];
        if !(x == pos.x && y == pos.y && z == pos.z) {
            proof {
                assert forall|j: int| 0 <= j < positions@.len() implies lex_lt(
                    pos_as_ints(positions@[j]),
                    (x as int, y as int, z as int),
                ) by {
                    if old(positions)@.len() <= j {
                        lemma_sorted_take_below(rz@, iz as int, positions@[j].z);
                    }
                }
            }
            let new_pos = Position { x, y, z };
            positions.push(new_pos);
        }
        proof {
            assert(rz@.take(iz as int + 1) =~= rz@.take(iz as int).push(z));
            assert forall|j: int|
                old(positions)@.len() <= j < positions@.len() implies (positions@[j].x == x
                && positions@[j].y == y && seq_has_val(
                rz@.take(iz as int + 1),
                positions@[j].z,
            )) by {
                if j < pre.len() {
                    lemma_has_val_take_grow(rz@, iz as int, iz as int + 1, positions@[j].z);
                } else {
                    assert(rz@.take(iz as int + 1)[iz as int] == z);
                }
            }
            assert forall|nz: int|
                is_neighbor(size as int, px, py, pz, x as int, y as int, nz) && seq_has_val(
                rz@.take(iz as int + 1),
                nz as usize,
            ) implies seq_has_coords(positions@, x as int, y as int, nz) by {
                if nz == z as int {
                    assert(!(x == pos.x && y == pos.y && z == pos.z));
                    assert(pos_as_ints(positions@[positions@.len() - 1]) == (
                        x as int,
                        y as int,
                        nz,
                    ));
                } else {
                    let jj = choose|jj: int|
                        0 <= jj < iz as int + 1 && #[trigger] rz@.take(iz as int + 1)[jj] == nz as usize;
                    assert(rz@.take(iz as int)[jj] == nz as usize);
                    assert(seq_has_coords(pre, x as int, y as int, nz));
                    lemma_coords_prefix(pre, positions@, x as int, y as int, nz);
                }
            }
        }
    }
    proof {
        assert(rz@.take(rz@.len() as int) =~= rz@);
        assert forall|nz: int|
            is_neighbor(size as int, px, py, pz, x as int, y as int, nz) implies seq_has_coords(
            positions@,
            x as int,
            y as int,
            nz,
        ) by {
            assert(seq_has_val(rz@, nz as usize));
        }
    }
}

/// One plane of the enumeration: append, in order, every candidate row
/// `(x, y, _)` with `y` drawn from the clipped range `ry`.
#[verifier::loop_isolation(false)]
fn push_plane(size: usize, pos: &Position, x: usize, ry: &Vec<usize>, rz: &Vec<usize>, positions: &mut Vec<Position>)
    requires
        3 <= size,
        pos_in_grid(size as int, *pos),
        (x as int) < size,
        pos.x - 1 <= x as int <= pos.x + 1,
        axis_range_ok(size as int, pos.y as int, ry@),
        axis_range_ok(size as int, pos.z as int, rz@),
        neighbor_list_ok(size as int, pos.x as int, pos.y as int, pos.z as int, old(positions)@),
        forall|j: int|
            #![trigger old(positions)@[j]]
            0 <= j < old(positions)@.len() ==> old(positions)@[j].x < x,
    ensures
        neighbor_list_ok(size as int, pos.x as int, pos.y as int, pos.z as int, final(positions)@),
        old(positions)@.len() <= final(positions)@.len(),
        forall|j: int|
            #![trigger final(positions)@[j]]
            0 <= j < old(positions)@.len() ==> final(positions)@[j] == old(positions)@[j],
        forall|j: int|
            #![trigger final(positions)@[j]]
            old(positions)@.len() <= j < final(positions)@.len() ==> final(positions)@[j].x == x,
        forall|ny: int, nz: int|
            #![trigger is_neighbor(size as int, pos.x as int, pos.y as int, pos.z as int, x as int, ny, nz)]
            is_neighbor(size as int, pos.x as int, pos.y as int, pos.z as int, x as int, ny, nz)
                ==> seq_has_coords(final(positions)@, x as int, ny, nz),
{
    let ghost px = pos.x as int;
    let ghost py = pos.y as int;
    let ghost pz = pos.z as int;
    for iy in 0..ry.len()
        invariant
            neighbor_list_ok(size as int, px, py, pz, positions@),
            old(positions)@.len() <= positions@.len(),
            forall|j: int|
                #![trigger positions@[j]]
                0 <= j < old(positions)@.len() ==> positions@[j] == old(positions)@[j],
            forall|j: int|
                #![trigger positions@[j]]
                old(positions)@.len() <= j < positions@.len() ==> (positions@[j].x == x
                    && seq_has_val(ry@.take(iy as int), positions@[j].y)),
            forall|ny: int, nz: int|
                #![trigger is_neighbor(size as int, px, py, pz, x as int, ny, nz)]
                is_neighbor(size as int, px, py, pz, x as int, ny, nz) && seq_has_val(
                    ry@.take(iy as int),
                    ny as usize,
                ) ==> seq_has_coords(positions@, x as int, ny, nz),
    {
        let ghost pre = positions@;
        let y = ry[iy];
        proof {
            assert forall|j: int| 0 <= j < positions@.len() implies lex2_lt(
                positions@[j],
                x,
                y,
            ) by {
                if old(positions)@.len() <= j {
                    lemma_sorted_take_below(ry@, iy as int, positions@[j].y);
                }
            }
        }
        push_row(size, pos, x, y, rz, positions);
        proof {
            assert(ry@.take(iy as int + 1) =~= ry@.take(iy as int).push(y));
            assert forall|j: int|
                old(positions)@.len() <= j < positions@.len() implies (positions@[j].x == x
                && seq_has_val(ry@.take(iy as int + 1), positions@[j].y)) by {
                if j < pre.len() {
                    lemma_has_val_take_grow(ry@, iy as int, iy as int + 1, positions@[j].y);
                } else {
                    assert(ry@.take(iy as int + 1)[iy as int] == y);
                }
            }
            assert forall|ny: int, nz: int|
                is_neighbor(size as int, px, py, pz, x as int, ny, nz) && seq_has_val(
                ry@.take(iy as int + 1),
                ny as usize,
            ) implies seq_has_coords(positions@, x as int, ny, nz) by {
                if ny == y as int {
                } else {
                    let jj = choose|jj: int|
                        0 <= jj < iy as int + 1 && #[trigger] ry@.take(iy as int + 1)[jj] == ny as usize;
                    assert(ry@.take(iy as int)[jj] == ny as usize);
                    assert(seq_has_coords(pre, x as int, ny, nz));
                    lemma_coords_prefix(pre, positions@, x as int, ny, nz);
                }
            }
        }
    }
    proof {
        assert(ry@.take(ry@.len() as int) =~= ry@);
        assert forall|ny: int, nz: int|
            is_neighbor(size as int, px, py, pz, x as int, ny, nz) implies seq_has_coords(
            positions@,
            x as int,
            ny,
            nz,
        ) by {
            assert(seq_has_val(ry@, ny as usize));
        }
    }
}

/// A buffer of `n` cells, all dead.
fn zero_buffer(n: usize) -> (v: Vec<usize>)
    ensures
        v@ == Seq::new(n as nat, |i: int| 0usize),
{
    let mut v: Vec<usize> = Vec::new();
    for j in 0..n
        invariant
            v@.len() == j,
            forall|i: int| 0 <= i < j ==> v@[i] == 0usize,
    {
        v.push(0);
    }
    proof {
        assert(v@ =~= Seq::new(n as nat, |i: int| 0usize));
    }
    v
}

impl Game {
    /// Flat index of `pos` inside one buffer.
    fn index_of(&self, pos: &Position) -> (i: usize)
        requires
            self@.wf(),
            pos_in_grid(self@.size, *pos),
        ensures
            i as int == idx3(self@.size, pos.x as int, pos.y as int, pos.z as int),
            i < self@.buf0.len(),
            i < self@.buf1.len(),
    {
        proof {
            lemma_idx3_bounds(self@.size, pos.x as int, pos.y as int, pos.z as int);
        }
        // the buffer length carries the fact that size^3 fits the machine
        let _cells = self.buf0.len();
        (pos.x * self.size + pos.y) * self.size + pos.z
    }

    /// Age of the cell at `pos` in the buffer named by `buffer`.
    pub fn read(&self, pos: &Position, buffer: usize) -> (age: usize)
        requires
            self@.wf(),
            pos_in_grid(self@.size, *pos),
            buffer < 2,
        ensures
            age == self@.cell(buffer as int, pos.x as int, pos.y as int, pos.z as int),
    {
        let i = self.index_of(pos);
        if buffer == 0 {
            self.buf0[i]
        } else {
            self.buf1[i]
        }
    }

    /// Overwrite the age of the cell at `pos` in the buffer named by
    /// `buffer`; no other cell and no other buffer changes.
    pub fn write(&mut self, pos: &Position, buffer: usize, age: usize)
        requires
            old(self)@.wf(),
            pos_in_grid(old(self)@.size, *pos),
            buffer < 2,
        ensures
            final(self)@.wf(),
            final(self)@.size == old(self)@.size,
            final(self)@.active == old(self)@.active,
            final(self)@.buf(buffer as int) == old(self)@.buf(buffer as int).update(
                idx3(old(self)@.size, pos.x as int, pos.y as int, pos.z as int),
                age,
            ),
            final(self)@.buf(1 - buffer as int) == old(self)@.buf(1 - buffer as int),
    {
        let i = self.index_of(pos);
        if buffer == 0 {
            self.buf0.set(i, age);
        } else {
            self.buf1.set(i, age);
        }
    }

    /// Index of the buffer holding the current generation.
    pub fn current_state(&self) -> (b: usize)
        requires
            self@.wf(),
        ensures
            b as int == self@.active,
    {
        self.state
    }

    /// Index of the buffer that the next sweep writes into.
    pub fn next_state(&self) -> (b: usize)
        requires
            self@.wf(),
        ensures
            b as int == self@.inactive(),
    {
        if self.state == 0 {
            1
        } else {
            0
        }
    }

    /// Flip which buffer holds the current generation.  Called exactly once
    /// per completed sweep, never mid-sweep.
    pub fn swap_state(&mut self)
        requires
            old(self)@.wf(),
        ensures
            final(self)@ == (GameView { active: old(self)@.inactive(), ..old(self)@ }),
    {
        self.state = if self.state == 0 {
            1
        } else {
            0
        };
    }

    /// A cell is alive when its age in the current generation is nonzero.
    pub fn is_alive(&self, pos: &Position) -> (r: bool)
        requires
            self@.wf(),
            pos_in_grid(self@.size, *pos),
        ensures
            r == self@.alive(pos.x as int, pos.y as int, pos.z as int),
    {
        let b = self.current_state();
        self.read(pos, b) > 0
    }

    /// The survival/birth decision for `pos`: true exactly when between 2 and
    /// 4 of its neighbours (inclusive) are alive in the current generation.
    #[verifier::loop_isolation(false)]
    pub fn will_live(&self, pos: &Position) -> (r: bool)
        requires
            self@.wf(),
            pos_in_grid(self@.size, *pos),
        ensures
            r == self@.will_live(pos.x as int, pos.y as int, pos.z as int),
    {
        let ghost px = pos.x as int;
        let ghost py = pos.y as int;
        let ghost pz = pos.z as int;
        let mut count: usize = 0;
        let ns = self.neighbours_of(pos);
        let b = self.current_state();
        let ghost mut seen: Set<(int, int, int)> = Set::empty();
        for i in 0..ns.len()
            invariant
                seen.finite(),
                count == seen.len(),
                count <= i,
                forall|t: (int, int, int)| #[trigger]
                    seen.contains(t) ==> self@.live_neighbors(px, py, pz).contains(t),
                forall|t: (int, int, int)| #[trigger]
                    seen.contains(t) ==> exists|j: int|
                        0 <= j < i && pos_as_ints(ns@[j]) == t,
                forall|j: int|
                    #![trigger ns@[j]]
                    0 <= j < i && self@.alive(
                        ns@[j].x as int,
                        ns@[j].y as int,
                        ns@[j].z as int,
                    ) ==> seen.contains(pos_as_ints(ns@[j])),
        {
            let n = ns[i];
            if self.read(&n, b) > 0 {
                proof {
                    let t = pos_as_ints(n);
                    if seen.contains(t) {
                        let j = choose|j: int| 0 <= j < i && pos_as_ints(ns@[j]) == t;
                        assert(lex_lt(pos_as_ints(ns@[j]), pos_as_ints(ns@[i as int])));
                        assert(false);
                    }
                    seen = seen.insert(t);
                }
                count = count + 1;
            }
        }
        proof {
            assert(seen =~= self@.live_neighbors(px, py, pz)) by {
                assert forall|t: (int, int, int)|
                    self@.live_neighbors(px, py, pz).contains(t) implies seen.contains(t) by {
                    assert(is_neighbor(self@.size, px, py, pz, t.0, t.1, t.2));
                    assert(seq_has_coords(ns@, t.0, t.1, t.2));
                    let j = choose|j: int| 0 <= j < ns@.len() && pos_as_ints(ns@[j]) == t;
                    assert(self@.alive(ns@[j].x as int, ns@[j].y as int, ns@[j].z as int));
                }
            }
        }
        if count < 2 || count > 4 {
            false
        } else {
            true
        }
    }

    /// Next age of the cell at `pos`, read against the current generation:
    /// 1 on birth, one more than the current age on survival (saturating at
    /// the machine limit), 0 otherwise.
    pub fn get_next_state(&self, pos: &Position) -> (r: usize)
        requires
            self@.wf(),
            pos_in_grid(self@.size, *pos),
        ensures
            r == self@.next_age(pos.x as int, pos.y as int, pos.z as int),
    {
        if self.will_live(pos) && !self.is_alive(pos) {
            1
        } else if self.will_live(pos) && self.is_alive(pos) {
            let b = self.current_state();
            let age = self.read(pos, b);
            if age == usize::MAX {
                age
            } else {
                age + 1
            }
        } else {
            0
        }
    }
}

/// Public game interface: construction, seeding, stepping, and the read
/// surface of the engine.
pub trait Life: View<V = GameView> + Sized {
    /// Create an empty game cube with a given edge `size` (minimum 3): both
    /// buffers all dead, flag on buffer 0.  Fails on any `size < 3` and on
    /// nothing else.
    fn with_dimension<'a>(size: usize) -> (r: Result<Game, &'a str>)
        requires
            size < 3 || size * size * size <= usize::MAX,
        ensures
            3 <= size ==> (r matches Ok(g) && g@ == empty_view(size as int)),
            size < 3 ==> (r matches Err(m) && m@ == "Too small board! Should be 3 or more."@),
    ;

    /// Same construction, reporting failure as `None`.
    fn new(size: usize) -> (r: Option<Game>)
        requires
            size < 3 || size * size * size <= usize::MAX,
        ensures
            3 <= size ==> (r matches Some(g) && g@ == empty_view(size as int)),
            size < 3 ==> r is None,
    ;

    /// Seed the demo pattern, writing into buffer 0 only: age 1 at the eight
    /// corners of the unit sub-cube `{0,1}^3` and at the far corner
    /// `(size-1, size-1, size-1)`; every other cell keeps its age.
    fn init(&mut self)
        requires
            old(self)@.wf(),
        ensures
            final(self)@.wf(),
            final(self)@.size == old(self)@.size,
            final(self)@.active == old(self)@.active,
            final(self)@.buf1 == old(self)@.buf1,
            forall|a: int, b: int, c: int|
                #![trigger final(self)@.cell(0, a, b, c)]
                in_grid(old(self)@.size, a, b, c) ==> final(self)@.cell(0, a, b, c) == (
                if is_seed_pos(old(self)@.size, a, b, c) {
                    1usize
                } else {
                    old(self)@.cell(0, a, b, c)
                }),
    ;

    /// One full generation: for every position, compute the next age against
    /// the buffer that is active at the start of the sweep and write it into
    /// the inactive buffer; only after the whole sweep, flip the flag.
    fn next(&mut self)
        requires
            old(self)@.wf(),
        ensures
            final(self)@ == old(self)@.step(),
    ;

    /// Next age of the cell at `(x, y, z)`, read against the current
    /// generation; the same value that the coming sweep will write there.
    fn get_future_state(&self, x: usize, y: usize, z: usize) -> (r: usize)
        requires
            self@.wf(),
            in_grid(self@.size, x as int, y as int, z as int),
        ensures
            r == self@.next_age(x as int, y as int, z as int),
    ;

    /// The clipped Moore neighbourhood of `pos`: the Cartesian product of the
    /// three per-axis candidate ranges, minus `pos` itself, enumerated in
    /// axis-major ascending order.  The result holds exactly the neighbours
    /// of `pos`, each exactly once, in strictly increasing lexicographic
    /// order.
    fn neighbours_of(&self, pos: &Position) -> (r: Vec<Position>)
        requires
            self@.wf(),
            pos_in_grid(self@.size, *pos),
        ensures
            neighbor_list_ok(self@.size, pos.x as int, pos.y as int, pos.z as int, r@),
            forall|nx: int, ny: int, nz: int|
                #![trigger is_neighbor(self@.size, pos.x as int, pos.y as int, pos.z as int, nx, ny, nz)]
                #![trigger seq_has_coords(r@, nx, ny, nz)]
                is_neighbor(self@.size, pos.x as int, pos.y as int, pos.z as int, nx, ny, nz)
                    ==> seq_has_coords(r@, nx, ny, nz),
    ;

    /// The candidate coordinates `{v-1, v, v+1}` clipped to `[0, size)`, in
    /// increasing order: exactly the values within distance 1 of `v` that lie
    /// in the grid.
    fn get_range(&self, v: usize) -> (r: Vec<usize>)
        requires
            self@.wf(),
            (v as int) < self@.size,
        ensures
            axis_range_ok(self@.size, v as int, r@),
    ;
}

impl Life for Game {
    fn with_dimension<'a>(size: usize) -> (r: Result<Game, &'a str>)
    {
        if size < 3 {
            return Err("Too small board! Should be 3 or more.");
        }
        proof {
            assert(size * size <= size * size * size) by (nonlinear_arith)
                requires
                    3 <= size,
            ;
        }
        let cells = (size * size) * size;
        let game = Game { size, buf0: zero_buffer(cells), buf1: zero_buffer(cells), state: 0 };
        proof {
            assert(game@ =~= empty_view(size as int));
        }
        Ok(game)
    }

    fn new(size: usize) -> (r: Option<Game>)
    {
        match Game::with_dimension(size) {
            Ok(game) => Some(game),
            Err(_) => None,
        }
    }

    fn init(&mut self)
    {
        let ghost size = self@.size;
        self.write(&Position { x: 0, y: 0, z: 0 }, 0, 1);
        self.write(&Position { x: 0, y: 0, z: 1 }, 0, 1);
        self.write(&Position { x: 0, y: 1, z: 0 }, 0, 1);
        self.write(&Position { x: 0, y: 1, z: 1 }, 0, 1);
        self.write(&Position { x: 1, y: 0, z: 0 }, 0, 1);
        self.write(&Position { x: 1, y: 0, z: 1 }, 0, 1);
        self.write(&Position { x: 1, y: 1, z: 0 }, 0, 1);
        self.write(&Position { x: 1, y: 1, z: 1 }, 0, 1);
        let far = self.size - 1;
        self.write(&Position { x: far, y: far, z: far }, 0, 1);
        proof {
            lemma_idx3_bounds(size, 0, 0, 0);
            lemma_idx3_bounds(size, 0, 0, 1);
            lemma_idx3_bounds(size, 0, 1, 0);
            lemma_idx3_bounds(size, 0, 1, 1);
            lemma_idx3_bounds(size, 1, 0, 0);
            lemma_idx3_bounds(size, 1, 0, 1);
            lemma_idx3_bounds(size, 1, 1, 0);
            lemma_idx3_bounds(size, 1, 1, 1);
            lemma_idx3_bounds(size, size - 1, size - 1, size - 1);
            lemma_coords_of_idx3(size, 0, 0, 0);
            lemma_coords_of_idx3(size, 0, 0, 1);
            lemma_coords_of_idx3(size, 0, 1, 0);
            lemma_coords_of_idx3(size, 0, 1, 1);
            lemma_coords_of_idx3(size, 1, 0, 0);
            lemma_coords_of_idx3(size, 1, 0, 1);
            lemma_coords_of_idx3(size, 1, 1, 0);
            lemma_coords_of_idx3(size, 1, 1, 1);
            lemma_coords_of_idx3(size, size - 1, size - 1, size - 1);
            assert forall|a: int, b: int, c: int|
                in_grid(size, a, b, c) implies self@.cell(0, a, b, c) == (
            if is_seed_pos(size, a, b, c) {
                1usize
            } else {
                old(self)@.cell(0, a, b, c)
            }) by {
                lemma_coords_of_idx3(size, a, b, c);
                lemma_idx3_bounds(size, a, b, c);
            }
        }
    }

    #[verifier::loop_isolation(false)]
    fn next(&mut self)
    {
        let future_state = self.next_state();
        let size = self.size;
        proof {
            // the sweep starts with an empty written prefix
            assert(idx3(size as int, 0, 0, 0) == 0);
        }
        for x in 0..size
            invariant
                self@.wf(),
                self@.size == old(self)@.size,
                self@.active == old(self)@.active,
                self@.active_buf() == old(self)@.active_buf(),
                forall|i: int|
                    0 <= i < idx3(size as int, x as int, 0, 0) ==> #[trigger] self@.buf(
                        future_state as int,
                    )[i] == old(self)@.next_age_flat(i),
        {
            for y in 0..size
                invariant
                    x < size,
                    self@.wf(),
                    self@.size == old(self)@.size,
                    self@.active == old(self)@.active,
                    self@.active_buf() == old(self)@.active_buf(),
                    forall|i: int|
                        0 <= i < idx3(size as int, x as int, y as int, 0) ==> #[trigger] self@.buf(
                            future_state as int,
                        )[i] == old(self)@.next_age_flat(i),
            {
                for z in 0..size
                    invariant
                        x < size,
                        y < size,
                        self@.wf(),
                        self@.size == old(self)@.size,
                        self@.active == old(self)@.active,
                        self@.active_buf() == old(self)@.active_buf(),
                        forall|i: int|
                            0 <= i < idx3(size as int, x as int, y as int, z as int)
                                ==> #[trigger] self@.buf(future_state as int)[i] == old(
                                self,
                            )@.next_age_flat(i),
                {
                    let p = Position { x, y, z };
                    let age = self.get_next_state(&p);
                    proof {
                        lemma_next_age_active_only(
                            self@,
                            old(self)@,
                            x as int,
                            y as int,
                            z as int,
                        );
                        lemma_coords_of_idx3(size as int, x as int, y as int, z as int);
                        lemma_idx3_bounds(size as int, x as int, y as int, z as int);
                    }
                    self.write(&p, future_state, age);
                }
                proof {
                    lemma_idx3_step(size as int, x as int, y as int);
                }
            }
            proof {
                lemma_idx3_step(size as int, x as int, 0);
            }
        }
        proof {
            lemma_idx3_step(size as int, 0, 0);
            assert(self@.buf(1 - old(self)@.active) =~= old(self)@.next_buf());
        }
        self.swap_state();
        proof {
            assert(self@ =~= old(self)@.step());
        }
    }

    fn get_future_state(&self, x: usize, y: usize, z: usize) -> (r: usize) {
        self.get_next_state(&Position { x, y, z })
    }

    #[verifier::loop_isolation(false)]
    fn neighbours_of(&self, pos: &Position) -> (r: Vec<Position>)
    {
        let ghost px = pos.x as int;
        let ghost py = pos.y as int;
        let ghost pz = pos.z as int;
        let size = self.size;
        let rx = self.get_range(pos.x);
        let ry = self.get_range(pos.y);
        let rz = self.get_range(pos.z);
        let mut positions: Vec<Position> = Vec::new();
        for ix in 0..rx.len()
            invariant
                neighbor_list_ok(size as int, px, py, pz, positions@),
                forall|j: int|
                    #![trigger positions@[j]]
                    0 <= j < positions@.len() ==> seq_has_val(
                        rx@.take(ix as int),
                        positions@[j].x,
                    ),
                forall|nx: int, ny: int, nz: int|
                    #![trigger is_neighbor(size as int, px, py, pz, nx, ny, nz)]
                    is_neighbor(size as int, px, py, pz, nx, ny, nz) && seq_has_val(
                        rx@.take(ix as int),
                        nx as usize,
                    ) ==> seq_has_coords(positions@, nx, ny, nz),
        {
            let ghost pre = positions@;
            let x = rx[ix];
            proof {
                assert forall|j: int| 0 <= j < positions@.len() implies positions@[j].x < x by {
                    lemma_sorted_take_below(rx@, ix as int, positions@[j].x);
                }
            }
            push_plane(size, pos, x, &ry, &rz, &mut positions);
            proof {
                assert(rx@.take(ix as int + 1) =~= rx@.take(ix as int).push(x));
                assert forall|j: int| 0 <= j < positions@.len() implies seq_has_val(
                    rx@.take(ix as int + 1),
                    positions@[j].x,
                ) by {
                    if j < pre.len() {
                        lemma_has_val_take_grow(rx@, ix as int, ix as int + 1, positions@[j].x);
                    } else {
                        assert(rx@.take(ix as int + 1)[ix as int] == x);
                    }
                }
                assert forall|nx: int, ny: int, nz: int|
                    is_neighbor(size as int, px, py, pz, nx, ny, nz) && seq_has_val(
                    rx@.take(ix as int + 1),
                    nx as usize,
                ) implies seq_has_coords(positions@, nx, ny, nz) by {
                    if nx == x as int {
                    } else {
                        let jj = choose|jj: int|
                            0 <= jj < ix as int + 1 && #[trigger] rx@.take(ix as int + 1)[jj] == nx as usize;
                        assert(rx@.take(ix as int)[jj] == nx as usize);
                        assert(seq_has_coords(pre, nx, ny, nz));
                        lemma_coords_prefix(pre, positions@, nx, ny, nz);
                    }
                }
            }
        }
        proof {
            assert(rx@.take(rx@.len() as int) =~= rx@);
            assert forall|nx: int, ny: int, nz: int|
                is_neighbor(size as int, px, py, pz, nx, ny, nz) implies seq_has_coords(
                positions@,
                nx,
                ny,
                nz,
            ) by {
                assert(seq_has_val(rx@, nx as usize));
            }
        }
        positions
    }

    fn get_range(&self, v: usize) -> (r: Vec<usize>)
    {
        let mut range: Vec<usize> = Vec::new();
        if v > 0 {
            range.push(v - 1);
        }
        range.push(v);
        if v + 1 < self.size {
            range.push(v + 1);
        }
        proof {
            assert forall|w: usize|
                (w as int) < self@.size && v - 1 <= (w as int) <= v + 1 implies #[trigger] seq_has_val(
                range@,
                w,
            ) by {
                if v > 0 && w as int == v - 1 {
                    assert(range@[0] == w);
                } else if w == v {
                    let j: int = if v > 0 {
                        1
                    } else {
                        0
                    };
                    assert(range@[j] == w);
                } else {
                    assert(w as int == v + 1 && v + 1 < self@.size);
                    let j: int = range@.len() - 1;
                    assert(range@[j] == w);
                }
            }
        }
        range
    }

}

} // verus!
