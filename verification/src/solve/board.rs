//! The immutable per-puzzle terrain: dimensions, cell flags and targets,
//! together with the row-major grid geometry.
//!
//! Cells are indexed `0 .. width * height`, row by row. Moving north
//! subtracts the width, south adds it, east adds one and west subtracts one;
//! each move fails at the corresponding edge of the grid.

use vstd::arithmetic::div_mod::*;
use vstd::prelude::*;

use super::cells::CellSet;
use super::cells::strictly_sorted;
use super::directions::Dir;
use super::directions::flip;
use super::puller::Puller;
use super::puller::lemma_pull_reach_space;
use super::puller::lemma_pull_refl;
use super::puller::pull_reach;
use super::puller::valid_from_targets;
use super::squares::Flags;

verus! {

/// The mathematical content of a board: what every contract speaks of.
#[verifier::ext_equal]
pub ghost struct BoardView {
    pub width: int,
    pub height: int,
    pub grid: Seq<Flags>,
    pub targets: Seq<usize>,
}

impl BoardView {
    /// The grid really is a `width` by `height` rectangle.
    pub open spec fn dims_ok(self) -> bool {
        &&& 1 <= self.width
        &&& 1 <= self.height
        &&& self.grid.len() == self.width * self.height
        &&& self.grid.len() < usize::MAX
    }

    /// Dimensions are consistent and every target is a distinct space cell.
    pub open spec fn wf(self) -> bool {
        &&& self.dims_ok()
        &&& strictly_sorted(self.targets)
        &&& forall|i: int|
            0 <= i < self.targets.len() ==> #[trigger] self.targets[i] < self.grid.len()
                && self.grid[self.targets[i] as int].spec_is_space()
    }

    /// The valid flags record exactly the pull analysis of this very
    /// terrain: a cell is flagged iff a crate there could still be brought
    /// to a target. Established by `Board::new` and never disturbed.
    pub open spec fn analysed(self) -> bool {
        forall|p: int|
            0 <= p < self.grid.len() ==> ((#[trigger] self.grid[p]).spec_is_valid()
                <==> super::puller::valid_from_targets(self, p))
    }

    /// Every target cell survived the pull analysis, so a crate may rest on
    /// it. Established by `Board::new` and never disturbed afterwards.
    pub open spec fn targets_valid(self) -> bool {
        forall|i: int|
            0 <= i < self.targets.len() ==> self.grid[#[trigger] self.targets[i] as int].spec_is_valid()
    }

    pub open spec fn in_bounds(self, pos: int) -> bool {
        0 <= pos < self.grid.len()
    }

    /// Target of a single move from `pos` in direction `dir`, or `None` when
    /// the move leaves the grid.
    pub open spec fn step1(self, pos: int, dir: Dir) -> Option<int> {
        match dir {
            Dir::North => if pos >= self.width {
                Some(pos - self.width)
            } else {
                None
            },
            Dir::South => if pos / self.width + 1 == self.height {
                None
            } else {
                Some(pos + self.width)
            },
            Dir::East => if (pos + 1) % self.width == 0 {
                None
            } else {
                Some(pos + 1)
            },
            Dir::West => if pos % self.width == 0 {
                None
            } else {
                Some(pos - 1)
            },
        }
    }

    /// Target of `n` successive moves from `pos` in direction `dir`; `None`
    /// as soon as any of them leaves the grid.
    pub open spec fn step_n(self, pos: int, dir: Dir, n: nat) -> Option<int>
        decreases n,
    {
        if n == 0 {
            Some(pos)
        } else {
            match self.step1(pos, dir) {
                Some(q) => self.step_n(q, dir, (n - 1) as nat),
                None => None,
            }
        }
    }

    /// One move stays inside the grid, lands on a different cell, and is
    /// undone by the opposite move.
    pub proof fn lemma_step1(self, pos: int, dir: Dir)
        requires
            self.dims_ok(),
            self.in_bounds(pos),
        ensures
            self.step1(pos, dir) matches Some(q) ==> self.in_bounds(q) && q != pos && self.step1(
                q,
                flip(dir),
            ) == Some(pos),
    {
        let w = self.width;
        let h = self.height;
        lemma_fundamental_div_mod(pos, w);
        lemma_mod_bound(pos, w);
        let d = pos / w;
        let r = pos % w;
        assert(w * d == d * w) by (nonlinear_arith);
        assert(d < h) by {
            if d >= h {
                assert(w * d >= w * h) by (nonlinear_arith)
                    requires
                        d >= h,
                        w >= 1,
                ;
            }
        }
        match dir {
            Dir::North => {
                if pos >= w {
                    let q = pos - w;
                    assert(w * (d - 1) == w * d - w) by (nonlinear_arith);
                    assert(q == w * (d - 1) + r);
                    lemma_fundamental_div_mod_converse(q, w, d - 1, r);
                    assert(q / w + 1 == d);
                    assert(d < h);
                }
            },
            Dir::South => {
                if d + 1 != h {
                    let q = pos + w;
                    assert(w * (d + 1) == w * d + w) by (nonlinear_arith);
                    assert(q == w * (d + 1) + r);
                    lemma_fundamental_div_mod_converse(q, w, d + 1, r);
                    assert(d + 1 <= h - 1);
                    assert(w * (d + 1) + r < w * h) by (nonlinear_arith)
                        requires
                            d + 1 <= h - 1,
                            0 <= r < w,
                    ;
                    assert(q >= w);
                }
            },
            Dir::East => {
                if (pos + 1) % w != 0 {
                    let q = pos + 1;
                    assert(r < w);
                    if r == w - 1 {
                        assert(w * (d + 1) == w * d + w) by (nonlinear_arith);
                        assert(q == w * (d + 1) + 0);
                        lemma_fundamental_div_mod_converse(q, w, d + 1, 0);
                        assert(q % w == 0);
                    }
                    assert(r < w - 1);
                    assert(q == w * d + (r + 1));
                    lemma_fundamental_div_mod_converse(q, w, d, r + 1);
                    assert(q % w == r + 1);
                    assert(q < self.grid.len()) by {
                        assert(w * d + w <= w * h ==> q < w * h);
                        assert(w * (d + 1) <= w * h) by (nonlinear_arith)
                            requires
                                d + 1 <= h,
                                w >= 1,
                        ;
                        assert(w * (d + 1) == w * d + w) by (nonlinear_arith);
                    }
                }
            },
            Dir::West => {
                if r != 0 {
                    let q = pos - 1;
                    assert(q == w * d + (r - 1));
                    lemma_fundamental_div_mod_converse(q, w, d, r - 1);
                    assert((q + 1) % w == r);
                }
            },
        }
    }

    /// A failed prefix never recovers: once `step_n` is `None`, longer walks
    /// are `None` too.
    pub proof fn lemma_step_n_none(self, pos: int, dir: Dir, n: nat)
        requires
            self.step_n(pos, dir, n) is None,
        ensures
            self.step_n(pos, dir, (n + 1) as nat) is None,
        decreases n,
    {
        if n > 0 {
            match self.step1(pos, dir) {
                Some(q) => {
                    self.lemma_step_n_none(q, dir, (n - 1) as nat);
                },
                None => {},
            }
        }
    }

    /// Once a walk has failed, every longer walk fails too.
    pub proof fn lemma_step_n_none_mono(self, pos: int, dir: Dir, n: nat, m: nat)
        requires
            self.step_n(pos, dir, n) is None,
            n <= m,
        ensures
            self.step_n(pos, dir, m) is None,
        decreases m - n,
    {
        if n < m {
            self.lemma_step_n_none(pos, dir, n);
            self.lemma_step_n_none_mono(pos, dir, (n + 1) as nat, m);
        }
    }

    /// Extending a successful walk by one move.
    pub proof fn lemma_step_n_snoc(self, pos: int, dir: Dir, n: nat, m: int)
        requires
            self.step_n(pos, dir, n) == Some(m),
        ensures
            self.step_n(pos, dir, (n + 1) as nat) == self.step1(m, dir),
        decreases n,
    {
        if n == 0 {
            assert(m == pos);
            match self.step1(pos, dir) {
                Some(q) => {
                    assert(self.step_n(q, dir, 0) == Some(q));
                    assert(self.step_n(pos, dir, 1) == Some(q));
                },
                None => {
                    assert(self.step_n(pos, dir, 1) is None);
                },
            }
        } else {
            let q = self.step1(pos, dir)->Some_0;
            assert(self.step1(pos, dir) is Some);
            self.lemma_step_n_snoc(q, dir, (n - 1) as nat, m);
            assert(self.step_n(pos, dir, (n + 1) as nat) == self.step_n(q, dir, n));
        }
    }

    /// Splitting the last move off a successful walk.
    pub proof fn lemma_step_n_unsnoc(self, pos: int, dir: Dir, n: nat)
        requires
            n >= 1,
            self.step_n(pos, dir, n) is Some,
        ensures
            self.step_n(pos, dir, (n - 1) as nat) is Some,
            self.step1(self.step_n(pos, dir, (n - 1) as nat)->Some_0, dir) == self.step_n(
                pos,
                dir,
                n,
            ),
    {
        match self.step_n(pos, dir, (n - 1) as nat) {
            Some(m) => {
                self.lemma_step_n_snoc(pos, dir, (n - 1) as nat, m);
            },
            None => {
                self.lemma_step_n_none(pos, dir, (n - 1) as nat);
            },
        }
    }

    /// A successful walk stays inside the grid.
    pub proof fn lemma_step_n_in_bounds(self, pos: int, dir: Dir, n: nat)
        requires
            self.dims_ok(),
            self.in_bounds(pos),
            self.step_n(pos, dir, n) is Some,
        ensures
            self.in_bounds(self.step_n(pos, dir, n)->Some_0),
        decreases n,
    {
        if n > 0 {
            self.lemma_step1(pos, dir);
            match self.step1(pos, dir) {
                Some(q) => {
                    self.lemma_step_n_in_bounds(q, dir, (n - 1) as nat);
                },
                None => {},
            }
        }
    }
}

/// A cell index wrapped as a one- or zero-element sequence, used to state
/// what the neighbour enumerations return.
pub open spec fn opt_cell_seq(o: Option<int>) -> Seq<usize> {
    match o {
        Some(q) => seq![q as usize],
        None => Seq::empty(),
    }
}

/// The immutable terrain of one puzzle.
#[derive(Debug)]
pub struct Board {
    pub width: usize,
    pub height: usize,
    pub grid: Vec<Flags>,
    pub targets: CellSet,
}

impl View for Board {
    type V = BoardView;

    open spec fn view(&self) -> BoardView {
        BoardView {
            width: self.width as int,
            height: self.height as int,
            grid: self.grid@,
            targets: self.targets@,
        }
    }
}

impl Board {
    /// An exact copy.
    pub fn duplicate(&self) -> (r: Self)
        ensures
            r@ == self@,
    {
        let r = Board {
            width: self.width,
            height: self.height,
            grid: self.grid.clone(),
            targets: self.targets.duplicate(),
        };
        proof {
            assert(r.grid@ =~= self.grid@);
            assert(r@ =~= self@);
        }
        r
    }

    /// The flags of the cell at `pos`.
    pub fn square_at(&self, pos: usize) -> (r: Flags)
        requires
            self@.in_bounds(pos as int),
        ensures
            r == self@.grid[pos as int],
    {
        self.grid[pos]
    }

    /// The cell north of `pos`, unless `pos` is in the top row.
    pub fn north(&self, pos: usize) -> (r: Option<usize>)
        requires
            self@.dims_ok(),
            self@.in_bounds(pos as int),
        ensures
            r is Some <==> self@.step1(pos as int, Dir::North) is Some,
            r matches Some(q) ==> self@.step1(pos as int, Dir::North) == Some(q as int)
                && self@.in_bounds(q as int),
    {
        proof {
            self@.lemma_step1(pos as int, Dir::North);
        }
        if pos >= self.width {
            Some(pos - self.width)
        } else {
            None
        }
    }

    /// The cell south of `pos`, unless `pos` is in the bottom row.
    pub fn south(&self, pos: usize) -> (r: Option<usize>)
        requires
            self@.dims_ok(),
            self@.in_bounds(pos as int),
        ensures
            r is Some <==> self@.step1(pos as int, Dir::South) is Some,
            r matches Some(q) ==> self@.step1(pos as int, Dir::South) == Some(q as int)
                && self@.in_bounds(q as int),
    {
        proof {
            self@.lemma_step1(pos as int, Dir::South);
        }
        if pos / self.width + 1 == self.height {
            None
        } else {
            Some(pos + self.width)
        }
    }

    /// The cell east of `pos`, unless `pos` is in the rightmost column.
    pub fn east(&self, pos: usize) -> (r: Option<usize>)
        requires
            self@.dims_ok(),
            self@.in_bounds(pos as int),
        ensures
            r is Some <==> self@.step1(pos as int, Dir::East) is Some,
            r matches Some(q) ==> self@.step1(pos as int, Dir::East) == Some(q as int)
                && self@.in_bounds(q as int),
    {
        proof {
            self@.lemma_step1(pos as int, Dir::East);
        }
        if (pos + 1) % self.width == 0 {
            None
        } else {
            Some(pos + 1)
        }
    }

    /// The cell west of `pos`, unless `pos` is in the leftmost column.
    pub fn west(&self, pos: usize) -> (r: Option<usize>)
        requires
            self@.dims_ok(),
            self@.in_bounds(pos as int),
        ensures
            r is Some <==> self@.step1(pos as int, Dir::West) is Some,
            r matches Some(q) ==> self@.step1(pos as int, Dir::West) == Some(q as int)
                && self@.in_bounds(q as int),
    {
        proof {
            self@.lemma_step1(pos as int, Dir::West);
        }
        if pos % self.width == 0 {
            None
        } else {
            Some(pos - 1)
        }
    }

    /// One move from `pos` in `dir`.
    pub fn step_one(&self, pos: usize, dir: Dir) -> (r: Option<usize>)
        requires
            self@.dims_ok(),
            self@.in_bounds(pos as int),
        ensures
            r is Some <==> self@.step1(pos as int, dir) is Some,
            r matches Some(q) ==> self@.step1(pos as int, dir) == Some(q as int)
                && self@.in_bounds(q as int),
    {
        match dir {
            Dir::North => self.north(pos),
            Dir::South => self.south(pos),
            Dir::East => self.east(pos),
            Dir::West => self.west(pos),
        }
    }

    /// Returns the position reached after moving `steps` cells in `dir`
    /// direction starting from `pos`, or `None` if any of the moves would
    /// leave the grid.
    pub fn step(&self, pos: usize, dir: Dir, steps: usize) -> (r: Option<usize>)
        requires
            self@.dims_ok(),
            self@.in_bounds(pos as int),
        ensures
            r is Some <==> self@.step_n(pos as int, dir, steps as nat) is Some,
            r matches Some(q) ==> self@.step_n(pos as int, dir, steps as nat) == Some(q as int)
                && self@.in_bounds(q as int),
    {
        let mut cur = pos;
        let mut k: usize = 0;
        while k < steps
            invariant
                self@.dims_ok(),
                k <= steps,
                self@.in_bounds(cur as int),
                self@.step_n(pos as int, dir, k as nat) == Some(cur as int),
            decreases steps - k,
        {
            proof {
                self@.lemma_step_n_snoc(pos as int, dir, k as nat, cur as int);
            }
            match self.step_one(cur, dir) {
                Some(q) => {
                    cur = q;
                },
                None => {
                    proof {
                        self@.lemma_step_n_none_mono(pos as int, dir, (k + 1) as nat, steps as nat);
                    }
                    return None;
                },
            }
            k = k + 1;
        }
        Some(cur)
    }

    /// Returns all the bordering positions around `pos` that are not out of
    /// bounds, in the order north, east, south, west.
    pub fn borders(&self, pos: usize) -> (v: Vec<usize>)
        requires
            self@.dims_ok(),
            self@.in_bounds(pos as int),
        ensures
            v@ =~= opt_cell_seq(self@.step1(pos as int, Dir::North)) + opt_cell_seq(
                self@.step1(pos as int, Dir::East),
            ) + opt_cell_seq(self@.step1(pos as int, Dir::South)) + opt_cell_seq(
                self@.step1(pos as int, Dir::West),
            ),
    {
        let mut v: Vec<usize> = Vec::new();
        if let Some(q) = self.north(pos) {
            v.push(q);
        }
        if let Some(q) = self.east(pos) {
            v.push(q);
        }
        if let Some(q) = self.south(pos) {
            v.push(q);
        }
        if let Some(q) = self.west(pos) {
            v.push(q);
        }
        v
    }

    /// Returns all the in-bounds positions around `pos`, each paired with
    /// the direction that reaches it, in the order north, east, south, west.
    pub fn borders_with_dirs(&self, pos: usize) -> (v: Vec<(Dir, usize)>)
        requires
            self@.dims_ok(),
            self@.in_bounds(pos as int),
        ensures
            forall|i: int|
                0 <= i < v@.len() ==> self@.step1(pos as int, (#[trigger] v@[i]).0) == Some(
                    v@[i].1 as int,
                ) && self@.in_bounds(v@[i].1 as int),
            forall|d: Dir|
                (#[trigger] self@.step1(pos as int, d)) is Some ==> exists|i: int|
                    0 <= i < v@.len() && (#[trigger] v@[i]).0 == d,
            v@.len() <= 4,
    {
        let mut v: Vec<(Dir, usize)> = Vec::new();
        if let Some(q) = self.north(pos) {
            v.push((Dir::North, q));
        }
        let ghost v_n = v@;
        if let Some(q) = self.east(pos) {
            v.push((Dir::East, q));
        }
        let ghost v_e = v@;
        if let Some(q) = self.south(pos) {
            v.push((Dir::South, q));
        }
        let ghost v_s = v@;
        if let Some(q) = self.west(pos) {
            v.push((Dir::West, q));
        }
        proof {
            assert forall|d: Dir| (#[trigger] self@.step1(pos as int, d)) is Some implies exists|
                i: int,
            | 0 <= i < v@.len() && (#[trigger] v@[i]).0 == d by {
                match d {
                    Dir::North => {
                        assert(v@[0].0 == Dir::North);
                    },
                    Dir::East => {
                        assert(v@[v_n.len() as int].0 == Dir::East);
                    },
                    Dir::South => {
                        assert(v@[v_e.len() as int].0 == Dir::South);
                    },
                    Dir::West => {
                        assert(v@[v_s.len() as int].0 == Dir::West);
                    },
                }
            }
        }
        v
    }
}


/// What one cell shows when the grid is rendered: the agent wins over a
/// target, a target shows whether a crate sits on it, then a bare crate,
/// then the terrain.
pub open spec fn cell_str(bv: BoardView, boxes: Seq<usize>, player: int, p: int) -> Seq<char> {
    if p == player {
        "@"@
    } else if bv.targets.contains(p as usize) {
        if boxes.contains(p as usize) {
            "*"@
        } else {
            "."@
        }
    } else if boxes.contains(p as usize) {
        "$"@
    } else if bv.grid[p].spec_is_wall() {
        "#"@
    } else {
        " "@
    }
}

impl Board {
    /// Builds the terrain: classifies the grid, runs the pull analysis once
    /// and writes its result back as the valid flag of every space cell that
    /// a crate could still leave towards a target.
    pub fn new(width: usize, height: usize, grid: Vec<Flags>, targets: CellSet) -> (r: Board)
        requires
            1 <= width,
            1 <= height,
            grid@.len() == width * height,
            grid@.len() < usize::MAX,
            targets.wf(),
            forall|i: int|
                0 <= i < targets@.len() ==> #[trigger] targets@[i] < grid@.len()
                    && grid@[targets@[i] as int].spec_is_space(),
            forall|p: int| 0 <= p < grid@.len() ==> !(#[trigger] grid@[p]).spec_is_valid(),
        ensures
            r.width == width,
            r.height == height,
            r.targets@ == targets@,
            r@.grid.len() == grid@.len(),
            r@.wf(),
            r@.targets_valid(),
            r@.analysed(),
            forall|p: int|
                0 <= p < grid@.len() ==> (#[trigger] r@.grid[p]).spec_is_wall() == grid@[
                    p
                ].spec_is_wall(),
            forall|p: int|
                0 <= p < grid@.len() ==> (#[trigger] r@.grid[p]).spec_is_valid() == valid_from_targets(
                    (BoardView { width: width as int, height: height as int, grid: grid@, targets: targets@ }),
                    p,
                ),
    {
        let base = Board { width, height, grid, targets };
        let ghost bv0 = base@;
        let puller = Puller::new(base.duplicate());
        let marks = puller.find_all_valid_positions();
        let mut b = base;
        let n = b.grid.len();
        let mut p: usize = 0;
        while p < n
            invariant
                bv0.wf(),
                n == bv0.grid.len(),
                b.width == bv0.width,
                b.height == bv0.height,
                b.targets@ == bv0.targets,
                b.grid@.len() == n,
                marks@.len() == n,
                p <= n,
                forall|q: int|
                    0 <= q < n ==> (#[trigger] marks@[q] <==> valid_from_targets(bv0, q)),
                forall|q: int| p <= q < n ==> #[trigger] b.grid@[q] == bv0.grid[q],
                forall|q: int|
                    0 <= q < p ==> #[trigger] b.grid@[q] == (if marks@[q] {
                        Flags::Valid
                    } else {
                        bv0.grid[q]
                    }),
            decreases n - p,
        {
            if marks[p] {
                proof {
                    let i = choose|i: int|
                        0 <= i < bv0.targets.len() && pull_reach(bv0, bv0.targets[i] as int, p as int);
                    lemma_pull_reach_space(bv0, bv0.targets[i] as int, p as int);
                    assert(bv0.grid[p as int].spec_is_space());
                }
                b.grid[p] = Flags::Valid;
            }
            p = p + 1;
        }
        proof {
            assert forall|q: int|
                0 <= q < n implies (#[trigger] b@.grid[q]).spec_is_valid() == valid_from_targets(
                bv0,
                q,
            ) by {
                if marks@[q] {
                } else {
                    assert(!bv0.grid[q].spec_is_valid());
                }
            }
            assert forall|q: int|
                0 <= q < n implies (#[trigger] b@.grid[q]).spec_is_wall() == bv0.grid[
                q
            ].spec_is_wall() by {
                if marks@[q] {
                    let i = choose|i: int|
                        0 <= i < bv0.targets.len() && pull_reach(bv0, bv0.targets[i] as int, q);
                    lemma_pull_reach_space(bv0, bv0.targets[i] as int, q);
                    assert(bv0.grid[q].spec_is_space());
                }
            }
            assert forall|i: int| 0 <= i < b@.targets.len() implies b@.grid[
                #[trigger] b@.targets[i] as int
            ].spec_is_valid() by {
                let t = bv0.targets[i] as int;
                lemma_pull_refl(bv0, t);
                assert(pull_reach(bv0, bv0.targets[i] as int, t));
                assert(valid_from_targets(bv0, t));
            }
            assert(b@.wf());
            assert(super::puller::same_terrain(bv0, b@));
            assert forall|p2: int|
                0 <= p2 < b@.grid.len() implies ((#[trigger] b@.grid[p2]).spec_is_valid()
                <==> valid_from_targets(b@, p2)) by {
                super::puller::lemma_valid_from_targets_same_terrain(bv0, b@, p2);
            }
            assert(b@.analysed());
        }
        b
    }

    /// Returns the grid as a 2d vector of strings corresponding to each
    /// cell, with the agent, crates and targets drawn over the terrain.
    pub fn to_2d_grid_str(&self, player_pos: usize, boxes: &CellSet) -> (r: Vec<Vec<&'static str>>)
        requires
            self@.dims_ok(),
        ensures
            r@.len() == self@.height,
            forall|y: int| 0 <= y < r@.len() ==> (#[trigger] r@[y])@.len() == self@.width,
            forall|y: int, x: int|
                0 <= y < r@.len() && 0 <= x < self@.width ==> (#[trigger] r@[y]@[x])@ == cell_str(
                    self@,
                    boxes@,
                    player_pos as int,
                    y * self@.width + x,
                ),
    {
        let ghost bv = self@;
        let w = self.width;
        let h = self.height;
        let mut rows: Vec<Vec<&'static str>> = Vec::new();
        let mut y: usize = 0;
        while y < h
            invariant
                bv == self@,
                bv.dims_ok(),
                w == bv.width,
                h == bv.height,
                y <= h,
                rows@.len() == y,
                forall|y2: int| 0 <= y2 < y ==> (#[trigger] rows@[y2])@.len() == w,
                forall|y2: int, x: int|
                    0 <= y2 < y && 0 <= x < w ==> (#[trigger] rows@[y2]@[x])@ == cell_str(
                        bv,
                        boxes@,
                        player_pos as int,
                        y2 * w + x,
                    ),
            decreases h - y,
        {
            let mut row: Vec<&'static str> = Vec::new();
            let mut x: usize = 0;
            proof {
                assert(y * w + w <= w * h) by (nonlinear_arith)
                    requires
                        0 <= y < h,
                        1 <= w,
                ;
            }
            while x < w
                invariant
                    bv == self@,
                    bv.dims_ok(),
                    w == bv.width,
                    h == bv.height,
                    y < h,
                    (y * w + w) as int <= w * h,
                    x <= w,
                    row@.len() == x,
                    forall|x2: int|
                        0 <= x2 < x ==> (#[trigger] row@[x2])@ == cell_str(
                            bv,
                            boxes@,
                            player_pos as int,
                            y * w + x2,
                        ),
                decreases w - x,
            {
                let p = y * w + x;
                let s: &'static str = if p == player_pos {
                    "@"
                } else if self.targets.contains(p) {
                    if boxes.contains(p) {
                        "*"
                    } else {
                        "."
                    }
                } else if boxes.contains(p) {
                    "$"
                } else if self.square_at(p).is_wall() {
                    "#"
                } else {
                    " "
                };
                row.push(s);
                x = x + 1;
            }
            rows.push(row);
            y = y + 1;
        }
        rows
    }
}

/// Every target carries the valid flag, and the valid flag only ever sits
/// on space cells; the flag depends on the terrain alone, so placing or
/// moving crates never disturbs it.
pub proof fn lemma_board_flags(bv: BoardView)
    requires
        bv.wf(),
        bv.targets_valid(),
    ensures
        forall|i: int|
            0 <= i < bv.targets.len() ==> bv.grid[#[trigger] bv.targets[i] as int].spec_is_valid(),
        forall|p: int|
            0 <= p < bv.grid.len() && (#[trigger] bv.grid[p]).spec_is_valid() ==> bv.grid[
                p
            ].spec_is_space(),
{
}

} // verus!
