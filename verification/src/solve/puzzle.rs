//! One search state: the shared terrain, the crate cells, the agent cell,
//! the move log and the cached agent-reachable region.

use vstd::prelude::*;

use super::board::Board;
use super::board::BoardView;
use super::board::cell_str;
use super::cells::CellSet;
use super::directions::Dir;
use super::directions::DirHolder;
use super::directions::dir_field;
use super::directions::flip;
use super::reach::ReachMap;
use super::reach::bfs_from;
use super::reach::reach;
use super::reach::walk;
use super::reach::walkable;
use super::reach::lemma_flood_shortest;
use super::reach::lemma_reach_refl;
use super::reach::lemma_reach_symm;
use super::reach::lemma_reach_trans;
use super::reach::lemma_reach_walkable;

verus! {

/// How far a cell lies from the grid edge that `dir` runs towards; a walk
/// in one direction shortens it with every move.
pub open spec fn border_dist(bv: BoardView, pos: int, dir: Dir) -> int {
    match dir {
        Dir::North => pos,
        Dir::West => pos,
        Dir::South => bv.grid.len() - pos,
        Dir::East => bv.grid.len() - pos,
    }
}

/// How many successive cells in `dir` direction, starting next to `pos`,
/// are valid and free of crates: the longest run a crate at `pos` could be
/// pushed.
pub open spec fn run_len(bv: BoardView, boxes: Seq<usize>, pos: int, dir: Dir) -> nat
    decreases border_dist(bv, pos, dir),
        when bv.dims_ok() && bv.in_bounds(pos)
{
    match bv.step1(pos, dir) {
        Some(q) => if bv.in_bounds(q) && bv.grid[q].spec_is_valid() && !boxes.contains(q as usize) {
            (1 + run_len(bv, boxes, q, dir)) as nat
        } else {
            0
        },
        None => 0,
    }
}

/// A pushed crate never runs further than the grid is large.
pub proof fn lemma_run_len_bound(bv: BoardView, boxes: Seq<usize>, pos: int, dir: Dir)
    requires
        bv.dims_ok(),
        bv.in_bounds(pos),
    ensures
        run_len(bv, boxes, pos, dir) <= bv.grid.len(),
    decreases border_dist(bv, pos, dir),
{
    match bv.step1(pos, dir) {
        Some(q) => {
            bv.lemma_step1(pos, dir);
            if bv.in_bounds(q) && bv.grid[q].spec_is_valid() && !boxes.contains(q as usize) {
                lemma_run_len_bound(bv, boxes, q, dir);
                lemma_run_len_dist(bv, boxes, pos, dir);
            }
        },
        None => {},
    }
}

/// The run is no longer than the distance to the border.
pub proof fn lemma_run_len_dist(bv: BoardView, boxes: Seq<usize>, pos: int, dir: Dir)
    requires
        bv.dims_ok(),
        bv.in_bounds(pos),
    ensures
        run_len(bv, boxes, pos, dir) <= border_dist(bv, pos, dir),
    decreases border_dist(bv, pos, dir),
{
    match bv.step1(pos, dir) {
        Some(q) => {
            bv.lemma_step1(pos, dir);
            if bv.in_bounds(q) && bv.grid[q].spec_is_valid() && !boxes.contains(q as usize) {
                lemma_run_len_dist(bv, boxes, q, dir);
            }
        },
        None => {},
    }
}

/// Every prefix of a legal run is itself a legal push destination: the
/// `k`-th cell exists, is valid and holds no crate.
pub proof fn lemma_run_len_prefix(bv: BoardView, boxes: Seq<usize>, pos: int, dir: Dir, k: nat)
    requires
        bv.dims_ok(),
        bv.in_bounds(pos),
        1 <= k <= run_len(bv, boxes, pos, dir),
    ensures
        bv.step_n(pos, dir, k) is Some,
        bv.in_bounds(bv.step_n(pos, dir, k)->Some_0),
        bv.grid[bv.step_n(pos, dir, k)->Some_0].spec_is_valid(),
        !boxes.contains(bv.step_n(pos, dir, k)->Some_0 as usize),
    decreases k,
{
    let q = bv.step1(pos, dir)->Some_0;
    assert(bv.step1(pos, dir) is Some);
    bv.lemma_step1(pos, dir);
    if k == 1 {
        assert(bv.step_n(q, dir, 0) == Some(q));
    } else {
        lemma_run_len_prefix(bv, boxes, q, dir, (k - 1) as nat);
    }
}

/// Moving `n >= 1` cells in one direction never returns to the start: the
/// index changes strictly monotonically.
pub proof fn lemma_step_n_moves(bv: BoardView, pos: int, dir: Dir, n: nat)
    requires
        bv.dims_ok(),
        bv.in_bounds(pos),
        n >= 1,
        bv.step_n(pos, dir, n) is Some,
    ensures
        match dir {
            Dir::North | Dir::West => bv.step_n(pos, dir, n)->Some_0 < pos,
            Dir::South | Dir::East => bv.step_n(pos, dir, n)->Some_0 > pos,
        },
    decreases n,
{
    let q = bv.step1(pos, dir)->Some_0;
    assert(bv.step1(pos, dir) is Some);
    bv.lemma_step1(pos, dir);
    if n > 1 {
        lemma_step_n_moves(bv, q, dir, (n - 1) as nat);
    }
}

/// One search state.
#[derive(Debug)]
pub struct Puzzle {
    pub board: Board,
    pub boxes: CellSet,
    pub player_pos: usize,
    pub moves: Vec<Dir>,
    /// One flag per cell; kept equal to the agent's reachable region by
    /// `update_movable_positions`.
    pub movable_positions: Vec<bool>,
}

impl Puzzle {
    /// Crates and agent sit on distinct space cells of a well-formed board.
    pub open spec fn inv_core(&self) -> bool {
        &&& self.board@.wf()
        &&& self.board@.targets_valid()
        &&& self.boxes.wf()
        &&& forall|i: int|
            0 <= i < self.boxes@.len() ==> #[trigger] self.boxes@[i] < self.board@.grid.len()
                && self.board@.grid[self.boxes@[i] as int].spec_is_space()
        &&& (self.player_pos as int) < self.board@.grid.len()
        &&& self.board@.grid[self.player_pos as int].spec_is_space()
        &&& !self.boxes@.contains(self.player_pos)
    }

    /// `inv_core`, and the cached region is exactly what the agent can
    /// reach.
    pub open spec fn inv(&self) -> bool {
        &&& self.inv_core()
        &&& self.movable_positions@.len() == self.board@.grid.len()
        &&& forall|p: int|
            0 <= p < self.movable_positions@.len() ==> (#[trigger] self.movable_positions@[p]
                <==> reach(self.board@, self.boxes@, self.player_pos as int, p))
    }

    /// The agent's own cell is walkable.
    pub proof fn lemma_player_walkable(&self)
        requires
            self.inv_core(),
        ensures
            walkable(self.board@, self.boxes@, self.player_pos as int),
    {
    }

    pub fn new(board: Board, player_pos: usize, boxes: CellSet) -> (r: Self)
        requires
            board@.wf(),
            board@.targets_valid(),
            boxes.wf(),
            forall|i: int|
                0 <= i < boxes@.len() ==> #[trigger] boxes@[i] < board@.grid.len()
                    && board@.grid[boxes@[i] as int].spec_is_space(),
            (player_pos as int) < board@.grid.len(),
            board@.grid[player_pos as int].spec_is_space(),
            !boxes@.contains(player_pos),
        ensures
            r.inv_core(),
            r.board@ == board@,
            r.boxes@ == boxes@,
            r.player_pos == player_pos,
            r.moves@ =~= Seq::<Dir>::empty(),
            r.movable_positions@ =~= Seq::<bool>::empty(),
    {
        Puzzle {
            board,
            player_pos,
            boxes,
            moves: Vec::new(),
            movable_positions: Vec::new(),
        }
    }

    /// An exact copy, sharing nothing with the original.
    pub fn duplicate(&self) -> (r: Self)
        ensures
            r.board@ == self.board@,
            r.boxes@ == self.boxes@,
            r.player_pos == self.player_pos,
            r.moves@ == self.moves@,
            r.movable_positions@ == self.movable_positions@,
    {
        let r = Puzzle {
            board: self.board.duplicate(),
            boxes: self.boxes.duplicate(),
            player_pos: self.player_pos,
            moves: self.moves.clone(),
            movable_positions: self.movable_positions.clone(),
        };
        proof {
            assert(r.moves@ =~= self.moves@);
            assert(r.movable_positions@ =~= self.movable_positions@);
        }
        r
    }

    pub fn moves(&self) -> (r: &Vec<Dir>)
        ensures
            r@ == self.moves@,
    {
        &self.moves
    }

    /// Every target carries a crate.
    pub open spec fn spec_solved(&self) -> bool {
        forall|i: int|
            0 <= i < self.board@.targets.len() ==> self.boxes@.contains(
                #[trigger] self.board@.targets[i],
            )
    }

    pub fn is_solved(&self) -> (r: bool)
        ensures
            r == self.spec_solved(),
    {
        let tlen = self.board.targets.len();
        let mut i: usize = 0;
        while i < tlen
            invariant
                tlen == self.board@.targets.len(),
                i <= tlen,
                forall|j: int| 0 <= j < i ==> self.boxes@.contains(#[trigger] self.board@.targets[j]),
            decreases tlen - i,
        {
            if !self.boxes.contains(self.board.targets.get(i)) {
                return false;
            }
            i = i + 1;
        }
        true
    }

    /// Whether the agent may stand on `pos`.
    pub fn is_pos_walkable(&self, pos: usize) -> (r: bool)
        requires
            (pos as int) < self.board@.grid.len(),
        ensures
            r == walkable(self.board@, self.boxes@, pos as int),
    {
        self.board.square_at(pos).is_space() && !self.boxes.contains(pos)
    }

    /// Returns true if the player can move to `pos` without pushing.
    pub fn can_move_to(&self, pos: usize) -> (r: bool)
        requires
            (pos as int) < self.movable_positions@.len(),
        ensures
            r == self.movable_positions@[pos as int],
    {
        self.movable_positions[pos]
    }

    /// Returns the position the player would need to stand on to push a box
    /// placed on `pos` in `dir` direction, or None if that position is out
    /// of bounds.
    pub fn get_push_pos(&self, pos: usize, dir: Dir) -> (r: Option<usize>)
        requires
            self.board@.dims_ok(),
            self.board@.in_bounds(pos as int),
        ensures
            r is Some <==> self.board@.step1(pos as int, flip(dir)) is Some,
            r matches Some(q) ==> self.board@.step1(pos as int, flip(dir)) == Some(q as int)
                && self.board@.in_bounds(q as int),
    {
        self.board.step_one(pos, dir.opposite())
    }

    /// Recomputes the cached reachable region from the current agent cell.
    pub fn update_movable_positions(&mut self)
        requires
            old(self).inv_core(),
        ensures
            final(self).inv(),
            final(self).board@ == old(self).board@,
            final(self).boxes@ == old(self).boxes@,
            final(self).player_pos == old(self).player_pos,
            final(self).moves@ == old(self).moves@,
    {
        proof {
            self.lemma_player_walkable();
        }
        let rm = bfs_from(&self.board, &self.boxes, self.player_pos);
        self.movable_positions = rm.marks();
        proof {
            assert forall|p: int| 0 <= p < self.movable_positions@.len() implies (
            #[trigger] self.movable_positions@[p] <==> reach(
                self.board@,
                self.boxes@,
                self.player_pos as int,
                p,
            )) by {
                assert(self.movable_positions@[p] == rm.spec_reached(p));
            }
        }
    }

    /// The sorted crate cells followed by the agent cell: the state's
    /// identity for deduplication.
    pub fn get_encoding(&self) -> (r: Vec<usize>)
        ensures
            r@ == self.boxes@ + seq![self.player_pos],
    {
        let mut v: Vec<usize> = Vec::new();
        let blen = self.boxes.len();
        let mut i: usize = 0;
        while i < blen
            invariant
                blen == self.boxes@.len(),
                i <= blen,
                v@ =~= self.boxes@.subrange(0, i as int),
            decreases blen - i,
        {
            v.push(self.boxes.get(i));
            i = i + 1;
        }
        v.push(self.player_pos);
        proof {
            assert(v@ =~= self.boxes@ + seq![self.player_pos]);
        }
        v
    }
}


impl Puzzle {
    /// `inv_core` with the agent imagined on `player` instead.
    pub open spec fn inv_core_at(&self, player: usize) -> bool {
        &&& self.board@.wf()
        &&& self.board@.targets_valid()
        &&& self.boxes.wf()
        &&& forall|i: int|
            0 <= i < self.boxes@.len() ==> #[trigger] self.boxes@[i] < self.board@.grid.len()
                && self.board@.grid[self.boxes@[i] as int].spec_is_space()
        &&& (player as int) < self.board@.grid.len()
        &&& self.board@.grid[player as int].spec_is_space()
        &&& !self.boxes@.contains(player)
    }

    /// Appends `moves` to the move log.
    fn add_moves(&mut self, moves: &Vec<Dir>)
        ensures
            final(self).moves@ == old(self).moves@ + moves@,
            final(self).board@ == old(self).board@,
            final(self).boxes@ == old(self).boxes@,
            final(self).player_pos == old(self).player_pos,
            final(self).movable_positions@ == old(self).movable_positions@,
    {
        let n = moves.len();
        let mut k: usize = 0;
        while k < n
            invariant
                n == moves@.len(),
                k <= n,
                self.moves@ =~= old(self).moves@ + moves@.subrange(0, k as int),
                self.board@ == old(self).board@,
                self.boxes@ == old(self).boxes@,
                self.player_pos == old(self).player_pos,
                self.movable_positions@ == old(self).movable_positions@,
            decreases n - k,
        {
            self.moves.push(moves[k]);
            k = k + 1;
        }
        proof {
            assert(self.moves@ =~= old(self).moves@ + moves@);
        }
    }

    /// Moves the crate bookkeeping from `old_pos` to `new_pos`.
    fn update_box_pos(&mut self, old_pos: usize, new_pos: usize)
        requires
            old(self).boxes.wf(),
            old(self).boxes@.contains(old_pos),
            !old(self).boxes@.contains(new_pos),
        ensures
            final(self).boxes.wf(),
            forall|y: usize|
                final(self).boxes@.contains(y) <==> ((old(self).boxes@.contains(y) && y != old_pos)
                    || y == new_pos),
            final(self).boxes@.len() == old(self).boxes@.len(),
            final(self).board@ == old(self).board@,
            final(self).player_pos == old(self).player_pos,
            final(self).moves@ == old(self).moves@,
            final(self).movable_positions@ == old(self).movable_positions@,
    {
        self.boxes.remove(old_pos);
        self.boxes.insert(new_pos);
    }

    /// Places the agent on `new_pos`, refreshing the cached region when
    /// `update` is set.
    fn update_player_pos(&mut self, new_pos: usize, update: bool)
        requires
            update ==> old(self).inv_core_at(new_pos),
        ensures
            final(self).player_pos == new_pos,
            final(self).board@ == old(self).board@,
            final(self).boxes@ == old(self).boxes@,
            final(self).moves@ == old(self).moves@,
            update ==> final(self).inv(),
            !update ==> final(self).movable_positions@ == old(self).movable_positions@,
    {
        self.player_pos = new_pos;
        if update {
            self.update_movable_positions();
        }
    }

    /// Moves the player position to `target`, which must lie in the cached
    /// reachable region. Appends the directions of a concrete walk to the
    /// move log; the reachable region itself does not change.
    pub fn move_to(&mut self, target: usize)
        requires
            old(self).inv(),
            (target as int) < old(self).movable_positions@.len(),
            old(self).movable_positions@[target as int],
        ensures
            final(self).inv(),
            final(self).board@ == old(self).board@,
            final(self).boxes@ == old(self).boxes@,
            final(self).player_pos == target,
            final(self).movable_positions@ == old(self).movable_positions@,
            exists|delta: Seq<Dir>|
                final(self).moves@ == old(self).moves@ + delta && walk(
                    old(self).board@,
                    old(self).boxes@,
                    old(self).player_pos as int,
                    delta,
                ) == Some(target as int) && (forall|other: Seq<Dir>|
                    #[trigger] walk(
                        old(self).board@,
                        old(self).boxes@,
                        old(self).player_pos as int,
                        other,
                    ) == Some(target as int) ==> delta.len() <= other.len()),
    {
        let ghost bv = self.board@;
        let ghost bxs = self.boxes@;
        let ghost player0 = self.player_pos;
        proof {
            self.lemma_player_walkable();
        }
        let rm = bfs_from(&self.board, &self.boxes, self.player_pos);
        proof {
            assert(reach(bv, bxs, player0 as int, target as int));
            assert(rm.spec_reached(target as int));
        }
        let path = rm.path_to(&self.board, &self.boxes, self.player_pos, target);
        self.add_moves(&path);
        self.update_player_pos(target, false);
        proof {
            lemma_reach_walkable(bv, bxs, player0 as int, target as int);
            lemma_reach_symm(bv, bxs, player0 as int, target as int);
            assert forall|p: int|
                0 <= p < self.movable_positions@.len() implies (
            #[trigger] self.movable_positions@[p] <==> reach(bv, bxs, target as int, p)) by {
                if self.movable_positions@[p] {
                    lemma_reach_trans(bv, bxs, target as int, player0 as int, p);
                }
                if reach(bv, bxs, target as int, p) {
                    lemma_reach_trans(bv, bxs, player0 as int, target as int, p);
                }
            }
            assert forall|other: Seq<Dir>|
                #[trigger] walk(bv, bxs, player0 as int, other) == Some(
                    target as int,
                ) implies path@.len() <= other.len() by {
                lemma_flood_shortest(bv, bxs, rm.dist@, player0 as int, other, target as int);
            }
            assert(final(self).moves@ == old(self).moves@ + path@ && walk(
                old(self).board@,
                old(self).boxes@,
                old(self).player_pos as int,
                path@,
            ) == Some(target as int));
        }
    }

    /// Moves the player to the top-left-most cell of its reachable region:
    /// the smallest reachable index. This canonicalises the state.
    pub fn move_to_top_left(&mut self)
        requires
            old(self).inv(),
        ensures
            final(self).inv(),
            final(self).board@ == old(self).board@,
            final(self).boxes@ == old(self).boxes@,
            final(self).movable_positions@ == old(self).movable_positions@,
            final(self).movable_positions@[final(self).player_pos as int],
            forall|p: int|
                0 <= p < final(self).movable_positions@.len()
                    && #[trigger] final(self).movable_positions@[p] ==> final(self).player_pos <= p,
            exists|delta: Seq<Dir>|
                final(self).moves@ == old(self).moves@ + delta && walk(
                    old(self).board@,
                    old(self).boxes@,
                    old(self).player_pos as int,
                    delta,
                ) == Some(final(self).player_pos as int) && (forall|other: Seq<Dir>|
                    #[trigger] walk(
                        old(self).board@,
                        old(self).boxes@,
                        old(self).player_pos as int,
                        other,
                    ) == Some(final(self).player_pos as int) ==> delta.len() <= other.len()),
            (old(self).movable_positions@[old(self).player_pos as int] && (forall|p: int|
                0 <= p < old(self).movable_positions@.len()
                    && #[trigger] old(self).movable_positions@[p] ==> old(self).player_pos
                    <= p)) ==> (final(self).player_pos == old(self).player_pos
                && final(self).moves@ == old(self).moves@),
    {
        proof {
            lemma_reach_refl(self.board@, self.boxes@, self.player_pos as int);
            assert(self.movable_positions@[self.player_pos as int]);
        }
        let n = self.movable_positions.len();
        let mut i: usize = 0;
        while i < n && !self.movable_positions[i]
            invariant
                n == self.movable_positions@.len(),
                i <= n,
                forall|p: int| 0 <= p < i ==> !(#[trigger] self.movable_positions@[p]),
            decreases n - i,
        {
            i = i + 1;
        }
        proof {
            if i == n {
                assert(!self.movable_positions@[self.player_pos as int]);
                assert(false);
            }
        }
        let top_left = i;
        self.move_to(top_left);
        proof {
            assert forall|p: int|
                0 <= p < self.movable_positions@.len()
                    && #[trigger] self.movable_positions@[p] implies self.player_pos as int
                <= p by {}
            if old(self).movable_positions@[old(self).player_pos as int] && (forall|p: int|
                0 <= p < old(self).movable_positions@.len()
                    && #[trigger] old(self).movable_positions@[p] ==> old(self).player_pos <= p) {
                assert(top_left == old(self).player_pos);
                let delta = choose|delta: Seq<Dir>|
                    self.moves@ == old(self).moves@ + delta && walk(
                        old(self).board@,
                        old(self).boxes@,
                        old(self).player_pos as int,
                        delta,
                    ) == Some(top_left as int) && (forall|other: Seq<Dir>|
                        #[trigger] walk(
                            old(self).board@,
                            old(self).boxes@,
                            old(self).player_pos as int,
                            other,
                        ) == Some(top_left as int) ==> delta.len() <= other.len());
                assert(walk(
                    old(self).board@,
                    old(self).boxes@,
                    old(self).player_pos as int,
                    Seq::<Dir>::empty(),
                ) == Some(top_left as int));
                assert(delta.len() == 0);
                assert(self.moves@ =~= old(self).moves@);
            }
        }
    }

    /// How far the crate at `box_pos` can run in direction `dir` before
    /// hitting a wall, a dead cell or another crate.
    fn count_push_run(&self, box_pos: usize, dir: Dir) -> (steps: usize)
        requires
            self.inv_core(),
            self.board@.in_bounds(box_pos as int),
        ensures
            steps == run_len(self.board@, self.boxes@, box_pos as int, dir),
    {
        let ghost bv = self.board@;
        let ghost bxs = self.boxes@;
        let mut new_pos = box_pos;
        let mut steps: usize = 0;
        let mut done = false;
        proof {
            lemma_run_len_bound(bv, bxs, box_pos as int, dir);
        }
        while !done
            invariant
                bv == self.board@,
                bxs == self.boxes@,
                bv.dims_ok(),
                bv.in_bounds(new_pos as int),
                run_len(bv, bxs, box_pos as int, dir) <= bv.grid.len(),
                !done ==> run_len(bv, bxs, box_pos as int, dir) == steps + run_len(
                    bv,
                    bxs,
                    new_pos as int,
                    dir,
                ),
                done ==> run_len(bv, bxs, box_pos as int, dir) == steps,
                steps <= run_len(bv, bxs, box_pos as int, dir),
            decreases (if done {
                0int
            } else {
                1int + run_len(bv, bxs, new_pos as int, dir)
            }),
        {
            match self.board.step_one(new_pos, dir) {
                Some(q) => {
                    if self.board.square_at(q).is_valid() && !self.boxes.contains(q) {
                        proof {
                            assert(run_len(bv, bxs, new_pos as int, dir) == 1 + run_len(
                                bv,
                                bxs,
                                q as int,
                                dir,
                            ));
                        }
                        new_pos = q;
                        steps = steps + 1;
                    } else {
                        proof {
                            assert(run_len(bv, bxs, new_pos as int, dir) == 0);
                        }
                        done = true;
                    }
                },
                None => {
                    proof {
                        assert(run_len(bv, bxs, new_pos as int, dir) == 0);
                    }
                    done = true;
                },
            }
        }
        steps
    }

    /// The number of cells the crate at `box_pos` may be pushed towards
    /// `dir`: zero when the agent cannot stand behind it (or, with
    /// `reachable_only`, cannot walk there), else the free valid run ahead.
    pub open spec fn spec_push_steps(&self, box_pos: int, dir: Dir, reachable_only: bool) -> nat {
        match self.board@.step1(box_pos, flip(dir)) {
            Some(pp) => if walkable(self.board@, self.boxes@, pp) && (!reachable_only || (0 <= pp
                < self.movable_positions@.len() && self.movable_positions@[pp])) {
                run_len(self.board@, self.boxes@, box_pos, dir)
            } else {
                0
            },
            None => 0,
        }
    }

    /// Returns the directions each box can be pushed in, and the distance
    /// it can be moved in that direction. If `reachable` is true, then the
    /// player must be able to reach the position required to move the box
    /// without having to push anything to get there. Crates come in
    /// ascending cell order; this makes the expansion deterministic.
    pub fn find_all_pushes(&self, reachable: bool) -> (r: Vec<(usize, DirHolder<usize>)>)
        requires
            self.inv(),
        ensures
            r@.len() == self.boxes@.len(),
            forall|i: int|
                0 <= i < r@.len() ==> (#[trigger] r@[i]).0 == self.boxes@[i] && (forall|d: Dir|
                    dir_field(r@[i].1, d) == self.spec_push_steps(self.boxes@[i] as int, d, reachable)),
    {
        let blen = self.boxes.len();
        let mut r: Vec<(usize, DirHolder<usize>)> = Vec::new();
        let mut bi: usize = 0;
        while bi < blen
            invariant
                self.inv(),
                blen == self.boxes@.len(),
                bi <= blen,
                r@.len() == bi,
                forall|i: int|
                    0 <= i < bi ==> (#[trigger] r@[i]).0 == self.boxes@[i] && (forall|d: Dir|
                        dir_field(r@[i].1, d) == self.spec_push_steps(
                            self.boxes@[i] as int,
                            d,
                            reachable,
                        )),
            decreases blen - bi,
        {
            let box_pos = self.boxes.get(bi);
            proof {
                assert(self.boxes@.contains(box_pos));
            }
            let mut possible_steps = DirHolder::<usize>::uniform(0);
            let dirs = Dir::iter();
            let mut di: usize = 0;
            while di < 4
                invariant
                    self.inv(),
                    di <= 4,
                    dirs@ =~= seq![Dir::North, Dir::East, Dir::South, Dir::West],
                    (box_pos as int) < self.board@.grid.len(),
                    forall|k: int|
                        0 <= k < di ==> dir_field(possible_steps, #[trigger] dirs@[k])
                            == self.spec_push_steps(box_pos as int, dirs@[k], reachable),
                    forall|k: int|
                        di <= k < 4 ==> dir_field(possible_steps, #[trigger] dirs@[k]) == 0,
                decreases 4 - di,
            {
                let dir = dirs[di];
                match self.get_push_pos(box_pos, dir) {
                    Some(push_pos) => {
                        if self.is_pos_walkable(push_pos) && (!reachable || self.can_move_to(
                            push_pos,
                        )) {
                            let steps = self.count_push_run(box_pos, dir);
                            possible_steps.set(dir, steps);
                        }
                    },
                    None => {},
                }
                proof {
                    assert forall|k: int| 0 <= k < di + 1 implies dir_field(
                        possible_steps,
                        #[trigger] dirs@[k],
                    ) == self.spec_push_steps(box_pos as int, dirs@[k], reachable) by {
                        if k < di {
                            assert(dirs@[k] != dirs@[di as int]);
                        }
                    }
                    assert forall|k: int| di + 1 <= k < 4 implies dir_field(
                        possible_steps,
                        #[trigger] dirs@[k],
                    ) == 0 by {
                        assert(dirs@[k] != dirs@[di as int]);
                    }
                }
                di = di + 1;
            }
            r.push((box_pos, possible_steps));
            bi = bi + 1;
        }
        r
    }

    /// The push is legal: the cell is a crate, the agent can walk behind
    /// it, and the next `steps` cells ahead are valid and free.
    pub open spec fn can_push(&self, pos: usize, dir: Dir, steps: usize) -> bool {
        &&& self.boxes@.contains(pos)
        &&& self.board@.in_bounds(pos as int)
        &&& 1 <= steps
        &&& (steps as nat) <= run_len(self.board@, self.boxes@, pos as int, dir)
        &&& match self.board@.step1(pos as int, flip(dir)) {
            Some(pp) => 0 <= pp < self.movable_positions@.len() && self.movable_positions@[pp],
            None => false,
        }
    }

    /// Makes the move. The move must be valid.
    ///
    /// `pos` is the position of the box that should be moved. The agent
    /// walks behind the crate, pushes it `steps` cells, and ends up one
    /// cell behind the crate's final position. Returns the new crate cell.
    pub fn move_box(&mut self, pos: usize, dir: Dir, steps: usize) -> (new_box_pos: usize)
        requires
            old(self).inv(),
            old(self).can_push(pos, dir, steps),
        ensures
            final(self).inv(),
            final(self).board@ == old(self).board@,
            old(self).board@.step_n(pos as int, dir, steps as nat) == Some(
                new_box_pos as int,
            ),
            old(self).board@.step_n(pos as int, dir, (steps - 1) as nat) == Some(
                final(self).player_pos as int,
            ),
            forall|y: usize|
                final(self).boxes@.contains(y) <==> ((old(self).boxes@.contains(y) && y != pos)
                    || y == new_box_pos),
            final(self).boxes@.len() == old(self).boxes@.len(),
            exists|delta: Seq<Dir>|
                final(self).moves@ == old(self).moves@ + delta + Seq::new(
                    steps as nat,
                    |i: int| dir,
                ) && walk(old(self).board@, old(self).boxes@, old(self).player_pos as int, delta)
                    == old(self).board@.step1(pos as int, flip(dir)),
    {
        let ghost bv = self.board@;
        let ghost bxs = self.boxes@;
        let ghost moves0 = self.moves@;
        let push_pos = self.get_push_pos(pos, dir).unwrap();
        self.move_to(push_pos);
        let ghost delta = choose|delta: Seq<Dir>|
            self.moves@ == moves0 + delta && walk(bv, bxs, old(self).player_pos as int, delta)
                == Some(push_pos as int);
        proof {
            lemma_run_len_prefix(bv, bxs, pos as int, dir, steps as nat);
        }
        let new_box_pos = self.board.step(pos, dir, steps).unwrap();
        proof {
            bv.lemma_step_n_unsnoc(pos as int, dir, steps as nat);
            let m = bv.step_n(pos as int, dir, (steps - 1) as nat)->Some_0;
            bv.lemma_step_n_in_bounds(pos as int, dir, (steps - 1) as nat);
            bv.lemma_step1(m, dir);
            assert(bv.step1(new_box_pos as int, flip(dir)) == Some(m));
            lemma_step_n_moves(bv, pos as int, dir, steps as nat);
            assert(new_box_pos != pos);
        }
        let new_player_pos = self.get_push_pos(new_box_pos, dir).unwrap();
        proof {
            assert(new_player_pos as int == bv.step_n(pos as int, dir, (steps - 1) as nat)->Some_0);
            if steps >= 2 {
                lemma_run_len_prefix(bv, bxs, pos as int, dir, (steps - 1) as nat);
                lemma_step_n_moves(bv, pos as int, dir, (steps - 1) as nat);
            }
        }
        self.update_box_pos(pos, new_box_pos);
        proof {
            assert forall|i: int| 0 <= i < self.boxes@.len() implies #[trigger] self.boxes@[i]
                < self.board@.grid.len() && self.board@.grid[
                self.boxes@[i] as int
            ].spec_is_space() by {
                let y = self.boxes@[i];
                assert(self.boxes@.contains(y));
                if y == new_box_pos {
                    assert(bv.grid[new_box_pos as int].spec_is_valid());
                } else {
                    assert(bxs.contains(y));
                    let j = choose|j: int| 0 <= j < bxs.len() && bxs[j] == y;
                    assert(bxs[j] == y);
                }
            }
            let m = bv.step_n(pos as int, dir, (steps - 1) as nat)->Some_0;
            if steps == 1 {
                assert(bv.step_n(pos as int, dir, 0) == Some(pos as int));
                assert(new_player_pos == pos);
                let j = choose|j: int| 0 <= j < bxs.len() && bxs[j] == pos;
                assert(bxs[j] == pos);
                assert(bv.grid[pos as int].spec_is_space());
                assert(!self.boxes@.contains(new_player_pos));
            } else {
                assert(bv.grid[m].spec_is_valid());
                assert(!bxs.contains(m as usize));
                assert(m != new_box_pos as int);
                assert(!self.boxes@.contains(new_player_pos));
            }
            assert(self.inv_core_at(new_player_pos));
        }
        self.update_player_pos(new_player_pos, true);
        let ghost before_push = self.moves@;
        let mut k: usize = 0;
        while k < steps
            invariant
                k <= steps,
                self.moves@ =~= before_push + Seq::new(k as nat, |i: int| dir),
                self.inv(),
                self.board@ == bv,
                self.player_pos == new_player_pos,
                forall|y: usize|
                    self.boxes@.contains(y) <==> ((bxs.contains(y) && y != pos) || y
                        == new_box_pos),
                self.boxes@.len() == bxs.len(),
                before_push == moves0 + delta,
            decreases steps - k,
        {
            self.moves.push(dir);
            proof {
                assert(self.moves@ =~= before_push + Seq::new((k + 1) as nat, |i: int| dir));
            }
            k = k + 1;
        }
        proof {
            assert(self.moves@ == moves0 + delta + Seq::new(steps as nat, |i: int| dir)) by {
                assert(self.moves@ =~= (moves0 + delta) + Seq::new(steps as nat, |i: int| dir));
            }
        }
        new_box_pos
    }
}


/// The first `x` items of one rendered row, joined without padding.
pub open spec fn row_concat_upto(row: Seq<&str>, x: int) -> Seq<char>
    decreases x,
{
    if x <= 0 {
        Seq::empty()
    } else {
        row_concat_upto(row, x - 1) + row[x - 1]@
    }
}

/// The characters of one rendered row.
pub open spec fn row_concat(row: Seq<&str>) -> Seq<char> {
    row_concat_upto(row, row.len() as int)
}

/// The first `y` rendered rows, joined by newlines.
pub open spec fn grid_concat_upto(g: Seq<Seq<&str>>, y: int) -> Seq<char>
    decreases y,
{
    if y <= 0 {
        Seq::empty()
    } else if y == 1 {
        row_concat(g[0])
    } else {
        grid_concat_upto(g, y - 1) + seq!['\n'] + row_concat(g[y - 1])
    }
}

/// The characters of a rendered grid: rows joined by newlines.
pub open spec fn grid_concat(g: Seq<Seq<&str>>) -> Seq<char> {
    grid_concat_upto(g, g.len() as int)
}

/// Joins a 2d vector of strings into a single output string.
///
/// Each item of a row is joined without any padding; each row is joined by
/// a newline.
pub fn vec2d_to_string(grid: Vec<Vec<&str>>) -> (r: String)
    ensures
        r@ == grid_concat(grid@.map_values(|row: Vec<&str>| row@)),
{
    let ghost g = grid@.map_values(|row: Vec<&str>| row@);
    let mut out = String::new();
    let n = grid.len();
    let mut y: usize = 0;
    proof {
        reveal_strlit("\n");
        assert("\n"@ =~= seq!['\n']);
    }
    while y < n
        invariant
            n == g.len(),
            g == grid@.map_values(|row: Vec<&str>| row@),
            y <= n,
            out@ == grid_concat_upto(g, y as int),
            "\n"@ =~= seq!['\n'],
        decreases n - y,
    {
        let ghost sep: Seq<char> = if y == 0 {
            Seq::empty()
        } else {
            seq!['\n']
        };
        if y > 0 {
            out.append("\n");
        }
        let row = &grid[y];
        let m = row.len();
        let mut x: usize = 0;
        while x < m
            invariant
                m == g[y as int].len(),
                y < n,
                n == g.len(),
                g == grid@.map_values(|row2: Vec<&str>| row2@),
                row@ == g[y as int],
                x <= m,
                out@ == grid_concat_upto(g, y as int) + sep + row_concat_upto(
                    g[y as int],
                    x as int,
                ),
                sep == (if y == 0 {
                    Seq::<char>::empty()
                } else {
                    seq!['\n']
                }),
                "\n"@ =~= seq!['\n'],
            decreases m - x,
        {
            out.append(row[x]);
            proof {
                assert(out@ =~= grid_concat_upto(g, y as int) + sep + row_concat_upto(
                    g[y as int],
                    x as int + 1,
                ));
            }
            x = x + 1;
        }
        proof {
            if y == 0 {
                assert(out@ =~= row_concat(g[0]));
                assert(grid_concat_upto(g, 1) == row_concat(g[0]));
            } else {
                assert(out@ =~= grid_concat_upto(g, y as int) + seq!['\n'] + row_concat(
                    g[y as int],
                ));
            }
        }
        y = y + 1;
    }
    proof {
        if n == 0 {
            assert(out@ =~= Seq::<char>::empty());
        }
    }
    out
}


/// What one cell shows in the valid-positions view: valid cells win over
/// everything else.
pub open spec fn valid_view_cell(bv: BoardView, boxes: Seq<usize>, player: int, p: int) -> Seq<
    char,
> {
    if bv.grid[p].spec_is_valid() {
        "O"@
    } else {
        cell_str(bv, boxes, player, p)
    }
}

/// What one cell shows in the movable-positions view: reachable cells win
/// over everything but the agent itself.
pub open spec fn movable_view_cell(
    bv: BoardView,
    boxes: Seq<usize>,
    movable: Seq<bool>,
    player: int,
    p: int,
) -> Seq<char> {
    if movable[p] && p != player {
        "+"@
    } else {
        cell_str(bv, boxes, player, p)
    }
}

impl Puzzle {
    /// Returns the grid as a 2d vector of strings corresponding to each
    /// cell.
    pub fn get_2d_grid_vec(&self) -> (r: Vec<Vec<&'static str>>)
        requires
            self.board@.dims_ok(),
        ensures
            r@.len() == self.board@.height,
            forall|y: int| 0 <= y < r@.len() ==> (#[trigger] r@[y])@.len() == self.board@.width,
            forall|y: int, x: int|
                0 <= y < r@.len() && 0 <= x < self.board@.width ==> (#[trigger] r@[y]@[x])@
                    == cell_str(
                    self.board@,
                    self.boxes@,
                    self.player_pos as int,
                    y * self.board@.width + x,
                ),
    {
        self.board.to_2d_grid_str(self.player_pos, &self.boxes)
    }

    /// A string view of the grid with every valid cell marked `O`.
    pub fn view_valid_positions(&self) -> (r: String)
        requires
            self.board@.dims_ok(),
        ensures
            exists|m: Seq<Seq<&str>>|
                r@ == grid_concat(m) && #[trigger] m.len() == self.board@.height && (forall|y: int|
                    0 <= y < m.len() ==> (#[trigger] m[y]).len() == self.board@.width) && (forall|
                    y: int,
                    x: int,
                |
                    0 <= y < m.len() && 0 <= x < self.board@.width ==> (#[trigger] m[y][x])@
                        == valid_view_cell(
                        self.board@,
                        self.boxes@,
                        self.player_pos as int,
                        y * self.board@.width + x,
                    )),
    {
        let ghost bv = self.board@;
        let mut grid = self.get_2d_grid_vec();
        let w = self.board.width;
        let h = self.board.height;
        let mut y: usize = 0;
        while y < h
            invariant
                bv == self.board@,
                bv.dims_ok(),
                w == bv.width,
                h == bv.height,
                grid@.len() == h,
                forall|y2: int| 0 <= y2 < h ==> (#[trigger] grid@[y2])@.len() == w,
                forall|y2: int, x2: int|
                    0 <= y2 < y && 0 <= x2 < w ==> (#[trigger] grid@[y2]@[x2])@ == valid_view_cell(
                        bv,
                        self.boxes@,
                        self.player_pos as int,
                        y2 * w + x2,
                    ),
                forall|y2: int, x2: int|
                    y <= y2 < h && 0 <= x2 < w ==> (#[trigger] grid@[y2]@[x2])@ == cell_str(
                        bv,
                        self.boxes@,
                        self.player_pos as int,
                        y2 * w + x2,
                    ),
            decreases h - y,
        {
            let mut x: usize = 0;
            proof {
                assert(y * w + w <= w * h) by (nonlinear_arith)
                    requires
                        0 <= y < h,
                        1 <= w,
                ;
            }
            while x < w
                invariant
                    bv == self.board@,
                    bv.dims_ok(),
                    w == bv.width,
                    h == bv.height,
                    y < h,
                    (y * w + w) as int <= w * h,
                    x <= w,
                    grid@.len() == h,
                    forall|y2: int| 0 <= y2 < h ==> (#[trigger] grid@[y2])@.len() == w,
                    forall|y2: int, x2: int|
                        0 <= y2 < y && 0 <= x2 < w ==> (#[trigger] grid@[y2]@[x2])@
                            == valid_view_cell(
                            bv,
                            self.boxes@,
                            self.player_pos as int,
                            y2 * w + x2,
                        ),
                    forall|x2: int|
                        0 <= x2 < x ==> (#[trigger] grid@[y as int]@[x2])@ == valid_view_cell(
                            bv,
                            self.boxes@,
                            self.player_pos as int,
                            y as int * w + x2,
                        ),
                    forall|x2: int|
                        x <= x2 < w ==> (#[trigger] grid@[y as int]@[x2])@ == cell_str(
                            bv,
                            self.boxes@,
                            self.player_pos as int,
                            y as int * w + x2,
                        ),
                    forall|y2: int, x2: int|
                        y < y2 < h && 0 <= x2 < w ==> (#[trigger] grid@[y2]@[x2])@ == cell_str(
                            bv,
                            self.boxes@,
                            self.player_pos as int,
                            y2 * w + x2,
                        ),
                decreases w - x,
            {
                let p = y * w + x;
                if self.board.square_at(p).is_valid() {
                    let row = &mut grid[y];
                    row[x] = "O";
                    proof {
                        reveal_strlit("O");
                    }
                }
                x = x + 1;
            }
            y = y + 1;
        }
        let ghost m = grid@.map_values(|row: Vec<&str>| row@);
        let out = vec2d_to_string(grid);
        proof {
            assert(out@ == grid_concat(m));
        }
        out
    }

    /// Returns a string view of the movable positions in the grid.
    pub fn view_movable_positions(&self) -> (r: String)
        requires
            self.board@.dims_ok(),
            self.movable_positions@.len() == self.board@.grid.len(),
        ensures
            exists|m: Seq<Seq<&str>>|
                r@ == grid_concat(m) && #[trigger] m.len() == self.board@.height && (forall|y: int|
                    0 <= y < m.len() ==> (#[trigger] m[y]).len() == self.board@.width) && (forall|
                    y: int,
                    x: int,
                |
                    0 <= y < m.len() && 0 <= x < self.board@.width ==> (#[trigger] m[y][x])@
                        == movable_view_cell(
                        self.board@,
                        self.boxes@,
                        self.movable_positions@,
                        self.player_pos as int,
                        y * self.board@.width + x,
                    )),
    {
        let ghost bv = self.board@;
        let mut grid = self.get_2d_grid_vec();
        let w = self.board.width;
        let h = self.board.height;
        let mut y: usize = 0;
        while y < h
            invariant
                bv == self.board@,
                bv.dims_ok(),
                self.movable_positions@.len() == bv.grid.len(),
                w == bv.width,
                h == bv.height,
                grid@.len() == h,
                forall|y2: int| 0 <= y2 < h ==> (#[trigger] grid@[y2])@.len() == w,
                forall|y2: int, x2: int|
                    0 <= y2 < y && 0 <= x2 < w ==> (#[trigger] grid@[y2]@[x2])@
                        == movable_view_cell(
                        bv,
                        self.boxes@,
                        self.movable_positions@,
                        self.player_pos as int,
                        y2 * w + x2,
                    ),
                forall|y2: int, x2: int|
                    y <= y2 < h && 0 <= x2 < w ==> (#[trigger] grid@[y2]@[x2])@ == cell_str(
                        bv,
                        self.boxes@,
                        self.player_pos as int,
                        y2 * w + x2,
                    ),
            decreases h - y,
        {
            let mut x: usize = 0;
            proof {
                assert(y * w + w <= w * h) by (nonlinear_arith)
                    requires
                        0 <= y < h,
                        1 <= w,
                ;
            }
            while x < w
                invariant
                    bv == self.board@,
                    bv.dims_ok(),
                    self.movable_positions@.len() == bv.grid.len(),
                    w == bv.width,
                    h == bv.height,
                    y < h,
                    (y * w + w) as int <= w * h,
                    x <= w,
                    grid@.len() == h,
                    forall|y2: int| 0 <= y2 < h ==> (#[trigger] grid@[y2])@.len() == w,
                    forall|y2: int, x2: int|
                        0 <= y2 < y && 0 <= x2 < w ==> (#[trigger] grid@[y2]@[x2])@
                            == movable_view_cell(
                            bv,
                            self.boxes@,
                            self.movable_positions@,
                            self.player_pos as int,
                            y2 * w + x2,
                        ),
                    forall|x2: int|
                        0 <= x2 < x ==> (#[trigger] grid@[y as int]@[x2])@ == movable_view_cell(
                            bv,
                            self.boxes@,
                            self.movable_positions@,
                            self.player_pos as int,
                            y as int * w + x2,
                        ),
                    forall|x2: int|
                        x <= x2 < w ==> (#[trigger] grid@[y as int]@[x2])@ == cell_str(
                            bv,
                            self.boxes@,
                            self.player_pos as int,
                            y as int * w + x2,
                        ),
                    forall|y2: int, x2: int|
                        y < y2 < h && 0 <= x2 < w ==> (#[trigger] grid@[y2]@[x2])@ == cell_str(
                            bv,
                            self.boxes@,
                            self.player_pos as int,
                            y2 * w + x2,
                        ),
                decreases w - x,
            {
                let p = y * w + x;
                if self.movable_positions[p] && p != self.player_pos {
                    let row = &mut grid[y];
                    row[x] = "+";
                    proof {
                        reveal_strlit("+");
                    }
                }
                x = x + 1;
            }
            y = y + 1;
        }
        let ghost m = grid@.map_values(|row: Vec<&str>| row@);
        let out = vec2d_to_string(grid);
        proof {
            assert(out@ == grid_concat(m));
        }
        out
    }
}

/// Two crates never share a cell, and the agent shares a cell with no
/// crate: distinctness follows from the state invariant.
pub proof fn lemma_occupancy(p: Puzzle)
    requires
        p.inv_core(),
    ensures
        forall|i: int, j: int|
            0 <= i < j < p.boxes@.len() ==> p.boxes@[i] != p.boxes@[j],
        forall|i: int| 0 <= i < p.boxes@.len() ==> p.boxes@[i] != p.player_pos,
{
    assert forall|i: int| 0 <= i < p.boxes@.len() implies p.boxes@[i] != p.player_pos by {
        if p.boxes@[i] == p.player_pos {
            assert(p.boxes@.contains(p.player_pos));
        }
    }
}

/// Pushing a crate keeps the crate count equal to the target count: the
/// board is untouched and the crate set keeps its size, so a balanced
/// state stays balanced along every search trajectory.
pub proof fn lemma_balance_preserved(pre: Puzzle, post: Puzzle)
    requires
        pre.boxes@.len() == pre.board@.targets.len(),
        post.boxes@.len() == pre.boxes@.len(),
        post.board@ == pre.board@,
    ensures
        post.boxes@.len() == post.board@.targets.len(),
{
}

} // verus!

