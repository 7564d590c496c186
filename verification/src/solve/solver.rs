//! The search driver: breadth-first search over canonicalised states.
//!
//! States are dequeued in order, expanded through every legal push, and
//! deduplicated by their encoding. The set of encodings is finite, so the
//! search always terminates; the first dequeued solved state is returned.

use vstd::arithmetic::power::pow;
use vstd::prelude::*;

use super::board::Board;
use super::board::BoardView;
use super::cells::CellSet;
use super::counting::bounded_seq;
use super::counting::enc_space;
use super::counting::lemma_enc_space_card;
use super::counting::lemma_no_dup_in_set;
use super::deadlock::Detector;
use super::deadlock::spec_deadlocked;
use super::game::Cfg;
use super::game::cfg_of;
use super::game::clear_run;
use super::game::lemma_play_append;
use super::game::lemma_play_pushes;
use super::game::lemma_walk_plays;
use super::game::play;
use super::directions::Dir;
use super::directions::dir_field;
use super::puzzle::Puzzle;
use super::puzzle::lemma_run_len_prefix;
use super::puzzle::run_len;
use super::directions::flip;
use super::reach::lemma_reach_walkable;
use super::reach::reach;
use super::reach::walk;
use super::reach::walkable;
use super::squares::Flags;
use crate::question::Position;
use crate::question::Question;
use crate::question::Square;
use vstd::arithmetic::div_mod::lemma_fundamental_div_mod_converse;

verus! {

/// The push count of a crate is bounded by the grid size, so counting one
/// more never overflows.
proof fn run_len_bound_for(puzzle: Puzzle, box_pos: usize, dir: Dir)
    requires
        puzzle.inv(),
        puzzle.board@.in_bounds(box_pos as int),
    ensures
        puzzle.spec_push_steps(box_pos as int, dir, true) <= puzzle.board@.grid.len(),
{
    super::puzzle::lemma_run_len_bound(puzzle.board@, puzzle.boxes@, box_pos as int, dir);
}

/// The element views of a vector of encodings.
pub open spec fn enc_views(v: Seq<Vec<usize>>) -> Seq<Seq<usize>> {
    v.map_values(|x: Vec<usize>| x@)
}

/// The deduplication identity of a state: its sorted crate cells followed
/// by its agent cell.
pub open spec fn encoding_of(p: Puzzle) -> Seq<usize> {
    p.boxes@ + seq![p.player_pos]
}

/// The state is canonical: its agent stands on the smallest cell of its
/// reachable region.
pub open spec fn canonical_state(p: Puzzle) -> bool {
    &&& (p.player_pos as int) < p.movable_positions@.len()
    &&& p.movable_positions@[p.player_pos as int]
    &&& forall|q: int|
        0 <= q < p.movable_positions@.len() && #[trigger] p.movable_positions@[q]
            ==> p.player_pos <= q
}

/// `s` is one admissible successor of `parent`: it arises by a legal push
/// of `k` cells, and the pushed crate's final cell passes the deadlock
/// policy.
pub open spec fn expanded_from(bv: BoardView, parent: Puzzle, s: Puzzle) -> bool {
    exists|b: usize, d: Dir, k: usize|
        {
            &&& #[trigger] parent.can_push(b, d, k)
            &&& bv.step_n(b as int, d, k as nat) is Some
            &&& !spec_deadlocked(bv, s.boxes@, bv.step_n(b as int, d, k as nat)->Some_0 as usize)
            &&& forall|y: usize|
                s.boxes@.contains(y) <==> ((parent.boxes@.contains(y) && y != b) || y == bv.step_n(
                    b as int,
                    d,
                    k as nat,
                )->Some_0 as usize)
        }
}


/// The crate set after pushing the crate at `b` a run of `k` cells in
/// direction `d`.
pub open spec fn succ_boxes(bv: BoardView, bset: Set<usize>, b: usize, d: Dir, k: usize) -> Set<
    usize,
> {
    bset.remove(b).insert(bv.step_n(b as int, d, k as nat)->Some_0 as usize)
}

/// Some recorded encoding names exactly this successor: its crate set,
/// and as agent cell the canonical representative (the minimum) of the
/// region that the pushing agent, standing at `m`, can reach among those
/// crates.
pub open spec fn recorded_successor(bv: BoardView, v: Seq<Vec<usize>>, bset: Set<usize>, m: int) -> bool {
    exists|j: int|
        0 <= j < v.len() && {
            let e = (#[trigger] v[j])@;
            &&& e.len() >= 1
            &&& e.drop_last().to_set() == bset
            &&& reach(bv, e.drop_last(), m, e.last() as int)
            &&& forall|q: int|
                #[trigger] reach(bv, e.drop_last(), e.last() as int, q) ==> e.last() <= q
        }
}

/// The push of `k0` cells from this state was rejected by the deadlock
/// policy.
pub open spec fn shielded(bv: BoardView, bset: Set<usize>, b: usize, d: Dir, k0: usize) -> bool {
    exists|bs: Seq<usize>|
        #![trigger spec_deadlocked(bv, bs, bv.step_n(b as int, d, k0 as nat)->Some_0 as usize)]
        bs.to_set() == succ_boxes(bv, bset, b, d, k0) && spec_deadlocked(
            bv,
            bs,
            bv.step_n(b as int, d, k0 as nat)->Some_0 as usize,
        )
}

/// The push of `k` cells is accounted for: its crate set was recorded, or
/// some shorter push of the same crate and direction was flagged as a
/// deadlock (which prunes the longer ones).
pub open spec fn succ_accounted(
    bv: BoardView,
    v: Seq<Vec<usize>>,
    bset: Set<usize>,
    b: usize,
    d: Dir,
    k: usize,
) -> bool {
    ||| recorded_successor(
        bv,
        v,
        succ_boxes(bv, bset, b, d, k),
        bv.step_n(b as int, d, (k - 1) as nat)->Some_0,
    )
    ||| exists|k0: usize| 1 <= k0 <= k && #[trigger] shielded(bv, bset, b, d, k0)
}

/// Accounting survives recording more encodings.
proof fn lemma_accounted_mono(
    bv: BoardView,
    v1: Seq<Vec<usize>>,
    v2: Seq<Vec<usize>>,
    bset: Set<usize>,
    b: usize,
    d: Dir,
    k: usize,
)
    requires
        v1.is_prefix_of(v2),
        succ_accounted(bv, v1, bset, b, d, k),
    ensures
        succ_accounted(bv, v2, bset, b, d, k),
{
    let m = bv.step_n(b as int, d, (k - 1) as nat)->Some_0;
    if recorded_successor(bv, v1, succ_boxes(bv, bset, b, d, k), m) {
        let j = choose|j: int|
            0 <= j < v1.len() && {
                let e = (#[trigger] v1[j])@;
                &&& e.len() >= 1
                &&& e.drop_last().to_set() == succ_boxes(bv, bset, b, d, k)
                &&& reach(bv, e.drop_last(), m, e.last() as int)
                &&& forall|q: int|
                    #[trigger] reach(bv, e.drop_last(), e.last() as int, q) ==> e.last() <= q
            };
        assert(v2[j] == v1[j]);
        assert(recorded_successor(bv, v2, succ_boxes(bv, bset, b, d, k), m));
    }
}

/// Every legal push from `p` is accounted for in the recorded encodings.
pub open spec fn state_closed(bv: BoardView, v: Seq<Vec<usize>>, p: Puzzle) -> bool {
    forall|b: usize, d: Dir, k: usize|
        #[trigger] p.can_push(b, d, k) ==> succ_accounted(bv, v, p.boxes@.to_set(), b, d, k)
}

proof fn lemma_state_closed_mono(bv: BoardView, v1: Seq<Vec<usize>>, v2: Seq<Vec<usize>>, p: Puzzle)
    requires
        v1.is_prefix_of(v2),
        state_closed(bv, v1, p),
    ensures
        state_closed(bv, v2, p),
{
    assert forall|b: usize, d: Dir, k: usize| #[trigger] p.can_push(b, d, k) implies succ_accounted(
        bv,
        v2,
        p.boxes@.to_set(),
        b,
        d,
        k,
    ) by {
        lemma_accounted_mono(bv, v1, v2, p.boxes@.to_set(), b, d, k);
    }
}

/// A recorded encoding is backed: some queued state carries it, or some
/// well-formed, unsolved state carries it and has all its pushes accounted
/// for (solved states are returned at dequeue, never expanded).
pub open spec fn visited_entry_ok(
    bv: BoardView,
    qs: Seq<Puzzle>,
    vs: Seq<Vec<usize>>,
    jv: int,
) -> bool {
    ||| exists|j2: int| 0 <= j2 < qs.len() && #[trigger] encoding_of(qs[j2]) == vs[jv]@
    ||| exists|p: Puzzle|
        #[trigger] encoding_of(p) == vs[jv]@ && p.inv() && p.board@ == bv && !p.spec_solved()
            && state_closed(bv, vs, p)
}

/// A canonical state's agent cell is the least cell of its reachable
/// region.
proof fn lemma_canonical_min(p: Puzzle)
    requires
        p.inv(),
        canonical_state(p),
    ensures
        forall|q: int|
            #[trigger] reach(p.board@, p.boxes@, p.player_pos as int, q) ==> p.player_pos <= q,
{
    assert forall|q: int|
        #[trigger] reach(p.board@, p.boxes@, p.player_pos as int, q) implies p.player_pos
        <= q by {
        lemma_reach_walkable(p.board@, p.boxes@, p.player_pos as int, q);
        if q != p.player_pos as int {
            assert(p.movable_positions@[q]);
        }
    }
}

/// A legal push runs no further than the move generator enumerates.
proof fn lemma_can_push_bound(puzzle: Puzzle, b: usize, d: Dir, k: usize)
    requires
        puzzle.inv(),
        puzzle.can_push(b, d, k),
    ensures
        puzzle.boxes@.contains(b),
        1 <= k <= puzzle.spec_push_steps(b as int, d, true),
{
    let bv = puzzle.board@;
    let pp = bv.step1(b as int, flip(d))->Some_0;
    assert(puzzle.movable_positions@[pp]);
    assert(super::reach::reach(bv, puzzle.boxes@, puzzle.player_pos as int, pp));
    super::reach::lemma_reach_walkable(bv, puzzle.boxes@, puzzle.player_pos as int, pp);
    if pp == puzzle.player_pos as int {
        puzzle.lemma_player_walkable();
    }
    assert(walkable(bv, puzzle.boxes@, pp));
}

/// Compares two encodings cell by cell.
fn vec_eq(a: &Vec<usize>, b: &Vec<usize>) -> (r: bool)
    ensures
        r == (a@ == b@),
{
    let n = a.len();
    if n != b.len() {
        proof {
            assert(a@ != b@);
        }
        return false;
    }
    let mut i: usize = 0;
    while i < n
        invariant
            n == a@.len(),
            n == b@.len(),
            i <= n,
            forall|k: int| 0 <= k < i ==> a@[k] == b@[k],
        decreases n - i,
    {
        if a[i] != b[i] {
            proof {
                assert(a@ != b@);
            }
            return false;
        }
        i = i + 1;
    }
    proof {
        assert(a@ =~= b@);
    }
    true
}

/// Whether `enc` was already recorded.
fn contains_encoding(visited: &Vec<Vec<usize>>, enc: &Vec<usize>) -> (r: bool)
    ensures
        r == enc_views(visited@).contains(enc@),
{
    let n = visited.len();
    let mut i: usize = 0;
    while i < n
        invariant
            n == visited@.len(),
            i <= n,
            forall|k: int| 0 <= k < i ==> enc_views(visited@)[k] != enc@,
        decreases n - i,
    {
        if vec_eq(&visited[i], enc) {
            proof {
                assert(enc_views(visited@)[i as int] == enc@);
            }
            return true;
        }
        proof {
            assert(enc_views(visited@)[i as int] == visited@[i as int]@);
        }
        i = i + 1;
    }
    proof {
        if enc_views(visited@).contains(enc@) {
            let k = choose|k: int|
                0 <= k < enc_views(visited@).len() && enc_views(visited@)[k] == enc@;
            assert(enc_views(visited@)[k] != enc@);
        }
    }
    false
}

/// Breadth-first Sokoban search over one board.
pub struct Solver {
    pub puzzles: Vec<Puzzle>,
    pub detector: Detector,
    pub visited: Vec<Vec<usize>>,
    /// The crate count shared by every queued state.
    pub nboxes: Ghost<nat>,
    /// The configuration the search started from; every queued state's
    /// move log replays to that state's configuration.
    pub start_cfg: Ghost<Cfg>,
}

impl Solver {
    /// Queued states live on the detector's board, satisfy the state
    /// invariant and share one crate count; recorded encodings are distinct
    /// and drawn from the finite encoding space.
    pub open spec fn inv(&self) -> bool {
        &&& self.detector.board@.wf()
        &&& self.detector.board@.targets_valid()
        &&& self.detector.board@.analysed()
        &&& forall|i: int|
            0 <= i < self.puzzles@.len() ==> (#[trigger] self.puzzles@[i]).inv()
                && self.puzzles@[i].board@ == self.detector.board@
                && self.puzzles@[i].boxes@.len() == self.nboxes@
                && canonical_state(self.puzzles@[i])
                && play(self.detector.board@, self.start_cfg@, self.puzzles@[i].moves@) == Some(
                cfg_of(self.puzzles@[i]),
            )
        &&& enc_views(self.visited@).no_duplicates()
        &&& forall|i: int|
            0 <= i < self.visited@.len() ==> bounded_seq(
                (#[trigger] self.visited@[i])@,
                self.detector.board@.grid.len(),
                self.nboxes@ + 1,
            )
    }

    /// Builds the solver state for one puzzle: terrain with pull analysis,
    /// detector, and the canonicalised starting state as the sole queue
    /// entry.
    pub fn _create(
        grid: Vec<Flags>,
        width: usize,
        height: usize,
        boxes: CellSet,
        targets: CellSet,
        start_pos: usize,
    ) -> (r: Solver)
        requires
            1 <= width,
            1 <= height,
            grid@.len() == width * height,
            grid@.len() < usize::MAX,
            targets.wf(),
            forall|i: int|
                0 <= i < targets@.len() ==> #[trigger] targets@[i] < grid@.len()
                    && grid@[targets@[i] as int].spec_is_space(),
            forall|p: int| 0 <= p < grid@.len() ==> !(#[trigger] grid@[p]).spec_is_valid(),
            boxes.wf(),
            forall|i: int|
                0 <= i < boxes@.len() ==> #[trigger] boxes@[i] < grid@.len()
                    && grid@[boxes@[i] as int].spec_is_space(),
            (start_pos as int) < grid@.len(),
            grid@[start_pos as int].spec_is_space(),
            !boxes@.contains(start_pos),
        ensures
            r.inv(),
            r.puzzles@.len() == 1,
            r.nboxes@ == boxes@.len(),
            r.puzzles@[0].boxes@ == boxes@,
            r.detector.board@.targets == targets@,
            r.detector.board@.width == width,
            r.detector.board@.height == height,
            r.detector.board@.grid.len() == grid@.len(),
            forall|p: int|
                0 <= p < grid@.len() ==> (#[trigger] r.detector.board@.grid[p]).spec_is_wall()
                    == grid@[p].spec_is_wall(),
            r.puzzles@[0].board@.targets == targets@,
            r.start_cfg@ == (Cfg { boxes: boxes@.to_set(), player: start_pos as int }),
            r.visited@.len() == 0,
    {
        let board = Board::new(width, height, grid, targets);
        let detector = Detector::new(&board);
        let ghost nb = boxes@.len();
        let ghost bv = board@;
        let ghost cfg0 = Cfg { boxes: boxes@.to_set(), player: start_pos as int };
        let mut puzzle = Puzzle::new(board, start_pos, boxes);
        puzzle.update_movable_positions();
        let ghost empty_moves = puzzle.moves@;
        puzzle.move_to_top_left();
        proof {
            let delta = choose|delta: Seq<Dir>|
                puzzle.moves@ == empty_moves + delta && walk(
                    bv,
                    puzzle.boxes@,
                    start_pos as int,
                    delta,
                ) == Some(puzzle.player_pos as int);
            lemma_walk_plays(bv, puzzle.boxes@, start_pos as int, delta, puzzle.player_pos as int);
            assert(puzzle.moves@ =~= delta);
            assert(play(bv, cfg0, puzzle.moves@) == Some(cfg_of(puzzle)));
        }
        let mut puzzles: Vec<Puzzle> = Vec::new();
        puzzles.push(puzzle);
        Solver { puzzles, detector, visited: Vec::new(), nboxes: Ghost(nb), start_cfg: Ghost(cfg0) }
    }


    /// Tries one successor: clones the state, makes the push, canonicalises,
    /// and either records and enqueues it, skips it as already seen, or
    /// reports the deadlock that shields this and any longer push.
    #[verifier::rlimit(100)]
    fn expand_one(
        &mut self,
        puzzle: &Puzzle,
        box_pos: usize,
        dir: Dir,
        steps: usize,
        Ghost(q0): Ghost<Seq<Puzzle>>,
        Ghost(v0): Ghost<int>,
        Ghost(vinit): Ghost<Seq<Vec<usize>>>,
    ) -> (stopped: bool)
        requires
            old(self).inv(),
            puzzle.inv(),
            puzzle.board@ == old(self).detector.board@,
            puzzle.boxes@.len() == old(self).nboxes@,
            play(old(self).detector.board@, old(self).start_cfg@, puzzle.moves@) == Some(
                cfg_of(*puzzle),
            ),
            puzzle.can_push(box_pos, dir, steps),
            vinit.is_prefix_of(old(self).visited@),
            0 <= v0 <= old(self).visited@.len(),
            q0.len() <= old(self).puzzles@.len(),
            old(self).puzzles@.len() - q0.len() == old(self).visited@.len() - v0,
            forall|t: int|
                0 <= t < old(self).visited@.len() - v0 ==> encoding_of(
                    #[trigger] old(self).puzzles@[q0.len() + t],
                ) == old(self).visited@[v0 + t]@,
            forall|i: int|
                q0.len() <= i < old(self).puzzles@.len() ==> expanded_from(
                    old(self).detector.board@,
                    *puzzle,
                    #[trigger] old(self).puzzles@[i],
                ) && !enc_views(vinit).contains(encoding_of(old(self).puzzles@[i])),
        ensures
            final(self).inv(),
            final(self).detector.board@ == old(self).detector.board@,
            final(self).nboxes@ == old(self).nboxes@,
            final(self).start_cfg@ == old(self).start_cfg@,
            final(self).puzzles@.len() >= old(self).puzzles@.len(),
            forall|i: int|
                0 <= i < old(self).puzzles@.len() ==> final(self).puzzles@[i] == old(
                    self,
                ).puzzles@[i],
            old(self).visited@.is_prefix_of(final(self).visited@),
            final(self).puzzles@.len() - q0.len() == final(self).visited@.len() - v0,
            forall|t: int|
                0 <= t < final(self).visited@.len() - v0 ==> encoding_of(
                    #[trigger] final(self).puzzles@[q0.len() + t],
                ) == final(self).visited@[v0 + t]@,
            forall|i: int|
                q0.len() <= i < final(self).puzzles@.len() ==> expanded_from(
                    old(self).detector.board@,
                    *puzzle,
                    #[trigger] final(self).puzzles@[i],
                ) && !enc_views(vinit).contains(encoding_of(final(self).puzzles@[i])),
            succ_accounted(
                old(self).detector.board@,
                final(self).visited@,
                puzzle.boxes@.to_set(),
                box_pos,
                dir,
                steps,
            ),
            stopped ==> shielded(
                old(self).detector.board@,
                puzzle.boxes@.to_set(),
                box_pos,
                dir,
                steps,
            ),
    {
        let ghost bvd = self.detector.board@;
        let ghost pbset = puzzle.boxes@.to_set();
        let mut stopped = false;
        let mut new_puzzle = puzzle.duplicate();
        proof {
            assert(new_puzzle.inv());
            assert(new_puzzle.can_push(box_pos, dir, steps));
        }
        let ghost np0 = new_puzzle;
        let last_moved = new_puzzle.move_box(box_pos, dir, steps);
        let ghost np1 = new_puzzle;
        new_puzzle.move_to_top_left();
        proof {
            lemma_expansion_replays(
                self.detector.board@,
                self.start_cfg@,
                *puzzle,
                np0,
                np1,
                new_puzzle,
                box_pos,
                dir,
                steps,
                last_moved,
            );
            assert((last_moved as int) as usize == last_moved);
            assert(bvd.step_n(box_pos as int, dir, steps as nat)->Some_0 as usize
                == last_moved);
            assert forall|y: usize|
                new_puzzle.boxes@.to_set().contains(y) implies succ_boxes(
                bvd,
                pbset,
                box_pos,
                dir,
                steps,
            ).contains(y) by {
                assert(new_puzzle.boxes@.contains(y));
            }
            assert forall|y: usize|
                succ_boxes(bvd, pbset, box_pos, dir, steps).contains(
                y,
            ) implies new_puzzle.boxes@.to_set().contains(y) by {
                if y != last_moved {
                    assert(puzzle.boxes@.contains(y));
                }
                assert(new_puzzle.boxes@.contains(y));
            }
            assert(new_puzzle.boxes@.to_set() =~= succ_boxes(
                bvd,
                pbset,
                box_pos,
                dir,
                steps,
            ));
        }
        let encoding = new_puzzle.get_encoding();
        let ghost landing = bvd.step_n(box_pos as int, dir, (steps - 1) as nat)->Some_0;
        proof {
            assert(encoding@.drop_last() =~= new_puzzle.boxes@);
            assert(encoding@.drop_last().to_set() == succ_boxes(
                bvd,
                pbset,
                box_pos,
                dir,
                steps,
            ));
            assert(encoding@.last() == new_puzzle.player_pos);
            assert(landing == np1.player_pos as int);
            assert(reach(bvd, new_puzzle.boxes@, landing, new_puzzle.player_pos as int)) by {
                assert(np1.movable_positions@[new_puzzle.player_pos as int]);
                assert(np1.inv());
                assert(np1.board@ == bvd && np1.boxes@ == new_puzzle.boxes@);
            }
            assert(canonical_state(new_puzzle));
            lemma_canonical_min(new_puzzle);
            assert forall|q: int|
                #[trigger] reach(bvd, encoding@.drop_last(), encoding@.last() as int, q) implies encoding@.last()
                <= q by {
                assert(encoding@.drop_last() == new_puzzle.boxes@);
                assert(reach(
                    new_puzzle.board@,
                    new_puzzle.boxes@,
                    new_puzzle.player_pos as int,
                    q,
                ));
            }
            assert(reach(bvd, encoding@.drop_last(), landing, encoding@.last() as int));
        }
        if !contains_encoding(&self.visited, &encoding) {
            if self.detector.is_deadlocked(
                new_puzzle.player_pos,
                &new_puzzle.boxes,
                last_moved,
            ) {
                stopped = true;
                proof {
                    assert(spec_deadlocked(
                        bvd,
                        new_puzzle.boxes@,
                        bvd.step_n(box_pos as int, dir, steps as nat)->Some_0 as usize,
                    ));
                    assert(shielded(bvd, pbset, box_pos, dir, steps));
                }
            } else {
                let ghost vs0 = self.visited@;
                let ghost qs0 = self.puzzles@;
                proof {
                    assert(encoding@.len() == self.nboxes@ + 1);
                    assert forall|k: int|
                        0 <= k < encoding@.len() implies encoding@[k]
                        < self.detector.board@.grid.len() by {
                        if k < new_puzzle.boxes@.len() {
                assert(encoding@[k] == new_puzzle.boxes@[k]);
                        } else {
                assert(encoding@[k] == new_puzzle.player_pos);
                        }
                    }
                    assert(canonical_state(new_puzzle));
                    assert(expanded_from(
                        old(self).detector.board@,
                        *puzzle,
                        new_puzzle,
                    )) by {
                        let bvd = old(self).detector.board@;
                        assert(puzzle.can_push(box_pos, dir, steps));
                        assert(bvd.step_n(box_pos as int, dir, steps as nat) == Some(
                last_moved as int,
                        ));
                        assert((last_moved as int) as usize == last_moved);
                        assert(!spec_deadlocked(bvd, new_puzzle.boxes@, last_moved));
                        assert(forall|y: usize|
                new_puzzle.boxes@.contains(y) <==> ((
                puzzle.boxes@.contains(y) && y != box_pos) || y
                    == last_moved));
                    }
                    assert(encoding@ == encoding_of(new_puzzle));
                    assert(!enc_views(vinit).contains(encoding@)) by {
                    assert(vinit.is_prefix_of(old(self).visited@));
                    if enc_views(vinit).contains(encoding@) {
                        let kk = choose|kk: int|
                            0 <= kk < vinit.len() && enc_views(vinit)[kk] == encoding@;
                        assert(old(self).visited@[kk] == vinit[kk]);
                        assert(enc_views(old(self).visited@)[kk] == encoding@);
                    }
                }
                assert(!enc_views(old(self).visited@).contains(encoding@)) by {
                        if enc_views(old(self).visited@).contains(encoding@) {
                let k = choose|k: int|
                    0 <= k < old(self).visited@.len() && enc_views(
                        old(self).visited@,
                    )[k] == encoding@;
                assert(enc_views(vs0)[k] == vs0[k]@);
                assert(vs0[k] == old(self).visited@[k]);
                assert(enc_views(vs0)[k] == encoding@);
                assert(enc_views(vs0).contains(encoding@));
                        }
                    }
                }
                self.visited.push(encoding);
                proof {
                    assert(enc_views(self.visited@) =~= enc_views(vs0).push(
                        self.visited@[vs0.len() as int]@,
                    ));
                }
                self.puzzles.push(new_puzzle);
                proof {
                    assert(vs0.is_prefix_of(self.visited@));
                    assert(encoding_of(new_puzzle) =~= encoding@);
                    assert forall|t: int|
                        0 <= t < self.visited@.len() - v0 implies encoding_of(
                        #[trigger] self.puzzles@[q0.len() + t],
                    ) == self.visited@[v0 + t]@ by {
                        if t < self.visited@.len() - v0 - 1 {
                assert(self.puzzles@[q0.len() + t] == qs0[q0.len() + t]);
                assert(self.visited@[v0 + t] == vs0[v0 + t]);
                        } else {
                assert(self.puzzles@[q0.len() + t] == new_puzzle);
                assert(self.visited@[v0 + t]@ == encoding@);
                        }
                    }
                    assert(self.visited@[vs0.len() as int]@ == encoding@);
                    assert(recorded_successor(
                        bvd,
                        self.visited@,
                        succ_boxes(bvd, pbset, box_pos, dir, steps),
                        landing,
                    ));
                            }
            }
        } else {
            proof {
                assert(enc_views(self.visited@).contains(encoding@));
                let j = choose|j: int|
                    0 <= j < enc_views(self.visited@).len() && enc_views(
                        self.visited@,
                    )[j] == encoding@;
                assert(self.visited@[j]@ == encoding@);
                assert(self.visited@[j]@.len() >= 1);
                assert(self.visited@[j]@.drop_last().to_set() == succ_boxes(
                    bvd,
                    pbset,
                    box_pos,
                    dir,
                    steps,
                ));
                assert(recorded_successor(
                    bvd,
                    self.visited@,
                    succ_boxes(bvd, pbset, box_pos, dir, steps),
                    landing,
                ));
            }
        }
        proof {
            assert(succ_accounted(bvd, self.visited@, pbset, box_pos, dir, steps));
        }
        stopped
    }

    /// Expands one state: enqueues every not-yet-seen, not-deadlocked
    /// successor produced by a legal push. Crates are tried in ascending
    /// cell order, directions north, east, south, west, push lengths from
    /// one up; a deadlock at some length prunes the longer pushes of the
    /// same crate and direction.
    #[verifier::rlimit(100)]
    fn expand(&mut self, puzzle: Puzzle)
        requires
            old(self).inv(),
            puzzle.inv(),
            puzzle.board@ == old(self).detector.board@,
            puzzle.boxes@.len() == old(self).nboxes@,
            play(old(self).detector.board@, old(self).start_cfg@, puzzle.moves@) == Some(
                cfg_of(puzzle),
            ),
        ensures
            final(self).inv(),
            final(self).detector.board@ == old(self).detector.board@,
            final(self).nboxes@ == old(self).nboxes@,
            final(self).start_cfg@ == old(self).start_cfg@,
            final(self).puzzles@.len() >= old(self).puzzles@.len(),
            forall|i: int|
                0 <= i < old(self).puzzles@.len() ==> final(self).puzzles@[i] == old(
                    self,
                ).puzzles@[i],
            final(self).visited@.len() >= old(self).visited@.len(),
            old(self).visited@.is_prefix_of(final(self).visited@),
            final(self).puzzles@.len() - old(self).puzzles@.len() == final(self).visited@.len()
                - old(self).visited@.len(),
            forall|t: int|
                0 <= t < final(self).visited@.len() - old(self).visited@.len()
                    ==> encoding_of(
                    #[trigger] final(self).puzzles@[old(self).puzzles@.len() + t],
                ) == final(self).visited@[old(self).visited@.len() + t]@,
            forall|i: int|
                old(self).puzzles@.len() <= i < final(self).puzzles@.len() ==> expanded_from(
                    old(self).detector.board@,
                    puzzle,
                    #[trigger] final(self).puzzles@[i],
                ) && !enc_views(old(self).visited@).contains(
                    encoding_of(final(self).puzzles@[i]),
                ) && enc_views(final(self).visited@).contains(
                    encoding_of(final(self).puzzles@[i]),
                ),
            forall|b: usize, d: Dir, k: usize|
                #[trigger] puzzle.can_push(b, d, k) ==> succ_accounted(
                    old(self).detector.board@,
                    final(self).visited@,
                    puzzle.boxes@.to_set(),
                    b,
                    d,
                    k,
                ),
    {
        let ghost q0 = self.puzzles@;
        let ghost v0 = self.visited@.len() as int;
        let ghost bvd = self.detector.board@;
        let ghost pbset = puzzle.boxes@.to_set();
        let pushes = puzzle.find_all_pushes(true);
        let plen = pushes.len();
        let mut pi: usize = 0;
        while pi < plen
            invariant
                self.inv(),
                puzzle.inv(),
                puzzle.board@ == self.detector.board@,
                puzzle.boxes@.len() == self.nboxes@,
                self.detector.board@ == old(self).detector.board@,
                self.nboxes@ == old(self).nboxes@,
                self.start_cfg@ == old(self).start_cfg@,
                play(self.detector.board@, self.start_cfg@, puzzle.moves@) == Some(cfg_of(puzzle)),
                plen == pushes@.len(),
                plen == puzzle.boxes@.len(),
                pi <= plen,
                forall|i: int|
                    0 <= i < pushes@.len() ==> (#[trigger] pushes@[i]).0 == puzzle.boxes@[i],
                forall|i: int, d: Dir|
                    0 <= i < pushes@.len() ==> #[trigger] dir_field(pushes@[i].1, d)
                        == puzzle.spec_push_steps(puzzle.boxes@[i] as int, d, true),
                q0.len() <= self.puzzles@.len(),
                forall|i: int| 0 <= i < q0.len() ==> self.puzzles@[i] == q0[i],
                0 <= v0 <= self.visited@.len(),
                self.puzzles@.len() - q0.len() == self.visited@.len() - v0,
                forall|t: int|
                    0 <= t < self.visited@.len() - v0 ==> encoding_of(
                        #[trigger] self.puzzles@[q0.len() + t],
                    ) == self.visited@[v0 + t]@,
                old(self).visited@.is_prefix_of(self.visited@),
                forall|i: int|
                    q0.len() <= i < self.puzzles@.len() ==> expanded_from(
                        old(self).detector.board@,
                        puzzle,
                        #[trigger] self.puzzles@[i],
                    ) && !enc_views(old(self).visited@).contains(encoding_of(self.puzzles@[i])),
                bvd == self.detector.board@,
                pbset == puzzle.boxes@.to_set(),
                forall|i2: int, d: Dir, k: usize|
                    0 <= i2 < pi && 1 <= k <= puzzle.spec_push_steps(
                        puzzle.boxes@[i2] as int,
                        d,
                        true,
                    ) ==> #[trigger] succ_accounted(
                        bvd,
                        self.visited@,
                        pbset,
                        puzzle.boxes@[i2],
                        d,
                        k,
                    ),
            decreases plen - pi,
        {
            let box_pos = pushes[pi].0;
            let holder = pushes[pi].1;
            proof {
                assert(puzzle.boxes@.contains(box_pos));
            }
            let dirs = Dir::iter();
            let mut di: usize = 0;
            while di < 4
                invariant
                    self.inv(),
                    puzzle.inv(),
                    puzzle.board@ == self.detector.board@,
                    puzzle.boxes@.len() == self.nboxes@,
                    self.detector.board@ == old(self).detector.board@,
                    self.nboxes@ == old(self).nboxes@,
                    self.start_cfg@ == old(self).start_cfg@,
                    play(self.detector.board@, self.start_cfg@, puzzle.moves@) == Some(
                        cfg_of(puzzle),
                    ),
                    di <= 4,
                    dirs@.len() == 4,
                    puzzle.boxes@.contains(box_pos),
                    (box_pos as int) < puzzle.board@.grid.len(),
                    forall|d: Dir|
                        dir_field(holder, d) == puzzle.spec_push_steps(box_pos as int, d, true),
                    q0.len() <= self.puzzles@.len(),
                    forall|i: int| 0 <= i < q0.len() ==> self.puzzles@[i] == q0[i],
                    0 <= v0 <= self.visited@.len(),
                    self.puzzles@.len() - q0.len() == self.visited@.len() - v0,
                    forall|t: int|
                        0 <= t < self.visited@.len() - v0 ==> encoding_of(
                            #[trigger] self.puzzles@[q0.len() + t],
                        ) == self.visited@[v0 + t]@,
                    old(self).visited@.is_prefix_of(self.visited@),
                    forall|i: int|
                        q0.len() <= i < self.puzzles@.len() ==> expanded_from(
                            old(self).detector.board@,
                            puzzle,
                            #[trigger] self.puzzles@[i],
                        ) && !enc_views(old(self).visited@).contains(
                            encoding_of(self.puzzles@[i]),
                        ),
                    bvd == self.detector.board@,
                    pbset == puzzle.boxes@.to_set(),
                    dirs@ =~= seq![Dir::North, Dir::East, Dir::South, Dir::West],
                    box_pos == puzzle.boxes@[pi as int],
                    pi < puzzle.boxes@.len(),
                    forall|i2: int, d: Dir, k: usize|
                        0 <= i2 < pi && 1 <= k <= puzzle.spec_push_steps(
                            puzzle.boxes@[i2] as int,
                            d,
                            true,
                        ) ==> #[trigger] succ_accounted(
                            bvd,
                            self.visited@,
                            pbset,
                            puzzle.boxes@[i2],
                            d,
                            k,
                        ),
                    forall|j2: int, k: usize|
                        0 <= j2 < di && 1 <= k <= puzzle.spec_push_steps(
                            box_pos as int,
                            dirs@[j2],
                            true,
                        ) ==> #[trigger] succ_accounted(
                            bvd,
                            self.visited@,
                            pbset,
                            box_pos,
                            dirs@[j2],
                            k,
                        ),
                decreases 4 - di,
            {
                let dir = dirs[di];
                let max_steps = holder.get(dir);
                let mut steps: usize = 1;
                let mut stop = false;
                while !stop && steps <= max_steps
                    invariant
                        self.inv(),
                        puzzle.inv(),
                        puzzle.board@ == self.detector.board@,
                        puzzle.boxes@.len() == self.nboxes@,
                        self.detector.board@ == old(self).detector.board@,
                        self.nboxes@ == old(self).nboxes@,
                        self.start_cfg@ == old(self).start_cfg@,
                        play(self.detector.board@, self.start_cfg@, puzzle.moves@) == Some(
                            cfg_of(puzzle),
                        ),
                        puzzle.boxes@.contains(box_pos),
                        (box_pos as int) < puzzle.board@.grid.len(),
                        1 <= steps,
                        max_steps == puzzle.spec_push_steps(box_pos as int, dir, true),
                        q0.len() <= self.puzzles@.len(),
                        forall|i: int| 0 <= i < q0.len() ==> self.puzzles@[i] == q0[i],
                        0 <= v0 <= self.visited@.len(),
                        self.puzzles@.len() - q0.len() == self.visited@.len() - v0,
                        forall|t: int|
                            0 <= t < self.visited@.len() - v0 ==> encoding_of(
                                #[trigger] self.puzzles@[q0.len() + t],
                            ) == self.visited@[v0 + t]@,
                        old(self).visited@.is_prefix_of(self.visited@),
                        forall|i: int|
                            q0.len() <= i < self.puzzles@.len() ==> expanded_from(
                                old(self).detector.board@,
                                puzzle,
                                #[trigger] self.puzzles@[i],
                            ) && !enc_views(old(self).visited@).contains(
                                encoding_of(self.puzzles@[i]),
                            ),
                        bvd == self.detector.board@,
                        pbset == puzzle.boxes@.to_set(),
                        forall|i2: int, d: Dir, k: usize|
                            0 <= i2 < pi && 1 <= k <= puzzle.spec_push_steps(
                                puzzle.boxes@[i2] as int,
                                d,
                                true,
                            ) ==> #[trigger] succ_accounted(
                                bvd,
                                self.visited@,
                                pbset,
                                puzzle.boxes@[i2],
                                d,
                                k,
                            ),
                        forall|j2: int, k: usize|
                            0 <= j2 < di && 1 <= k <= puzzle.spec_push_steps(
                                box_pos as int,
                                dirs@[j2],
                                true,
                            ) ==> #[trigger] succ_accounted(
                                bvd,
                                self.visited@,
                                pbset,
                                box_pos,
                                dirs@[j2],
                                k,
                            ),
                        forall|k2: usize|
                            1 <= k2 < steps ==> #[trigger] succ_accounted(
                                bvd,
                                self.visited@,
                                pbset,
                                box_pos,
                                dir,
                                k2,
                            ),
                        stop ==> exists|k0: usize|
                            1 <= k0 < steps && #[trigger] shielded(bvd, pbset, box_pos, dir, k0),
                    decreases (if stop {
                        0int
                    } else {
                        max_steps - steps + 1
                    }),
                {
                    proof {
                        run_len_bound_for(puzzle, box_pos, dir);
                        assert(puzzle.spec_push_steps(box_pos as int, dir, true) >= 1);
                        match puzzle.board@.step1(box_pos as int, super::directions::flip(dir)) {
                            Some(pp) => {
                                assert(0 <= pp < puzzle.movable_positions@.len()
                                    && puzzle.movable_positions@[pp]) by {
                                    if !(walkable(puzzle.board@, puzzle.boxes@, pp) && (0 <= pp
                                        < puzzle.movable_positions@.len()
                                        && puzzle.movable_positions@[pp])) {
                                        assert(puzzle.spec_push_steps(box_pos as int, dir, true)
                                            == 0);
                                    }
                                }
                                assert(max_steps == run_len(
                                    puzzle.board@,
                                    puzzle.boxes@,
                                    box_pos as int,
                                    dir,
                                ));
                            },
                            None => {
                                assert(false);
                            },
                        }
                        assert(puzzle.can_push(box_pos, dir, steps));
                    }
                    let ghost vpre = self.visited@;
                    let stopped = self.expand_one(
                        &puzzle,
                        box_pos,
                        dir,
                        steps,
                        Ghost(q0),
                        Ghost(v0),
                        Ghost(old(self).visited@),
                    );
                    if stopped {
                        stop = true;
                    }
                    proof {
                        assert(vpre.is_prefix_of(self.visited@));
                        assert forall|i2: int, d2: Dir, k2: usize|
                            0 <= i2 < pi && 1 <= k2 <= puzzle.spec_push_steps(
                                puzzle.boxes@[i2] as int,
                                d2,
                                true,
                            ) implies #[trigger] succ_accounted(
                            bvd,
                            self.visited@,
                            pbset,
                            puzzle.boxes@[i2],
                            d2,
                            k2,
                        ) by {
                            lemma_accounted_mono(
                                bvd,
                                vpre,
                                self.visited@,
                                pbset,
                                puzzle.boxes@[i2],
                                d2,
                                k2,
                            );
                        }
                        assert forall|j2: int, k2: usize|
                            0 <= j2 < di && 1 <= k2 <= puzzle.spec_push_steps(
                                box_pos as int,
                                dirs@[j2],
                                true,
                            ) implies #[trigger] succ_accounted(
                            bvd,
                            self.visited@,
                            pbset,
                            box_pos,
                            dirs@[j2],
                            k2,
                        ) by {
                            lemma_accounted_mono(
                                bvd,
                                vpre,
                                self.visited@,
                                pbset,
                                box_pos,
                                dirs@[j2],
                                k2,
                            );
                        }
                        assert forall|k2: usize|
                            1 <= k2 < steps implies #[trigger] succ_accounted(
                            bvd,
                            self.visited@,
                            pbset,
                            box_pos,
                            dir,
                            k2,
                        ) by {
                            lemma_accounted_mono(bvd, vpre, self.visited@, pbset, box_pos, dir, k2);
                        }
                    }
                    steps = steps + 1;
                }
                proof {
                    assert forall|k: usize|
                        1 <= k <= puzzle.spec_push_steps(box_pos as int, dir, true) implies #[trigger] succ_accounted(
                        bvd,
                        self.visited@,
                        pbset,
                        box_pos,
                        dir,
                        k,
                    ) by {
                        if k >= steps {
                            assert(stop);
                            let k0 = choose|k0: usize|
                                1 <= k0 < steps && #[trigger] shielded(
                                    bvd,
                                    pbset,
                                    box_pos,
                                    dir,
                                    k0,
                                );
                            assert(1 <= k0 <= k);
                        }
                    }
                    assert forall|j2: int, k: usize|
                        0 <= j2 < di + 1 && 1 <= k <= puzzle.spec_push_steps(
                            box_pos as int,
                            dirs@[j2],
                            true,
                        ) implies #[trigger] succ_accounted(
                        bvd,
                        self.visited@,
                        pbset,
                        box_pos,
                        dirs@[j2],
                        k,
                    ) by {
                        if j2 == di {
                            assert(dirs@[j2] == dir);
                        }
                    }
                }
                di = di + 1;
            }
            proof {
                assert forall|i2: int, d: Dir, k: usize|
                    0 <= i2 < pi + 1 && 1 <= k <= puzzle.spec_push_steps(
                        puzzle.boxes@[i2] as int,
                        d,
                        true,
                    ) implies #[trigger] succ_accounted(
                    bvd,
                    self.visited@,
                    pbset,
                    puzzle.boxes@[i2],
                    d,
                    k,
                ) by {
                    if i2 == pi {
                        let j2: int = match d {
                            Dir::North => 0,
                            Dir::East => 1,
                            Dir::South => 2,
                            Dir::West => 3,
                        };
                        assert(dirs@[j2] == d);
                        assert(succ_accounted(bvd, self.visited@, pbset, box_pos, dirs@[j2], k));
                    }
                }
            }
            pi = pi + 1;
        }
        proof {
            assert forall|b: usize, d: Dir, k: usize|
                #[trigger] puzzle.can_push(b, d, k) implies succ_accounted(
                bvd,
                self.visited@,
                pbset,
                b,
                d,
                k,
            ) by {
                lemma_can_push_bound(puzzle, b, d, k);
                let i2 = choose|i2: int| 0 <= i2 < puzzle.boxes@.len() && puzzle.boxes@[i2] == b;
                assert(puzzle.boxes@[i2] == b);
                assert(succ_accounted(bvd, self.visited@, pbset, puzzle.boxes@[i2], d, k));
            }
            assert forall|i: int|
                q0.len() <= i < self.puzzles@.len() implies enc_views(self.visited@).contains(
                encoding_of(#[trigger] self.puzzles@[i]),
            ) by {
                let t = i - q0.len();
                assert(encoding_of(self.puzzles@[q0.len() + t]) == self.visited@[v0 + t]@);
                assert(enc_views(self.visited@)[v0 + t] == self.visited@[v0 + t]@);
            }
        }
    }

    /// Runs the search: dequeues states in breadth-first order and returns
    /// the first solved one, or `None` once every reachable, undeduplicated
    /// and unpruned state has been examined. If any queued state is already
    /// solved, a solution is found. A `None` answer carries a closure
    /// certificate: no queued state was solved, and every legal push from
    /// every starting state and from every recorded state leads to a
    /// successor whose full encoding (crate set and canonical agent cell)
    /// is itself recorded, or was cut off by the deadlock policy.
    #[verifier::rlimit(100)]
    pub fn solve(&mut self) -> (r: Option<Puzzle>)
        requires
            old(self).inv(),
        ensures
            final(self).inv(),
            final(self).detector.board@ == old(self).detector.board@,
            r matches Some(p) ==> p.inv() && p.spec_solved() && p.board@ == old(
                self,
            ).detector.board@ && p.boxes@.len() == old(self).nboxes@ && play(
                old(self).detector.board@,
                old(self).start_cfg@,
                p.moves@,
            ) == Some(cfg_of(p)),
            (exists|j: int|
                0 <= j < old(self).puzzles@.len() && (#[trigger] old(
                    self,
                ).puzzles@[j]).spec_solved()) ==> r is Some,
            r is None ==> final(self).puzzles@.len() == 0,
            r is None ==> forall|j: int|
                0 <= j < old(self).puzzles@.len() ==> state_closed(
                    old(self).detector.board@,
                    final(self).visited@,
                    #[trigger] old(self).puzzles@[j],
                ),
            r is None ==> forall|jv: int|
                old(self).visited@.len() <= jv < final(self).visited@.len()
                    ==> #[trigger] visited_entry_ok(
                    old(self).detector.board@,
                    final(self).puzzles@,
                    final(self).visited@,
                    jv,
                ),
    {
        let ghost vstart = old(self).visited@.len() as int;
        let ghost n = self.detector.board@.grid.len();
        let ghost enclen = self.nboxes@ + 1;
        let ghost bound = pow(n as int, enclen);
        let ghost had_solved = exists|j: int|
            0 <= j < self.puzzles@.len() && (#[trigger] self.puzzles@[j]).spec_solved();
        proof {
            lemma_enc_space_card(n, enclen);
            lemma_no_dup_in_set(enc_views(self.visited@), enc_space(n, enclen));
        }
        while self.puzzles.len() > 0
            invariant
                self.inv(),
                self.detector.board@ == old(self).detector.board@,
                self.nboxes@ == old(self).nboxes@,
                self.start_cfg@ == old(self).start_cfg@,
                n == self.detector.board@.grid.len(),
                enclen == self.nboxes@ + 1,
                bound == pow(n as int, enclen),
                self.visited@.len() <= bound,
                had_solved ==> exists|j: int|
                    0 <= j < self.puzzles@.len() && (#[trigger] self.puzzles@[j]).spec_solved(),
                forall|j: int|
                    0 <= j < old(self).puzzles@.len() ==> (exists|j2: int|
                        0 <= j2 < self.puzzles@.len() && self.puzzles@[j2] == old(
                            self,
                        ).puzzles@[j]) || state_closed(
                        old(self).detector.board@,
                        self.visited@,
                        #[trigger] old(self).puzzles@[j],
                    ),
                0 <= vstart <= self.visited@.len(),
                vstart == old(self).visited@.len(),
                old(self).visited@.is_prefix_of(self.visited@),
                forall|jv: int|
                    vstart <= jv < self.visited@.len() ==> #[trigger] visited_entry_ok(
                        old(self).detector.board@,
                        self.puzzles@,
                        self.visited@,
                        jv,
                    ),
            decreases bound - self.visited@.len(), self.puzzles@.len(),
        {
            let ghost qpre = self.puzzles@;
            let puzzle = self.puzzles.remove(0);
            if puzzle.is_solved() {
                return Some(puzzle);
            }
            proof {
                if had_solved {
                    let j = choose|j: int| 0 <= j < qpre.len() && (#[trigger] qpre[j]).spec_solved();
                    assert(j >= 1);
                    assert(self.puzzles@[j - 1] == qpre[j]);
                }
            }
            let ghost qmid = self.puzzles@;
            let ghost vmid = self.visited@;
            self.expand(puzzle);
            proof {
                if had_solved {
                    let j = choose|j: int| 0 <= j < qmid.len() && (#[trigger] qmid[j]).spec_solved();
                    assert(self.puzzles@[j] == qmid[j]);
                }
                lemma_enc_space_card(n, enclen);
                lemma_no_dup_in_set(enc_views(self.visited@), enc_space(n, enclen));
                assert forall|j: int| 0 <= j < old(self).puzzles@.len() implies (exists|j2: int|
                    0 <= j2 < self.puzzles@.len() && self.puzzles@[j2] == old(
                        self,
                    ).puzzles@[j]) || state_closed(
                    old(self).detector.board@,
                    self.visited@,
                    #[trigger] old(self).puzzles@[j],
                ) by {
                    let root = old(self).puzzles@[j];
                    if exists|j2: int| 0 <= j2 < qpre.len() && qpre[j2] == root {
                        let j2 = choose|j2: int| 0 <= j2 < qpre.len() && qpre[j2] == root;
                        if j2 == 0 {
                            assert(root == puzzle);
                            assert(state_closed(old(self).detector.board@, self.visited@, root));
                        } else {
                            assert(qmid[j2 - 1] == qpre[j2]);
                            assert(self.puzzles@[j2 - 1] == qmid[j2 - 1]);
                        }
                    } else {
                        assert(state_closed(old(self).detector.board@, vmid, root));
                        assert(vmid.is_prefix_of(self.visited@));
                        lemma_state_closed_mono(
                            old(self).detector.board@,
                            vmid,
                            self.visited@,
                            root,
                        );
                    }
                }
                assert forall|jv: int| vstart <= jv < self.visited@.len() implies #[trigger] visited_entry_ok(
                    old(self).detector.board@,
                    self.puzzles@,
                    self.visited@,
                    jv,
                ) by {
                    assert(vmid.is_prefix_of(self.visited@));
                    assert(self.puzzles@.len() - qmid.len() == self.visited@.len() - vmid.len());
                    if jv < vmid.len() {
                        assert(visited_entry_ok(old(self).detector.board@, qpre, vmid, jv));
                        assert(vmid =~= self.visited@.subrange(0, vmid.len() as int));
                        assert(self.visited@[jv] == vmid[jv]);
                        if exists|j2: int|
                            0 <= j2 < qpre.len() && #[trigger] encoding_of(qpre[j2])
                                == vmid[jv]@ {
                            let j2 = choose|j2: int|
                                0 <= j2 < qpre.len() && #[trigger] encoding_of(qpre[j2])
                                    == vmid[jv]@;
                            if j2 == 0 {
                                assert(qpre[0] == puzzle);
                                assert(encoding_of(puzzle) == self.visited@[jv]@);
                                assert(state_closed(
                                    old(self).detector.board@,
                                    self.visited@,
                                    puzzle,
                                ));
                            } else {
                                assert(qmid[j2 - 1] == qpre[j2]);
                                assert(self.puzzles@[j2 - 1] == qmid[j2 - 1]);
                                assert(encoding_of(self.puzzles@[j2 - 1])
                                    == self.visited@[jv]@);
                            }
                        } else {
                            let p = choose|p: Puzzle|
                                #[trigger] encoding_of(p) == vmid[jv]@ && p.inv() && p.board@
                                    == old(self).detector.board@ && state_closed(
                                    old(self).detector.board@,
                                    vmid,
                                    p,
                                );
                            lemma_state_closed_mono(
                                old(self).detector.board@,
                                vmid,
                                self.visited@,
                                p,
                            );
                            assert(encoding_of(p) == self.visited@[jv]@);
                        }
                    } else {
                        let t = jv - vmid.len();
                        assert(0 <= t < self.visited@.len() - vmid.len());
                        assert(qmid.len() + t < self.puzzles@.len());
                        assert(encoding_of(self.puzzles@[qmid.len() + t]) == self.visited@[
                            vmid.len() + t
                        ]@);
                    }
                    assert(visited_entry_ok(
                        old(self).detector.board@,
                        self.puzzles@,
                        self.visited@,
                        jv,
                    ));
                }
            }
        }
        None
    }
}



/// One expansion replays: walking behind the crate, pushing it `steps`
/// cells and walking to the canonical cell is a legal play from the
/// expanded state's configuration to the successor's.
proof fn lemma_expansion_replays(
    bv: BoardView,
    scfg: Cfg,
    puzzle: Puzzle,
    np0: Puzzle,
    np1: Puzzle,
    np2: Puzzle,
    box_pos: usize,
    dir: Dir,
    steps: usize,
    last_moved: usize,
)
    requires
        puzzle.board@ == bv,
        bv.wf(),
        play(bv, scfg, puzzle.moves@) == Some(cfg_of(puzzle)),
        np0.board@ == bv,
        np0.boxes@ == puzzle.boxes@,
        np0.player_pos == puzzle.player_pos,
        np0.moves@ == puzzle.moves@,
        np0.inv(),
        np0.can_push(box_pos, dir, steps),
        np1.board@ == bv,
        bv.step_n(box_pos as int, dir, steps as nat) == Some(last_moved as int),
        bv.step_n(box_pos as int, dir, (steps - 1) as nat) == Some(np1.player_pos as int),
        forall|y: usize|
            np1.boxes@.contains(y) <==> ((np0.boxes@.contains(y) && y != box_pos) || y
                == last_moved),
        exists|delta: Seq<Dir>|
            np1.moves@ == np0.moves@ + delta + Seq::new(steps as nat, |i: int| dir) && walk(
                bv,
                np0.boxes@,
                np0.player_pos as int,
                delta,
            ) == bv.step1(box_pos as int, flip(dir)),
        np2.board@ == bv,
        np2.boxes@ == np1.boxes@,
        exists|d2: Seq<Dir>|
            np2.moves@ == np1.moves@ + d2 && walk(bv, np1.boxes@, np1.player_pos as int, d2)
                == Some(np2.player_pos as int),
    ensures
        play(bv, scfg, np2.moves@) == Some(cfg_of(np2)),
{
    let pp_opt = bv.step1(box_pos as int, flip(dir));
    assert(pp_opt is Some);
    let pp = pp_opt->Some_0;
    let reps = Seq::new(steps as nat, |i: int| dir);
    let delta = choose|delta: Seq<Dir>|
        np1.moves@ == np0.moves@ + delta + Seq::new(steps as nat, |i: int| dir) && walk(
            bv,
            np0.boxes@,
            np0.player_pos as int,
            delta,
        ) == bv.step1(box_pos as int, flip(dir));
    lemma_walk_plays(bv, np0.boxes@, np0.player_pos as int, delta, pp);
    let bset = np0.boxes@.to_set();
    assert(np0.boxes@.contains(box_pos));
    assert(bset.contains(box_pos));
    assert(clear_run(bv, bset, box_pos as int, dir, steps as nat)) by {
        assert forall|k: nat| 1 <= k <= steps as nat implies (#[trigger] bv.step_n(
            box_pos as int,
            dir,
            k,
        )) is Some && bv.in_bounds(bv.step_n(box_pos as int, dir, k)->Some_0) && bv.grid[
            bv.step_n(box_pos as int, dir, k)->Some_0
        ].spec_is_space() && !bset.contains(
            bv.step_n(box_pos as int, dir, k)->Some_0 as usize,
        ) by {
            lemma_run_len_prefix(bv, np0.boxes@, box_pos as int, dir, k);
            let ck = bv.step_n(box_pos as int, dir, k)->Some_0;
            assert(!np0.boxes@.contains(ck as usize));
        }
    }
    assert(bv.grid[box_pos as int].spec_is_space()) by {
        let j = choose|j: int| 0 <= j < np0.boxes@.len() && np0.boxes@[j] == box_pos;
        assert(np0.boxes@[j] == box_pos);
    }
    lemma_play_pushes(bv, bset, box_pos as int, dir, steps as nat);
    let mid1 = Cfg { boxes: bset, player: pp };
    let pushed = Cfg {
        boxes: bset.remove(box_pos).insert(last_moved),
        player: np1.player_pos as int,
    };
    assert(play(bv, mid1, reps) == Some(pushed)) by {
        assert(bv.step_n(box_pos as int, dir, steps as nat)->Some_0 as usize == last_moved);
        assert(bv.step_n(box_pos as int, dir, (steps - 1) as nat)->Some_0 == np1.player_pos as int);
    }
    assert(cfg_of(np1) =~~= pushed) by {
        assert forall|y: usize| np1.boxes@.to_set().contains(y) implies pushed.boxes.contains(
            y,
        ) by {
            assert(np1.boxes@.contains(y));
        }
        assert forall|y: usize| pushed.boxes.contains(y) implies np1.boxes@.to_set().contains(
            y,
        ) by {
            assert(np1.boxes@.contains(y));
        }
        assert(np1.boxes@.to_set() =~= pushed.boxes);
    }
    let d2 = choose|d2: Seq<Dir>|
        np2.moves@ == np1.moves@ + d2 && walk(bv, np1.boxes@, np1.player_pos as int, d2) == Some(
            np2.player_pos as int,
        );
    lemma_walk_plays(bv, np1.boxes@, np1.player_pos as int, d2, np2.player_pos as int);
    let after_walk = Cfg { boxes: np1.boxes@.to_set(), player: np2.player_pos as int };
    assert(cfg_of(np2) =~~= after_walk) by {
        assert(np2.boxes@.to_set() =~= np1.boxes@.to_set());
    }
    assert(play(bv, cfg_of(np0), delta) == Some(mid1)) by {
        assert(cfg_of(np0) =~~= (Cfg { boxes: np0.boxes@.to_set(), player: np0.player_pos as int }));
    }
    lemma_play_append(bv, cfg_of(np0), delta, reps);
    assert(play(bv, cfg_of(np0), delta + reps) == Some(pushed));
    assert(play(bv, pushed, d2) == Some(after_walk)) by {
        assert(play(bv, cfg_of(np1), d2) == Some(after_walk));
        assert(cfg_of(np1) == pushed);
    }
    lemma_play_append(bv, cfg_of(np0), delta + reps, d2);
    assert(play(bv, cfg_of(np0), delta + reps + d2) == Some(after_walk));
    assert(cfg_of(np0) =~~= cfg_of(puzzle)) by {
        assert(np0.boxes@.to_set() =~= puzzle.boxes@.to_set());
    }
    lemma_play_append(bv, scfg, puzzle.moves@, delta + reps + d2);
    assert(np2.moves@ =~= puzzle.moves@ + (delta + reps + d2)) by {
        assert(np1.moves@ == np0.moves@ + delta + reps);
        assert(np2.moves@ == np1.moves@ + d2);
    }
    assert(play(bv, scfg, np2.moves@) == Some(after_walk));
    assert(cfg_of(np2) == after_walk);
}

/// The row-major index of a coordinate pair.
pub open spec fn pos_index(p: Position, w: int) -> int {
    p.1 * w + p.0
}

/// Row-major flattening is injective while the column stays inside the row.
proof fn lemma_flat_inj(w: int, x1: int, y1: int, x2: int, y2: int)
    requires
        w >= 1,
        0 <= x1 < w,
        0 <= x2 < w,
        0 <= y1,
        0 <= y2,
        y1 * w + x1 == y2 * w + x2,
    ensures
        x1 == x2 && y1 == y2,
{
    lemma_fundamental_div_mod_converse(y1 * w + x1, w, y1, x1);
    lemma_fundamental_div_mod_converse(y2 * w + x2, w, y2, x2);
}

impl Solver {
    /// Builds a solver from a parsed puzzle: flattens the grid row-major
    /// and maps every coordinate to its cell index.
    pub fn from(question: &Question) -> (r: Solver)
        requires
            question.wf(),
            (question.width as int) * (question.height as int) < usize::MAX,
        ensures
            r.inv(),
            r.puzzles@.len() == 1,
            r.detector.board@.width == question.width,
            r.puzzles@[0].board@ == r.detector.board@,
            forall|c: usize|
                #[trigger] r.puzzles@[0].boxes@.contains(c) <==> exists|i: int|
                    0 <= i < question.boxes@.len() && c == pos_index(
                        #[trigger] question.boxes@[i],
                        question.width as int,
                    ),
            forall|c: usize|
                #[trigger] r.detector.board@.targets.contains(c) <==> exists|i: int|
                    0 <= i < question.targets@.len() && c == pos_index(
                        #[trigger] question.targets@[i],
                        question.width as int,
                    ),
            r.detector.board@.grid.len() == (question.width as int) * (question.height as int),
            forall|p: int|
                0 <= p < r.detector.board@.grid.len() ==> ((#[trigger] r.detector.board@.grid[
                    p
                ]).spec_is_space() <==> question.grid@[p / (question.width as int)]@[p % (
                question.width as int)] == Square::Space),
            r.start_cfg@.player == pos_index(question.start, question.width as int),
            forall|c: usize|
                #[trigger] r.start_cfg@.boxes.contains(c) <==> exists|i: int|
                    0 <= i < question.boxes@.len() && c == pos_index(
                        #[trigger] question.boxes@[i],
                        question.width as int,
                    ),
            r.visited@.len() == 0,
    {
        let w = question.width();
        let h = question.height();
        let ghost wi = w as int;
        let rows = question.rows();
        let mut grid: Vec<Flags> = Vec::new();
        let mut y: usize = 0;
        proof {
            assert(wi * (h as int) < usize::MAX);
        }
        while y < h
            invariant
                question.wf(),
                w == question.width,
                h == question.height,
                wi == w as int,
                wi * (h as int) < usize::MAX,
                rows == &question.grid,
                y <= h,
                grid@.len() == y * wi,
                forall|p: int|
                    0 <= p < grid@.len() ==> #[trigger] grid@[p] == (if question.grid@[p / wi]@[p
                        % wi] == Square::Wall {
                        Flags::Wall
                    } else {
                        Flags::Space
                    }),
            decreases h - y,
        {
            proof {
                assert(y * wi + wi <= h as int * wi) by (nonlinear_arith)
                    requires
                        (y as int) < h as int,
                        wi >= 1,
                ;
                assert(h as int * wi == wi * h as int) by (nonlinear_arith);
            }
            let row = &rows[y];
            let mut x: usize = 0;
            while x < w
                invariant
                    question.wf(),
                    w == question.width,
                    h == question.height,
                    wi == w as int,
                    y < h,
                    y * wi + wi <= wi * (h as int),
                    wi * (h as int) < usize::MAX,
                    row == &question.grid@[y as int],
                    x <= w,
                    grid@.len() == y * wi + x,
                    forall|p: int|
                        0 <= p < grid@.len() ==> #[trigger] grid@[p] == (if question.grid@[p
                            / wi]@[p % wi] == Square::Wall {
                            Flags::Wall
                        } else {
                            Flags::Space
                        }),
                decreases w - x,
            {
                let sq = row[x];
                let f = match sq {
                    Square::Wall => Flags::Wall,
                    Square::Space => Flags::Space,
                };
                grid.push(f);
                proof {
                    let p0 = y * wi + x;
                    lemma_fundamental_div_mod_converse(p0, wi, y as int, x as int);
                    assert(p0 / wi == y as int && p0 % wi == x as int);
                }
                x = x + 1;
            }
            proof {
                assert((y as int + 1) * wi == y as int * wi + wi) by (nonlinear_arith);
            }
            y = y + 1;
        }
        proof {
            assert((h as int) * wi == wi * (h as int)) by (nonlinear_arith);
            assert(grid@.len() == wi * (h as int));
        }
        proof {
            lemma_coord_bound(wi, h as int, question.start.0 as int, question.start.1 as int);
            let p0 = (question.start.1 as int) * wi + question.start.0 as int;
            lemma_fundamental_div_mod_converse(p0, wi, question.start.1 as int, question.start.0 as int);
        }
        let start = question.start().to_usize(w);
        let mut boxes = CellSet::empty();
        let nb = question.boxes().len();
        let mut i: usize = 0;
        while i < nb
            invariant
                question.wf(),
                w == question.width,
                h == question.height,
                wi == w as int,
                wi * (h as int) < usize::MAX,
                nb == question.boxes@.len(),
                i <= nb,
                boxes.wf(),
                forall|c: usize|
                    #[trigger] boxes@.contains(c) <==> exists|k: int|
                        0 <= k < i && c == pos_index(#[trigger] question.boxes@[k], wi),
            decreases nb - i,
        {
            let b = question.boxes()[i];
            proof {
                lemma_coord_bound(wi, h as int, b.0 as int, b.1 as int);
            }
            let idx = b.to_usize(w);
            let ghost before = boxes@;
            boxes.insert(idx);
            proof {
                assert forall|c: usize| #[trigger] boxes@.contains(c) implies exists|k: int|
                    0 <= k < i + 1 && c == pos_index(#[trigger] question.boxes@[k], wi) by {
                    if before.contains(c) {
                        let k = choose|k: int|
                            0 <= k < i && c == pos_index(#[trigger] question.boxes@[k], wi);
                        assert(c == pos_index(question.boxes@[k], wi));
                    } else {
                        assert(c == pos_index(question.boxes@[i as int], wi));
                    }
                }
                assert forall|c: usize|
                    (exists|k: int| 0 <= k < i + 1 && c == pos_index(
                        #[trigger] question.boxes@[k],
                        wi,
                    )) implies #[trigger] boxes@.contains(c) by {
                    let k = choose|k: int|
                        0 <= k < i + 1 && c == pos_index(#[trigger] question.boxes@[k], wi);
                    if k < i {
                        assert(before.contains(c));
                    }
                }
            }
            i = i + 1;
        }
        let mut targets = CellSet::empty();
        let nt = question.targets().len();
        let mut j: usize = 0;
        while j < nt
            invariant
                question.wf(),
                w == question.width,
                h == question.height,
                wi == w as int,
                wi * (h as int) < usize::MAX,
                nt == question.targets@.len(),
                j <= nt,
                targets.wf(),
                forall|c: usize|
                    #[trigger] targets@.contains(c) <==> exists|k: int|
                        0 <= k < j && c == pos_index(#[trigger] question.targets@[k], wi),
            decreases nt - j,
        {
            let t = question.targets()[j];
            proof {
                lemma_coord_bound(wi, h as int, t.0 as int, t.1 as int);
            }
            let idx = t.to_usize(w);
            let ghost before = targets@;
            targets.insert(idx);
            proof {
                assert forall|c: usize| #[trigger] targets@.contains(c) implies exists|k: int|
                    0 <= k < j + 1 && c == pos_index(#[trigger] question.targets@[k], wi) by {
                    if before.contains(c) {
                        let k = choose|k: int|
                            0 <= k < j && c == pos_index(#[trigger] question.targets@[k], wi);
                        assert(c == pos_index(question.targets@[k], wi));
                    } else {
                        assert(c == pos_index(question.targets@[j as int], wi));
                    }
                }
                assert forall|c: usize|
                    (exists|k: int| 0 <= k < j + 1 && c == pos_index(
                        #[trigger] question.targets@[k],
                        wi,
                    )) implies #[trigger] targets@.contains(c) by {
                    let k = choose|k: int|
                        0 <= k < j + 1 && c == pos_index(#[trigger] question.targets@[k], wi);
                    if k < j {
                        assert(before.contains(c));
                    }
                }
            }
            j = j + 1;
        }
        proof {
            assert forall|k: int| 0 <= k < targets@.len() implies #[trigger] targets@[k]
                < grid@.len() && grid@[targets@[k] as int].spec_is_space() by {
                let c = targets@[k];
                assert(targets@.contains(c));
                let k2 = choose|k2: int|
                    0 <= k2 < question.targets@.len() && c == pos_index(
                        #[trigger] question.targets@[k2],
                        wi,
                    );
                let tp = question.targets@[k2];
                lemma_coord_bound(wi, h as int, tp.0 as int, tp.1 as int);
                lemma_fundamental_div_mod_converse(
                    (tp.1 as int) * wi + tp.0 as int,
                    wi,
                    tp.1 as int,
                    tp.0 as int,
                );
            }
            assert forall|k: int| 0 <= k < boxes@.len() implies #[trigger] boxes@[k] < grid@.len()
                && grid@[boxes@[k] as int].spec_is_space() by {
                let c = boxes@[k];
                assert(boxes@.contains(c));
                let k2 = choose|k2: int|
                    0 <= k2 < question.boxes@.len() && c == pos_index(
                        #[trigger] question.boxes@[k2],
                        wi,
                    );
                let bp = question.boxes@[k2];
                lemma_coord_bound(wi, h as int, bp.0 as int, bp.1 as int);
                lemma_fundamental_div_mod_converse(
                    (bp.1 as int) * wi + bp.0 as int,
                    wi,
                    bp.1 as int,
                    bp.0 as int,
                );
            }
            assert(!boxes@.contains(start)) by {
                if boxes@.contains(start) {
                    let k2 = choose|k2: int|
                        0 <= k2 < question.boxes@.len() && start == pos_index(
                            #[trigger] question.boxes@[k2],
                            wi,
                        );
                    let bp = question.boxes@[k2];
                    lemma_flat_inj(
                        wi,
                        bp.0 as int,
                        bp.1 as int,
                        question.start.0 as int,
                        question.start.1 as int,
                    );
                    assert(bp == question.start);
                }
            }
            assert(grid@[start as int].spec_is_space());
            assert((start as int) < grid@.len()) by {
                lemma_coord_bound(wi, h as int, question.start.0 as int, question.start.1 as int);
            }
            assert(forall|p: int| 0 <= p < grid@.len() ==> !(#[trigger] grid@[p]).spec_is_valid());
        }
        let ghost in_grid = grid@;
        let r = Solver::_create(grid, w, h, boxes, targets, start);
        proof {
            assert forall|p: int| 0 <= p < r.detector.board@.grid.len() implies ((
            #[trigger] r.detector.board@.grid[p]).spec_is_space() <==> question.grid@[p / wi]@[p
                % wi] == Square::Space) by {
                assert(r.detector.board@.grid[p].spec_is_wall() == in_grid[p].spec_is_wall());
                match question.grid@[p / wi]@[p % wi] {
                    Square::Wall => {
                        assert(in_grid[p] == Flags::Wall);
                    },
                    Square::Space => {
                        assert(in_grid[p] == Flags::Space);
                    },
                }
            }
        }
        r
    }
}

/// A coordinate inside the rectangle flattens to an index inside the grid.
proof fn lemma_coord_bound(w: int, h: int, x: int, y: int)
    requires
        w >= 1,
        h >= 1,
        0 <= x < w,
        0 <= y < h,
    ensures
        0 <= y * w + x < w * h,
{
    assert(y * w + x < w * h) by (nonlinear_arith)
        requires
            0 <= x < w,
            0 <= y <= h - 1,
            w >= 1,
    ;
    assert(y * w + x >= 0) by (nonlinear_arith)
        requires
            x >= 0,
            y >= 0,
            w >= 1,
    ;
}

} // verus!
