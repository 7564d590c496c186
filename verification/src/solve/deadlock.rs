//! Deadlock detection.
//!
//! Called after every push with the cell of the just-moved crate. The
//! detector answers true only for positions it deems lost: a crate on a
//! dead (non-valid) cell, or one jammed along both axes by walls, dead cell
//! pairs and other jammed crates. A crate resting on a target is never
//! reported, and positions the recursive test cannot pin down are let
//! through: the search stays complete over what it does not prune.

use vstd::prelude::*;

use super::board::Board;
use super::board::BoardView;
use super::cells::CellSet;
use super::cells::lemma_sorted_subset_len;
use super::directions::Dir;
use super::directions::clockwise;
use super::directions::flip;

verus! {


/// The recursive axis test, as a specification. `fuel` only bounds the
/// recursion; any fuel beyond the number of crates still unconsidered
/// gives the test's real answer. Returns the verdict together with the
/// set of crates considered.
pub open spec fn blocked_dir_spec(
    bv: BoardView,
    boxes: Seq<usize>,
    considered: Set<usize>,
    box_pos: usize,
    dir: Dir,
    fuel: nat,
) -> (bool, Set<usize>)
    decreases fuel,
{
    let c1 = considered.insert(box_pos);
    if fuel == 0 {
        (true, c1)
    } else {
        match bv.step1(box_pos as int, dir) {
            None => (true, c1),
            Some(a) => match bv.step1(box_pos as int, flip(dir)) {
                None => (true, c1),
                Some(b) => if bv.grid[a].spec_is_wall() || bv.grid[b].spec_is_wall() {
                    (true, c1)
                } else if !bv.grid[a].spec_is_valid() && !bv.grid[b].spec_is_valid() {
                    (true, c1)
                } else if c1.contains(a as usize) || c1.contains(b as usize) {
                    (true, c1)
                } else {
                    let ra = if boxes.contains(a as usize) {
                        blocked_dir_spec(bv, boxes, c1, a as usize, clockwise(dir), (fuel - 1) as nat)
                    } else {
                        (false, c1)
                    };
                    if ra.0 {
                        (true, ra.1)
                    } else {
                        if boxes.contains(b as usize) {
                            blocked_dir_spec(
                                bv,
                                boxes,
                                ra.1,
                                b as usize,
                                clockwise(dir),
                                (fuel - 1) as nat,
                            )
                        } else {
                            (false, ra.1)
                        }
                    }
                },
            },
        }
    }
}

/// Fuel beyond this bound no longer changes the axis test's answer: it
/// exceeds the deepest possible recursion.
pub open spec fn dir_need(boxes: Seq<usize>, considered: Seq<usize>, box_pos: usize) -> int {
    2 * (boxes.len() - considered.len()) + (if considered.contains(box_pos) {
        1int
    } else {
        0int
    })
}

/// The whole cluster test: jammed along the vertical axis and, carrying
/// the crates already considered, along the horizontal one.
pub open spec fn spec_blocked(bv: BoardView, boxes: Seq<usize>, box_pos: usize) -> bool {
    let f = (2 * boxes.len() + 3) as nat;
    let first = blocked_dir_spec(bv, boxes, Set::empty(), box_pos, Dir::North, f);
    first.0 && blocked_dir_spec(bv, boxes, first.1, box_pos, Dir::East, f).0
}

/// What the detector reports: a crate off every target that sits on a
/// dead cell or is jammed along both axes.
pub open spec fn spec_deadlocked(bv: BoardView, boxes: Seq<usize>, last_moved: usize) -> bool {
    !bv.targets.contains(last_moved) && (!bv.grid[last_moved as int].spec_is_valid()
        || spec_blocked(bv, boxes, last_moved))
}


/// The crate at `x` cannot move along the axis of `d`: one side leaves
/// the grid or is a wall, both sides are dead cells, or a side holds a
/// crate of the cluster `s`.
pub open spec fn pinned_on_axis(
    bv: BoardView,
    s: Set<usize>,
    x: usize,
    d: Dir,
) -> bool {
    match bv.step1(x as int, d) {
        None => true,
        Some(a) => match bv.step1(x as int, flip(d)) {
            None => true,
            Some(b) => {
                ||| bv.grid[a].spec_is_wall()
                ||| bv.grid[b].spec_is_wall()
                ||| (!bv.grid[a].spec_is_valid() && !bv.grid[b].spec_is_valid())
                ||| s.contains(a as usize)
                ||| s.contains(b as usize)
            },
        },
    }
}

/// A mutually blocking cluster: every member is pinned along both the
/// vertical and the horizontal axis by walls, the grid edge, dead cell
/// pairs, or other members.
pub open spec fn cluster_pinned(bv: BoardView, s: Set<usize>) -> bool {
    forall|x: usize|
        #[trigger] s.contains(x) ==> pinned_on_axis(bv, s, x, Dir::North) && pinned_on_axis(
            bv,
            s,
            x,
            Dir::East,
        )
}

/// The recursive axis test flags every member of a pinned cluster, along
/// every axis, whatever was already considered and however little fuel
/// remains.
proof fn lemma_cluster_blocked_dir(
    bv: BoardView,
    boxes: Seq<usize>,
    s: Set<usize>,
    considered: Set<usize>,
    x: usize,
    d: Dir,
    fuel: nat,
)
    requires
        cluster_pinned(bv, s),
        forall|y: usize| s.contains(y) ==> boxes.contains(y),
        s.contains(x),
    ensures
        blocked_dir_spec(bv, boxes, considered, x, d, fuel).0,
    decreases fuel,
{
    if fuel == 0 {
    } else {
        let c1 = considered.insert(x);
        match bv.step1(x as int, d) {
            None => {},
            Some(a) => {
                match bv.step1(x as int, flip(d)) {
                    None => {},
                    Some(b) => {
                        if bv.grid[a].spec_is_wall() || bv.grid[b].spec_is_wall() {
                        } else if !bv.grid[a].spec_is_valid() && !bv.grid[b].spec_is_valid() {
                        } else if c1.contains(a as usize) || c1.contains(b as usize) {
                        } else {
                            assert(s.contains(a as usize) || s.contains(b as usize)) by {
                                match d {
                                    Dir::North | Dir::South => {
                                        assert(pinned_on_axis(bv, s, x, Dir::North));
                                    },
                                    Dir::East | Dir::West => {
                                        assert(pinned_on_axis(bv, s, x, Dir::East));
                                    },
                                }
                            }
                            let ra = if boxes.contains(a as usize) {
                                blocked_dir_spec(
                                    bv,
                                    boxes,
                                    c1,
                                    a as usize,
                                    clockwise(d),
                                    (fuel - 1) as nat,
                                )
                            } else {
                                (false, c1)
                            };
                            if ra.0 {
                            } else {
                                assert(s.contains(b as usize)) by {
                                    if s.contains(a as usize) {
                                        assert(boxes.contains(a as usize));
                                        lemma_cluster_blocked_dir(
                                            bv,
                                            boxes,
                                            s,
                                            c1,
                                            a as usize,
                                            clockwise(d),
                                            (fuel - 1) as nat,
                                        );
                                    }
                                }
                                assert(boxes.contains(b as usize));
                                lemma_cluster_blocked_dir(
                                    bv,
                                    boxes,
                                    s,
                                    ra.1,
                                    b as usize,
                                    clockwise(d),
                                    (fuel - 1) as nat,
                                );
                            }
                        }
                    },
                }
            },
        }
    }
}

/// Mutual blocks are caught: a crate that belongs to a pinned cluster and
/// rests off every target is reported deadlocked by the detector's
/// policy, however the cluster winds through walls, dead pairs and other
/// crates.
pub proof fn lemma_cluster_flagged(bv: BoardView, boxes: Seq<usize>, s: Set<usize>, last: usize)
    requires
        cluster_pinned(bv, s),
        forall|y: usize| s.contains(y) ==> boxes.contains(y),
        s.contains(last),
        !bv.targets.contains(last),
    ensures
        spec_blocked(bv, boxes, last),
        spec_deadlocked(bv, boxes, last),
{
    let f = (2 * boxes.len() + 3) as nat;
    lemma_cluster_blocked_dir(bv, boxes, s, Set::empty(), last, Dir::North, f);
    let first = blocked_dir_spec(bv, boxes, Set::empty(), last, Dir::North, f);
    lemma_cluster_blocked_dir(bv, boxes, s, first.1, last, Dir::East, f);
}

/// Deadlock detector for one board.
pub struct Detector {
    pub board: Board,
}

impl Detector {
    pub fn new(board: &Board) -> (r: Self)
        ensures
            r.board@ == board@,
    {
        Detector { board: board.duplicate() }
    }

    /// Returns `true` only if it is sure that the position is deadlocked.
    ///
    /// A crate on a target is never deadlocked; a crate on a dead cell
    /// always is; otherwise the recursive axis test decides. For the
    /// dead-cell verdict, soundness is a theorem: see
    /// `game::lemma_detector_dead_verdict_sound`.
    pub fn is_deadlocked(&self, player_pos: usize, boxes: &CellSet, last_moved: usize) -> (r: bool)
        requires
            self.board@.wf(),
            boxes.wf(),
            forall|i: int| 0 <= i < boxes@.len() ==> #[trigger] boxes@[i] < self.board@.grid.len(),
            boxes@.contains(last_moved),
        ensures
            r == spec_deadlocked(self.board@, boxes@, last_moved),
            r ==> !self.board@.targets.contains(last_moved),
            !self.board@.targets.contains(last_moved) && !self.board@.grid[
                last_moved as int
            ].spec_is_valid() ==> r,
    {
        let _ = player_pos;
        proof {
            let j = choose|j: int| 0 <= j < boxes@.len() && boxes@[j] == last_moved;
            assert(boxes@[j] == last_moved);
        }
        !self.board.targets.contains(last_moved) && (self.is_dead_square(boxes, last_moved)
            || self.check_box_blocked(boxes, last_moved))
    }

    /// Whether the pull analysis proved that no crate can leave this cell.
    fn is_dead_square(&self, boxes: &CellSet, last_moved: usize) -> (r: bool)
        requires
            self.board@.in_bounds(last_moved as int),
        ensures
            r == !self.board@.grid[last_moved as int].spec_is_valid(),
    {
        let _ = boxes;
        !self.board.square_at(last_moved).is_valid()
    }

    /// Whether the crate at `box_pos` is jammed along both the vertical and
    /// the horizontal axis.
    fn check_box_blocked(&self, boxes: &CellSet, box_pos: usize) -> (r: bool)
        requires
            self.board@.wf(),
            boxes.wf(),
            forall|i: int| 0 <= i < boxes@.len() ==> #[trigger] boxes@[i] < self.board@.grid.len(),
            boxes@.contains(box_pos),
            self.board@.in_bounds(box_pos as int),
        ensures
            r == spec_blocked(self.board@, boxes@, box_pos),
    {
        let ghost f = (2 * boxes@.len() + 3) as nat;
        let mut considered = CellSet::empty();
        proof {
            assert(considered@.to_set() =~= Set::<usize>::empty());
        }
        if !self.check_box_blocked_direction(boxes, box_pos, &mut considered, Dir::North) {
            return false;
        }
        self.check_box_blocked_direction(boxes, box_pos, &mut considered, Dir::East)
    }

    /// Whether the crate at `box_pos` cannot move along the axis of `dir`:
    /// a wall or the grid edge on either side, dead cells on both sides, or
    /// a neighbouring crate that is itself jammed across the perpendicular
    /// axis. Crates already under consideration count as jammed, which both
    /// ends the recursion and treats a ring of mutually blocking crates as
    /// jointly stuck.
    fn check_box_blocked_direction(
        &self,
        boxes: &CellSet,
        box_pos: usize,
        considered: &mut CellSet,
        dir: Dir,
    ) -> (r: bool)
        requires
            self.board@.wf(),
            boxes.wf(),
            forall|i: int| 0 <= i < boxes@.len() ==> #[trigger] boxes@[i] < self.board@.grid.len(),
            boxes@.contains(box_pos),
            self.board@.in_bounds(box_pos as int),
            old(considered).wf(),
            forall|y: usize| old(considered)@.contains(y) ==> boxes@.contains(y),
        ensures
            final(considered).wf(),
            forall|y: usize|
                old(considered)@.contains(y) ==> final(considered)@.contains(y),
            final(considered)@.contains(box_pos),
            forall|y: usize| final(considered)@.contains(y) ==> boxes@.contains(y),
            final(considered)@.len() >= old(considered)@.len() + (if old(considered)@.contains(
                box_pos,
            ) {
                0int
            } else {
                1int
            }),
            forall|fuel: nat|
                fuel > dir_need(boxes@, old(considered)@, box_pos) ==> ({
                    let sr = #[trigger] blocked_dir_spec(
                        self.board@,
                        boxes@,
                        old(considered)@.to_set(),
                        box_pos,
                        dir,
                        fuel,
                    );
                    r == sr.0 && final(considered)@.to_set() == sr.1
                }),
        decreases
            boxes@.len() - old(considered)@.len(),
            (if old(considered)@.contains(box_pos) {
                1int
            } else {
                0int
            }),
    {
        let ghost bv = self.board@;
        let ghost c0 = old(considered)@.to_set();
        proof {
            lemma_sorted_subset_len(old(considered)@, boxes@);
        }
        considered.insert(box_pos);
        proof {
            assert(considered@.to_set() =~= c0.insert(box_pos));
        }
        let a = match self.board.step_one(box_pos, dir) {
            Some(a) => a,
            None => {
                proof {
                    assert forall|fuel: nat|
                        fuel > dir_need(boxes@, old(considered)@, box_pos) implies ({
                        let sr = #[trigger] blocked_dir_spec(bv, boxes@, c0, box_pos, dir, fuel);
                        true == sr.0 && considered@.to_set() == sr.1
                    }) by {
                        assert(fuel >= 1);
                        assert(bv.step1(box_pos as int, dir) is None);
                    }
                }
                return true;
            },
        };
        let b = match self.board.step_one(box_pos, dir.opposite()) {
            Some(b) => b,
            None => {
                proof {
                    assert forall|fuel: nat|
                        fuel > dir_need(boxes@, old(considered)@, box_pos) implies ({
                        let sr = #[trigger] blocked_dir_spec(bv, boxes@, c0, box_pos, dir, fuel);
                        true == sr.0 && considered@.to_set() == sr.1
                    }) by {
                        assert(fuel >= 1);
                        assert(bv.step1(box_pos as int, flip(dir)) is None);
                    }
                }
                return true;
            },
        };
        proof {
            assert(bv.step1(box_pos as int, dir) == Some(a as int));
            assert(bv.step1(box_pos as int, flip(dir)) == Some(b as int));
        }
        if self.board.square_at(a).is_wall() || self.board.square_at(b).is_wall() {
            proof {
                assert forall|fuel: nat|
                    fuel > dir_need(boxes@, old(considered)@, box_pos) implies ({
                    let sr = #[trigger] blocked_dir_spec(bv, boxes@, c0, box_pos, dir, fuel);
                    true == sr.0 && considered@.to_set() == sr.1
                }) by {
                    assert(fuel >= 1);
                }
            }
            return true;
        }
        if !self.board.square_at(a).is_valid() && !self.board.square_at(b).is_valid() {
            proof {
                assert forall|fuel: nat|
                    fuel > dir_need(boxes@, old(considered)@, box_pos) implies ({
                    let sr = #[trigger] blocked_dir_spec(bv, boxes@, c0, box_pos, dir, fuel);
                    true == sr.0 && considered@.to_set() == sr.1
                }) by {
                    assert(fuel >= 1);
                }
            }
            return true;
        }
        if considered.contains(a) || considered.contains(b) {
            proof {
                assert forall|fuel: nat|
                    fuel > dir_need(boxes@, old(considered)@, box_pos) implies ({
                    let sr = #[trigger] blocked_dir_spec(bv, boxes@, c0, box_pos, dir, fuel);
                    true == sr.0 && considered@.to_set() == sr.1
                }) by {
                    assert(fuel >= 1);
                    assert(c0.insert(box_pos).contains(a) || c0.insert(box_pos).contains(b));
                }
            }
            return true;
        }
        proof {
            assert(!c0.insert(box_pos).contains(a) && !c0.insert(box_pos).contains(b));
        }
        let ghost c1 = considered@;
        let mut a_blocked = false;
        if boxes.contains(a) {
            proof {
                lemma_sorted_subset_len(considered@, boxes@);
            }
            if self.check_box_blocked_direction(boxes, a, considered, dir.rotation()) {
                a_blocked = true;
            }
        }
        let ghost c2 = considered@;
        if a_blocked {
            proof {
                assert forall|fuel: nat|
                    fuel > dir_need(boxes@, old(considered)@, box_pos) implies ({
                    let sr = #[trigger] blocked_dir_spec(bv, boxes@, c0, box_pos, dir, fuel);
                    true == sr.0 && considered@.to_set() == sr.1
                }) by {
                    assert(fuel >= 1);
                    assert(fuel - 1 > dir_need(boxes@, c1, a));
                    let su = blocked_dir_spec(
                        bv,
                        boxes@,
                        c1.to_set(),
                        a,
                        clockwise(dir),
                        (fuel - 1) as nat,
                    );
                    assert(true == su.0 && c2.to_set() == su.1);
                    assert(c1.to_set() == c0.insert(box_pos));
                }
            }
            return true;
        }
        if boxes.contains(b) {
            proof {
                lemma_sorted_subset_len(considered@, boxes@);
                if old(considered)@.contains(box_pos) && c2.contains(b) {
                    assert(!c1.contains(b));
                    super::cells::lemma_sorted_subset_len_strict(old(considered)@, c2, b);
                }
            }
            let rb = self.check_box_blocked_direction(boxes, b, considered, dir.rotation());
            proof {
                assert forall|fuel: nat|
                    fuel > dir_need(boxes@, old(considered)@, box_pos) implies ({
                    let sr = #[trigger] blocked_dir_spec(bv, boxes@, c0, box_pos, dir, fuel);
                    rb == sr.0 && considered@.to_set() == sr.1
                }) by {
                    assert(fuel >= 1);
                    assert(c1.to_set() == c0.insert(box_pos));
                    if boxes@.contains(a) {
                        assert(fuel - 1 > dir_need(boxes@, c1, a));
                        let su = blocked_dir_spec(
                            bv,
                            boxes@,
                            c1.to_set(),
                            a,
                            clockwise(dir),
                            (fuel - 1) as nat,
                        );
                        assert(false == su.0 && c2.to_set() == su.1);
                        assert(fuel - 1 > dir_need(boxes@, c2, b));
                    } else {
                        assert(c2 == c1);
                        assert(fuel - 1 > dir_need(boxes@, c2, b));
                    }
                    let sv = blocked_dir_spec(
                        bv,
                        boxes@,
                        c2.to_set(),
                        b,
                        clockwise(dir),
                        (fuel - 1) as nat,
                    );
                    assert(rb == sv.0 && considered@.to_set() == sv.1);
                }
            }
            return rb;
        }
        proof {
            assert forall|fuel: nat|
                fuel > dir_need(boxes@, old(considered)@, box_pos) implies ({
                let sr = #[trigger] blocked_dir_spec(bv, boxes@, c0, box_pos, dir, fuel);
                false == sr.0 && considered@.to_set() == sr.1
            }) by {
                assert(fuel >= 1);
                assert(c1.to_set() == c0.insert(box_pos));
                if boxes@.contains(a) {
                    assert(fuel - 1 > dir_need(boxes@, c1, a));
                    let su = blocked_dir_spec(
                        bv,
                        boxes@,
                        c1.to_set(),
                        a,
                        clockwise(dir),
                        (fuel - 1) as nat,
                    );
                    assert(false == su.0 && c2.to_set() == su.1);
                }
                assert(c2 == considered@);
            }
        }
        false
    }
}

} // verus!
