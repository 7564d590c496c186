//! Pull-reachability: which cells could ever legally hold a crate.
//!
//! Runs the game backwards. A crate on cell `c` can be pulled to the
//! neighbour `q` in direction `d` when `q` is space and the cell one
//! further in `d` (where the puller stands) is space too. Every cell
//! pull-reachable from some target is marked valid; a crate pushed onto any
//! other space cell can never reach a target again.

use vstd::prelude::*;

use super::board::Board;
use super::board::BoardView;
use super::cells::CellSet;
use super::directions::Dir;

verus! {

/// One backwards (pull) move from `pos` in direction `d`: the crate slides
/// to the adjacent cell, which must be space, and the puller must have a
/// space cell one further on.
pub open spec fn pull1(bv: BoardView, pos: int, d: Dir) -> Option<int> {
    match bv.step1(pos, d) {
        Some(q) => if bv.grid[q].spec_is_space() && (match bv.step1(q, d) {
            Some(r) => bv.grid[r].spec_is_space(),
            None => false,
        }) {
            Some(q)
        } else {
            None
        },
        None => None,
    }
}

/// Follows a sequence of pull moves from `pos`.
pub open spec fn pull_walk(bv: BoardView, pos: int, dirs: Seq<Dir>) -> Option<int>
    decreases dirs.len(),
{
    if dirs.len() == 0 {
        Some(pos)
    } else {
        match pull1(bv, pos, dirs[0]) {
            Some(q) => pull_walk(bv, q, dirs.drop_first()),
            None => None,
        }
    }
}

/// A crate standing on `t` could be pulled, move by move, to `p`.
pub open spec fn pull_reach(bv: BoardView, t: int, p: int) -> bool {
    exists|dirs: Seq<Dir>| pull_walk(bv, t, dirs) == Some(p)
}

/// A cell on which a crate may legally rest: pull-reachable from a target.
pub open spec fn valid_from_targets(bv: BoardView, p: int) -> bool {
    exists|i: int| 0 <= i < bv.targets.len() && pull_reach(bv, bv.targets[i] as int, p)
}

/// Pull-reachability is reflexive.
pub proof fn lemma_pull_refl(bv: BoardView, t: int)
    ensures
        pull_reach(bv, t, t),
{
    let dirs = Seq::<Dir>::empty();
    assert(pull_walk(bv, t, dirs) == Some(t));
}

/// Pull-reachability extends along one pull move.
pub proof fn lemma_pull_step(bv: BoardView, t: int, p: int, d: Dir, q: int)
    requires
        pull_reach(bv, t, p),
        pull1(bv, p, d) == Some(q),
    ensures
        pull_reach(bv, t, q),
{
    let dirs = choose|dirs: Seq<Dir>| pull_walk(bv, t, dirs) == Some(p);
    let one = seq![d];
    assert(one.len() == 1 && one[0] == d);
    let rest = one.drop_first();
    assert(rest.len() == 0);
    assert(pull_walk(bv, q, rest) == Some(q));
    assert(pull_walk(bv, p, one) == Some(q));
    lemma_pull_walk_append(bv, t, dirs, one);
    assert(pull_walk(bv, t, dirs + one) == Some(q));
}

proof fn lemma_pull_walk_append(bv: BoardView, pos: int, d1: Seq<Dir>, d2: Seq<Dir>)
    ensures
        pull_walk(bv, pos, d1 + d2) == (match pull_walk(bv, pos, d1) {
            Some(m) => pull_walk(bv, m, d2),
            None => None,
        }),
    decreases d1.len(),
{
    if d1.len() == 0 {
        assert(d1 + d2 =~= d2);
    } else {
        assert((d1 + d2)[0] == d1[0]);
        assert((d1 + d2).drop_first() =~= d1.drop_first() + d2);
        match pull1(bv, pos, d1[0]) {
            Some(q) => {
                lemma_pull_walk_append(bv, q, d1.drop_first(), d2);
            },
            None => {},
        }
    }
}

/// A pull-reached cell is the target itself or a space cell.
pub proof fn lemma_pull_reach_space(bv: BoardView, t: int, p: int)
    requires
        bv.dims_ok(),
        bv.in_bounds(t),
        pull_reach(bv, t, p),
    ensures
        p == t || (bv.in_bounds(p) && bv.grid[p].spec_is_space()),
{
    let dirs = choose|dirs: Seq<Dir>| pull_walk(bv, t, dirs) == Some(p);
    lemma_pull_walk_end(bv, t, dirs, p);
}

proof fn lemma_pull_walk_end(bv: BoardView, pos: int, dirs: Seq<Dir>, p: int)
    requires
        bv.dims_ok(),
        bv.in_bounds(pos),
        pull_walk(bv, pos, dirs) == Some(p),
    ensures
        p == pos || (bv.in_bounds(p) && bv.grid[p].spec_is_space()),
    decreases dirs.len(),
{
    if dirs.len() > 0 {
        match pull1(bv, pos, dirs[0]) {
            Some(q) => {
                bv.lemma_step1(pos, dirs[0]);
                lemma_pull_walk_end(bv, q, dirs.drop_first(), p);
            },
            None => {},
        }
    }
}

/// Marked cells have all their pull-successors marked.
pub open spec fn pull_closed(bv: BoardView, marks: Seq<bool>) -> bool {
    forall|p: int, d: Dir|
        #![trigger marks[p], pull1(bv, p, d)]
        0 <= p < marks.len() && marks[p] ==> match pull1(bv, p, d) {
            Some(q) => 0 <= q < marks.len() ==> marks[q],
            None => true,
        }
}

proof fn lemma_pull_complete(
    bv: BoardView,
    marks: Seq<bool>,
    m: int,
    dirs: Seq<Dir>,
    p: int,
)
    requires
        bv.dims_ok(),
        marks.len() == bv.grid.len(),
        pull_closed(bv, marks),
        0 <= m < marks.len(),
        marks[m],
        pull_walk(bv, m, dirs) == Some(p),
    ensures
        0 <= p < marks.len(),
        marks[p],
    decreases dirs.len(),
{
    if dirs.len() == 0 {
    } else {
        match pull1(bv, m, dirs[0]) {
            Some(q) => {
                bv.lemma_step1(m, dirs[0]);
                assert(bv.in_bounds(q));
                assert(marks[q]);
                lemma_pull_complete(bv, marks, q, dirs.drop_first(), p);
            },
            None => {},
        }
    }
}


/// Two boards with the same shape, targets and space cells.
pub open spec fn same_terrain(a: BoardView, b: BoardView) -> bool {
    &&& a.width == b.width
    &&& a.height == b.height
    &&& a.targets == b.targets
    &&& a.grid.len() == b.grid.len()
    &&& forall|p: int|
        0 <= p < a.grid.len() ==> ((#[trigger] a.grid[p]).spec_is_space() <==> b.grid[
            p
        ].spec_is_space())
}

proof fn lemma_pull_walk_same_terrain(a: BoardView, b: BoardView, pos: int, dirs: Seq<Dir>)
    requires
        a.dims_ok(),
        same_terrain(a, b),
        a.in_bounds(pos),
    ensures
        pull_walk(a, pos, dirs) == pull_walk(b, pos, dirs),
    decreases dirs.len(),
{
    if dirs.len() > 0 {
        let d = dirs[0];
        a.lemma_step1(pos, d);
        assert(a.step1(pos, d) == b.step1(pos, d));
        match a.step1(pos, d) {
            Some(q) => {
                a.lemma_step1(q, d);
                assert(a.step1(q, d) == b.step1(q, d));
                assert(pull1(a, pos, d) == pull1(b, pos, d));
                match pull1(a, pos, d) {
                    Some(q2) => {
                        lemma_pull_walk_same_terrain(a, b, q2, dirs.drop_first());
                    },
                    None => {},
                }
            },
            None => {
                assert(pull1(a, pos, d) is None && pull1(b, pos, d) is None);
            },
        }
    }
}

/// Marking space cells valid does not disturb the pull analysis: which
/// cells a crate can be pulled to depends on the terrain alone.
pub proof fn lemma_valid_from_targets_same_terrain(a: BoardView, b: BoardView, p: int)
    requires
        a.dims_ok(),
        a.wf(),
        same_terrain(a, b),
    ensures
        valid_from_targets(a, p) == valid_from_targets(b, p),
{
    assert forall|i: int|
        0 <= i < a.targets.len() implies (pull_reach(a, #[trigger] a.targets[i] as int, p)
        == pull_reach(b, a.targets[i] as int, p)) by {
        let t = a.targets[i] as int;
        assert forall|dirs: Seq<Dir>| true implies #[trigger] pull_walk(a, t, dirs) == pull_walk(
            b,
            t,
            dirs,
        ) by {
            lemma_pull_walk_same_terrain(a, b, t, dirs);
        }
        if pull_reach(a, t, p) {
            let dirs = choose|dirs: Seq<Dir>| pull_walk(a, t, dirs) == Some(p);
            assert(pull_walk(b, t, dirs) == Some(p));
        }
        if pull_reach(b, t, p) {
            let dirs = choose|dirs: Seq<Dir>| pull_walk(b, t, dirs) == Some(p);
            assert(pull_walk(a, t, dirs) == Some(p));
        }
    }
    if valid_from_targets(a, p) {
        let i = choose|i: int| 0 <= i < a.targets.len() && pull_reach(a, a.targets[i] as int, p);
        assert(pull_reach(b, b.targets[i] as int, p));
    }
    if valid_from_targets(b, p) {
        let i = choose|i: int| 0 <= i < b.targets.len() && pull_reach(b, b.targets[i] as int, p);
        assert(pull_reach(a, a.targets[i] as int, p));
    }
}

/// Runs the pull analysis for one board.
pub struct Puller {
    pub board: Board,
}

impl Puller {
    pub fn new(board: Board) -> (r: Self)
        ensures
            r.board == board,
    {
        Puller { board }
    }

    /// Returns one flag per cell: all the squares which a box could be
    /// pulled to from `target`.
    pub fn find_valid_positions_from(&self, target: usize) -> (marks: Vec<bool>)
        requires
            self.board@.dims_ok(),
            self.board@.in_bounds(target as int),
        ensures
            marks@.len() == self.board@.grid.len(),
            forall|p: int|
                0 <= p < marks@.len() ==> (#[trigger] marks@[p] <==> pull_reach(
                    self.board@,
                    target as int,
                    p,
                )),
    {
        let ghost bv = self.board@;
        let n = self.board.grid.len();
        let mut marks: Vec<bool> = Vec::new();
        let mut i: usize = 0;
        while i < n
            invariant
                i <= n,
                marks@.len() == i,
                forall|p: int| 0 <= p < i ==> !marks@[p],
            decreases n - i,
        {
            marks.push(false);
            i = i + 1;
        }
        marks[target] = true;
        let mut queue: Vec<usize> = Vec::new();
        queue.push(target);
        let mut qi: usize = 0;
        proof {
            lemma_pull_refl(bv, target as int);
            assert(queue@[0] == target);
            assert(queue@.contains(target));
        }
        while qi < queue.len()
            invariant
                bv == self.board@,
                bv.dims_ok(),
                n == bv.grid.len(),
                marks@.len() == n,
                bv.in_bounds(target as int),
                marks@[target as int],
                qi <= queue@.len(),
                queue@.no_duplicates(),
                forall|j: int|
                    0 <= j < queue@.len() ==> bv.in_bounds(#[trigger] queue@[j] as int)
                        && marks@[queue@[j] as int],
                forall|p: int|
                    #![trigger queue@.contains(p as usize)]
                    0 <= p < n && marks@[p] ==> queue@.contains(p as usize),
                forall|p: int|
                    0 <= p < n && #[trigger] marks@[p] ==> pull_reach(bv, target as int, p),
                forall|j: int, d: Dir|
                    #![trigger pull1(bv, queue@[j] as int, d)]
                    0 <= j < qi ==> match pull1(bv, queue@[j] as int, d) {
                        Some(q) => 0 <= q < n ==> marks@[q],
                        None => true,
                    },
            decreases n - queue@.len(), queue@.len() - qi,
        {
            proof {
                super::reach::lemma_distinct_bounded(queue@, n as nat);
            }
            let cur = queue[qi];
            let ghost len_before = queue@.len();
            let dirs = Dir::iter();
            let mut di: usize = 0;
            while di < 4
                invariant
                    bv == self.board@,
                    bv.dims_ok(),
                    n == bv.grid.len(),
                    marks@.len() == n,
                    bv.in_bounds(target as int),
                    marks@[target as int],
                    di <= 4,
                    dirs@ =~= seq![Dir::North, Dir::East, Dir::South, Dir::West],
                    qi < queue@.len(),
                    queue@.len() >= len_before,
                    cur == queue@[qi as int],
                    queue@.no_duplicates(),
                    forall|j: int|
                        0 <= j < queue@.len() ==> bv.in_bounds(#[trigger] queue@[j] as int)
                            && marks@[queue@[j] as int],
                    forall|p: int|
                        #![trigger queue@.contains(p as usize)]
                        0 <= p < n && marks@[p] ==> queue@.contains(p as usize),
                    forall|p: int|
                        0 <= p < n && #[trigger] marks@[p] ==> pull_reach(bv, target as int, p),
                    forall|j: int, d: Dir|
                        #![trigger pull1(bv, queue@[j] as int, d)]
                        0 <= j < qi ==> match pull1(bv, queue@[j] as int, d) {
                            Some(q) => 0 <= q < n ==> marks@[q],
                            None => true,
                        },
                    forall|k: int|
                        0 <= k < di ==> match pull1(bv, cur as int, #[trigger] dirs@[k]) {
                            Some(q) => 0 <= q < n ==> marks@[q],
                            None => true,
                        },
                decreases n - queue@.len(), 4 - di,
            {
                let d = dirs[di];
                match self.board.step_one(cur, d) {
                    Some(box_pos) => {
                        if !self.board.square_at(box_pos).is_wall() {
                            let puller_ok = match self.board.step_one(box_pos, d) {
                                Some(pp) => self.board.square_at(pp).is_space(),
                                None => false,
                            };
                            proof {
                                if puller_ok {
                                    assert(pull1(bv, cur as int, d) == Some(box_pos as int));
                                }
                            }
                            if puller_ok && !marks[box_pos] {
                                let ghost marks0 = marks@;
                                let ghost q0 = queue@;
                                marks[box_pos] = true;
                                queue.push(box_pos);
                                proof {
                                    assert(!q0.contains(box_pos));
                                    assert(queue@ == q0.push(box_pos));
                                    assert(queue@.no_duplicates());
                                    lemma_pull_step(
                                        bv,
                                        target as int,
                                        cur as int,
                                        d,
                                        box_pos as int,
                                    );
                                    assert forall|p: int|
                                        0 <= p < n && marks@[p] implies queue@.contains(
                                        p as usize,
                                    ) by {
                                        if p == box_pos as int {
                                            assert(queue@[q0.len() as int] == box_pos);
                                        } else {
                                            assert(marks0[p]);
                                            assert(q0.contains(p as usize));
                                            let idx = choose|idx: int|
                                                0 <= idx < q0.len() && q0[idx] == p as usize;
                                            assert(queue@[idx] == p as usize);
                                        }
                                    }
                                }
                            }
                        }
                    },
                    None => {},
                }
                proof {
                    super::reach::lemma_distinct_bounded(queue@, n as nat);
                }
                di = di + 1;
            }
            proof {
                super::reach::lemma_distinct_bounded(queue@, n as nat);
                assert forall|j: int, d: Dir|
                    #![trigger pull1(bv, queue@[j] as int, d)]
                    0 <= j < qi + 1 implies match pull1(bv, queue@[j] as int, d) {
                    Some(q) => 0 <= q < n ==> marks@[q],
                    None => true,
                } by {
                    if j == qi {
                        let k: int = match d {
                            Dir::North => 0,
                            Dir::East => 1,
                            Dir::South => 2,
                            Dir::West => 3,
                        };
                        assert(dirs@[k] == d);
                        assert(match pull1(bv, cur as int, dirs@[k]) {
                            Some(q) => 0 <= q < n ==> marks@[q],
                            None => true,
                        });
                    }
                }
            }
            qi = qi + 1;
        }
        proof {
            assert(pull_closed(bv, marks@)) by {
                assert forall|p2: int, d: Dir|
                    #![trigger marks@[p2], pull1(bv, p2, d)]
                    0 <= p2 < marks@.len() && marks@[p2] implies match pull1(bv, p2, d) {
                    Some(q) => 0 <= q < marks@.len() ==> marks@[q],
                    None => true,
                } by {
                    assert(queue@.contains(p2 as usize));
                    let j = choose|j: int| 0 <= j < queue@.len() && queue@[j] == p2 as usize;
                    assert(queue@[j] as int == p2);
                    assert(pull1(bv, queue@[j] as int, d) == pull1(bv, p2, d));
                }
            }
            assert forall|p: int|
                0 <= p < marks@.len() && pull_reach(bv, target as int, p) implies #[trigger] marks@[p] by {
                let dirs2 = choose|dirs2: Seq<Dir>|
                    pull_walk(bv, target as int, dirs2) == Some(p);
                lemma_pull_complete(bv, marks@, target as int, dirs2, p);
            }
        }
        marks
    }

    /// Returns one flag per cell: all the squares which a box could be
    /// pulled to from any target.
    pub fn find_all_valid_positions(&self) -> (marks: Vec<bool>)
        requires
            self.board@.wf(),
        ensures
            marks@.len() == self.board@.grid.len(),
            forall|p: int|
                0 <= p < marks@.len() ==> (#[trigger] marks@[p] <==> valid_from_targets(
                    self.board@,
                    p,
                )),
    {
        let ghost bv = self.board@;
        let n = self.board.grid.len();
        let mut acc: Vec<bool> = Vec::new();
        let mut i: usize = 0;
        while i < n
            invariant
                i <= n,
                acc@.len() == i,
                forall|p: int| 0 <= p < i ==> !acc@[p],
            decreases n - i,
        {
            acc.push(false);
            i = i + 1;
        }
        let tlen = self.board.targets.len();
        let mut ti: usize = 0;
        while ti < tlen
            invariant
                bv == self.board@,
                bv.wf(),
                n == bv.grid.len(),
                acc@.len() == n,
                tlen == bv.targets.len(),
                ti <= tlen,
                forall|p: int|
                    0 <= p < n ==> (#[trigger] acc@[p] <==> exists|i2: int|
                        0 <= i2 < ti && pull_reach(bv, bv.targets[i2] as int, p)),
            decreases tlen - ti,
        {
            let t = self.board.targets.get(ti);
            let sub = self.find_valid_positions_from(t);
            let mut j: usize = 0;
            let ghost acc0 = acc@;
            while j < n
                invariant
                    bv == self.board@,
                    n == bv.grid.len(),
                    acc@.len() == n,
                    sub@.len() == n,
                    j <= n,
                    t == bv.targets[ti as int],
                    ti < bv.targets.len(),
                    forall|p: int|
                        0 <= p < n ==> (#[trigger] sub@[p] <==> pull_reach(bv, t as int, p)),
                    forall|p: int| j <= p < n ==> #[trigger] acc@[p] == acc0[p],
                    forall|p: int|
                        0 <= p < j ==> (#[trigger] acc@[p] <==> (acc0[p] || sub@[p])),
                    forall|p: int|
                        0 <= p < n ==> (#[trigger] acc0[p] <==> exists|i2: int|
                            0 <= i2 < ti && pull_reach(bv, bv.targets[i2] as int, p)),
                decreases n - j,
            {
                if sub[j] {
                    acc[j] = true;
                }
                j = j + 1;
            }
            proof {
                assert forall|p: int|
                    0 <= p < n implies (#[trigger] acc@[p] <==> exists|i2: int|
                    0 <= i2 < ti + 1 && pull_reach(bv, bv.targets[i2] as int, p)) by {
                    if acc@[p] {
                        if acc0[p] {
                            let i2 = choose|i2: int|
                                0 <= i2 < ti && pull_reach(bv, bv.targets[i2] as int, p);
                            assert(pull_reach(bv, bv.targets[i2] as int, p));
                        } else {
                            assert(sub@[p]);
                            assert(pull_reach(bv, bv.targets[ti as int] as int, p));
                        }
                    }
                    if exists|i2: int| 0 <= i2 < ti + 1 && pull_reach(bv, bv.targets[i2] as int, p) {
                        let i2 = choose|i2: int|
                            0 <= i2 < ti + 1 && pull_reach(bv, bv.targets[i2] as int, p);
                        if i2 < ti {
                            assert(acc0[p]);
                        } else {
                            assert(sub@[p]);
                        }
                    }
                }
            }
            ti = ti + 1;
        }
        acc
    }
}

} // verus!
