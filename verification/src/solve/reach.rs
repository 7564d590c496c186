//! Agent reachability.
//!
//! A cell is walkable when it is a space cell not occupied by a crate. The
//! agent can reach exactly the cells connected to it through walkable cells;
//! `bfs_from` computes that set together with parent links from which a
//! concrete walk can be rebuilt.

use vstd::arithmetic::div_mod::*;
use vstd::prelude::*;
use vstd::set_lib::*;

use super::board::Board;
use super::board::BoardView;
use super::cells::CellSet;
use super::directions::Dir;
use super::directions::flip;

verus! {

/// The agent may stand on `p`: a space cell holding no crate.
pub open spec fn walkable(bv: BoardView, boxes: Seq<usize>, p: int) -> bool {
    &&& bv.in_bounds(p)
    &&& bv.grid[p].spec_is_space()
    &&& !boxes.contains(p as usize)
}

/// Follows `dirs` from `pos`, requiring every visited cell (after the
/// starting one) to be walkable; yields the final cell, or `None` when a
/// move leaves the grid or enters a non-walkable cell.
pub open spec fn walk(bv: BoardView, boxes: Seq<usize>, pos: int, dirs: Seq<Dir>) -> Option<int>
    decreases dirs.len(),
{
    if dirs.len() == 0 {
        Some(pos)
    } else {
        match bv.step1(pos, dirs[0]) {
            Some(q) => if walkable(bv, boxes, q) {
                walk(bv, boxes, q, dirs.drop_first())
            } else {
                None
            },
            None => None,
        }
    }
}

/// The agent standing on `start` can walk to `p` without pushing anything.
pub open spec fn reach(bv: BoardView, boxes: Seq<usize>, start: int, p: int) -> bool {
    exists|dirs: Seq<Dir>| walk(bv, boxes, start, dirs) == Some(p)
}

/// Walks compose: following `d1` and then `d2` is following `d1 + d2`.
pub proof fn lemma_walk_append(bv: BoardView, boxes: Seq<usize>, pos: int, d1: Seq<Dir>, d2: Seq<Dir>)
    ensures
        walk(bv, boxes, pos, d1 + d2) == (match walk(bv, boxes, pos, d1) {
            Some(m) => walk(bv, boxes, m, d2),
            None => None,
        }),
    decreases d1.len(),
{
    if d1.len() == 0 {
        assert(d1 + d2 =~= d2);
    } else {
        assert((d1 + d2)[0] == d1[0]);
        assert((d1 + d2).drop_first() =~= d1.drop_first() + d2);
        match bv.step1(pos, d1[0]) {
            Some(q) => {
                if walkable(bv, boxes, q) {
                    lemma_walk_append(bv, boxes, q, d1.drop_first(), d2);
                }
            },
            None => {},
        }
    }
}

/// Reachability is reflexive.
pub proof fn lemma_reach_refl(bv: BoardView, boxes: Seq<usize>, start: int)
    ensures
        reach(bv, boxes, start, start),
{
    let dirs = Seq::<Dir>::empty();
    assert(walk(bv, boxes, start, dirs) == Some(start));
}

/// Reachability extends along one walkable move.
pub proof fn lemma_reach_step(bv: BoardView, boxes: Seq<usize>, start: int, p: int, d: Dir, q: int)
    requires
        reach(bv, boxes, start, p),
        bv.step1(p, d) == Some(q),
        walkable(bv, boxes, q),
    ensures
        reach(bv, boxes, start, q),
{
    let dirs = choose|dirs: Seq<Dir>| walk(bv, boxes, start, dirs) == Some(p);
    let one = seq![d];
    assert(one.len() == 1 && one[0] == d);
    let rest = one.drop_first();
    assert(rest.len() == 0);
    assert(walk(bv, boxes, q, rest) == Some(q));
    assert(walk(bv, boxes, p, one) == Some(q));
    lemma_walk_append(bv, boxes, start, dirs, one);
    assert(walk(bv, boxes, start, dirs + one) == Some(q));
}

/// Reachability is transitive.
pub proof fn lemma_reach_trans(bv: BoardView, boxes: Seq<usize>, a: int, b: int, c: int)
    requires
        reach(bv, boxes, a, b),
        reach(bv, boxes, b, c),
    ensures
        reach(bv, boxes, a, c),
{
    let d1 = choose|d1: Seq<Dir>| walk(bv, boxes, a, d1) == Some(b);
    let d2 = choose|d2: Seq<Dir>| walk(bv, boxes, b, d2) == Some(c);
    lemma_walk_append(bv, boxes, a, d1, d2);
    assert(walk(bv, boxes, a, d1 + d2) == Some(c));
}

/// A reached cell is the start itself or walkable.
pub proof fn lemma_reach_walkable(bv: BoardView, boxes: Seq<usize>, start: int, p: int)
    requires
        reach(bv, boxes, start, p),
    ensures
        p == start || walkable(bv, boxes, p),
{
    let dirs = choose|dirs: Seq<Dir>| walk(bv, boxes, start, dirs) == Some(p);
    lemma_walk_end(bv, boxes, start, dirs, p);
}

proof fn lemma_walk_end(bv: BoardView, boxes: Seq<usize>, pos: int, dirs: Seq<Dir>, p: int)
    requires
        walk(bv, boxes, pos, dirs) == Some(p),
    ensures
        p == pos || walkable(bv, boxes, p),
    decreases dirs.len(),
{
    if dirs.len() > 0 {
        match bv.step1(pos, dirs[0]) {
            Some(q) => {
                lemma_walk_end(bv, boxes, q, dirs.drop_first(), p);
            },
            None => {},
        }
    }
}

/// Between walkable cells, reachability is symmetric: a walk can be undone
/// by following the opposite moves in reverse order.
pub proof fn lemma_reach_symm(bv: BoardView, boxes: Seq<usize>, start: int, p: int)
    requires
        bv.dims_ok(),
        walkable(bv, boxes, start),
        reach(bv, boxes, start, p),
    ensures
        reach(bv, boxes, p, start),
{
    let dirs = choose|dirs: Seq<Dir>| walk(bv, boxes, start, dirs) == Some(p);
    lemma_walk_reverse(bv, boxes, start, dirs, p);
}

proof fn lemma_walk_reverse(bv: BoardView, boxes: Seq<usize>, pos: int, dirs: Seq<Dir>, p: int)
    requires
        bv.dims_ok(),
        walkable(bv, boxes, pos),
        walk(bv, boxes, pos, dirs) == Some(p),
    ensures
        reach(bv, boxes, p, pos),
    decreases dirs.len(),
{
    if dirs.len() == 0 {
        lemma_reach_refl(bv, boxes, pos);
    } else {
        let q = bv.step1(pos, dirs[0])->Some_0;
        assert(walkable(bv, boxes, q));
        lemma_walk_reverse(bv, boxes, q, dirs.drop_first(), p);
        bv.lemma_step1(pos, dirs[0]);
        assert(bv.step1(q, flip(dirs[0])) == Some(pos));
        lemma_reach_step(bv, boxes, p, q, flip(dirs[0]), pos);
    }
}

/// A sequence of distinct indices below `n` has at most `n` elements.
pub proof fn lemma_distinct_bounded(s: Seq<usize>, n: nat)
    requires
        s.no_duplicates(),
        forall|i: int| 0 <= i < s.len() ==> s[i] < n,
    ensures
        s.len() <= n,
{
    let rng = set_int_range(0, n as int);
    let big = rng.map(|i: int| i as usize);
    lemma_int_range(0, n as int);
    lemma_map_size_bound(rng, big, |i: int| i as usize);
    s.unique_seq_to_set();
    assert forall|x: usize| s.to_set().contains(x) implies big.contains(x) by {
        assert(rng.contains(x as int));
        assert(big.contains((x as int) as usize));
    }
    lemma_len_subset(s.to_set(), big);
}

/// Whether `dist` marks `p` as reached.
pub open spec fn marked(dist: Seq<usize>, p: int) -> bool {
    dist[p] != usize::MAX
}

/// Every marked cell has all its walkable neighbours marked, at most one
/// step further from the start.
pub open spec fn flood_closed(bv: BoardView, boxes: Seq<usize>, dist: Seq<usize>) -> bool {
    forall|p: int, d: Dir|
        #![trigger marked(dist, p), bv.step1(p, d)]
        0 <= p < dist.len() && marked(dist, p) ==> match bv.step1(p, d) {
            Some(q) => walkable(bv, boxes, q) ==> marked(dist, q) && dist[q] <= dist[p] + 1,
            None => true,
        }
}

/// Every marked cell other than the start carries a parent link: the cell
/// one opposite move away is marked one step closer to the start.
pub open spec fn parents_ok(
    bv: BoardView,
    boxes: Seq<usize>,
    start: int,
    dist: Seq<usize>,
    pdir: Seq<Option<Dir>>,
) -> bool {
    forall|p: int|
        #![trigger pdir[p]]
        0 <= p < dist.len() && marked(dist, p) && p != start ==> {
            &&& dist[p] >= 1
            &&& walkable(bv, boxes, p)
            &&& pdir[p] is Some
            &&& match bv.step1(p, flip(pdir[p]->Some_0)) {
                Some(q) => 0 <= q < dist.len() && marked(dist, q) && dist[q] == dist[p] - 1
                    && bv.step1(q, pdir[p]->Some_0) == Some(p),
                None => false,
            }
        }
}

/// In a closed flood, everything walkably reachable from a marked cell is
/// marked, no further away than the walk is long.
proof fn lemma_flood_complete(
    bv: BoardView,
    boxes: Seq<usize>,
    dist: Seq<usize>,
    m: int,
    dirs: Seq<Dir>,
    p: int,
)
    requires
        dist.len() == bv.grid.len(),
        flood_closed(bv, boxes, dist),
        0 <= m < dist.len(),
        marked(dist, m),
        walk(bv, boxes, m, dirs) == Some(p),
    ensures
        0 <= p < dist.len(),
        marked(dist, p),
        dist[p] <= dist[m] + dirs.len(),
    decreases dirs.len(),
{
    if dirs.len() == 0 {
    } else {
        match bv.step1(m, dirs[0]) {
            Some(q) => {
                assert(walkable(bv, boxes, q));
                assert(marked(dist, q));
                lemma_flood_complete(bv, boxes, dist, q, dirs.drop_first(), p);
            },
            None => {},
        }
    }
}

/// In a breadth-first flood, no walk from the start beats the recorded
/// depth: the reconstruction is a shortest path.
pub proof fn lemma_flood_shortest(
    bv: BoardView,
    boxes: Seq<usize>,
    dist: Seq<usize>,
    start: int,
    dirs: Seq<Dir>,
    p: int,
)
    requires
        dist.len() == bv.grid.len(),
        flood_closed(bv, boxes, dist),
        0 <= start < dist.len(),
        marked(dist, start),
        dist[start] == 0,
        walk(bv, boxes, start, dirs) == Some(p),
    ensures
        0 <= p < dist.len(),
        marked(dist, p),
        dist[p] <= dirs.len(),
{
    lemma_flood_complete(bv, boxes, dist, start, dirs, p);
}

/// The result of a breadth-first flood: for every cell, its discovery depth
/// (`usize::MAX` when unreached) and the direction by which it was entered.
#[derive(Debug)]
pub struct ReachMap {
    pub dist: Vec<usize>,
    pub pdir: Vec<Option<Dir>>,
}

impl ReachMap {
    /// Whether `p` was reached by the flood.
    pub open spec fn spec_reached(&self, p: int) -> bool {
        marked(self.dist@, p)
    }

    /// The flood really describes agent reachability from `start` among
    /// `boxes` on the given board.
    pub open spec fn wf(&self, bv: BoardView, boxes: Seq<usize>, start: int) -> bool {
        &&& self.dist@.len() == bv.grid.len()
        &&& self.pdir@.len() == bv.grid.len()
        &&& bv.in_bounds(start)
        &&& self.spec_reached(start)
        &&& self.dist@[start] == 0
        &&& forall|p: int|
            0 <= p < self.dist@.len() && #[trigger] marked(self.dist@, p) ==> self.dist@[p]
                < bv.grid.len()
        &&& parents_ok(bv, boxes, start, self.dist@, self.pdir@)
        &&& flood_closed(bv, boxes, self.dist@)
        &&& forall|p: int|
            0 <= p < self.dist@.len() ==> (#[trigger] marked(self.dist@, p) <==> reach(
                bv,
                boxes,
                start,
                p,
            ))
    }

    /// Whether `p` was reached.
    pub fn reached(&self, p: usize) -> (r: bool)
        requires
            (p as int) < self.dist@.len(),
        ensures
            r == self.spec_reached(p as int),
    {
        self.dist[p] != usize::MAX
    }

    /// One boolean per cell: reached or not.
    pub fn marks(&self) -> (v: Vec<bool>)
        ensures
            v@.len() == self.dist@.len(),
            forall|p: int| 0 <= p < v@.len() ==> v@[p] == self.spec_reached(p),
    {
        let n = self.dist.len();
        let mut v: Vec<bool> = Vec::new();
        let mut i: usize = 0;
        while i < n
            invariant
                n == self.dist@.len(),
                i <= n,
                v@.len() == i,
                forall|p: int| 0 <= p < i ==> v@[p] == self.spec_reached(p),
            decreases n - i,
        {
            v.push(self.dist[i] != usize::MAX);
            i = i + 1;
        }
        v
    }

    /// Rebuilds a concrete walk from `start` to the reached cell `target`
    /// by following the parent links.
    pub fn path_to(&self, board: &Board, boxes: &CellSet, start: usize, target: usize) -> (path:
        Vec<Dir>)
        requires
            board@.dims_ok(),
            self.wf(board@, boxes@, start as int),
            (target as int) < self.dist@.len(),
            self.spec_reached(target as int),
        ensures
            walk(board@, boxes@, start as int, path@) == Some(target as int),
            path@.len() == self.dist@[target as int],
    {
        let ghost bv = board@;
        let mut path: Vec<Dir> = Vec::new();
        let mut pos = target;
        while self.dist[pos] != 0
            invariant
                bv == board@,
                board@.dims_ok(),
                self.wf(bv, boxes@, start as int),
                (pos as int) < self.dist@.len(),
                self.spec_reached(pos as int),
                walk(bv, boxes@, pos as int, path@) == Some(target as int),
                path@.len() + self.dist@[pos as int] == self.dist@[target as int],
            decreases self.dist@[pos as int],
        {
            assert(pos as int != start as int);
            let d = self.pdir[pos].unwrap();
            let q = board.step_one(pos, d.opposite()).unwrap();
            let ghost tail = path@;
            let ghost whole = seq![d] + tail;
            proof {
                assert(bv.step1(pos as int, flip(d)) == Some(q as int));
                assert(bv.step1(q as int, d) == Some(pos as int));
                assert(walkable(bv, boxes@, pos as int));
                assert(whole.drop_first() =~= tail);
                assert(walk(bv, boxes@, q as int, whole) == Some(target as int));
            }
            path.insert(0, d);
            proof {
                assert(path@ =~= whole);
            }
            pos = q;
        }
        proof {
            if pos as int != start as int {
                assert(self.pdir@[pos as int] is Some);
                assert(false);
            }
        }
        path
    }
}


/// The flood invariant: distances and parent links are consistent, the
/// queue lists exactly the marked cells, and everything marked is truly
/// reachable from `start`.
pub open spec fn bfs_inv(
    bv: BoardView,
    boxes: Seq<usize>,
    start: int,
    dist: Seq<usize>,
    pdir: Seq<Option<Dir>>,
    queue: Seq<usize>,
) -> bool {
    &&& bv.dims_ok()
    &&& walkable(bv, boxes, start)
    &&& dist.len() == bv.grid.len()
    &&& pdir.len() == bv.grid.len()
    &&& 0 <= start < dist.len()
    &&& marked(dist, start)
    &&& dist[start] == 0
    &&& queue.no_duplicates()
    &&& forall|j: int|
        0 <= j < queue.len() ==> bv.in_bounds(#[trigger] queue[j] as int) && marked(
            dist,
            queue[j] as int,
        )
    &&& forall|p: int|
        #![trigger queue.contains(p as usize)]
        0 <= p < dist.len() && marked(dist, p) ==> queue.contains(p as usize)
    &&& forall|p: int| 0 <= p < dist.len() && #[trigger] marked(dist, p) ==> dist[p] < queue.len()
    &&& parents_ok(bv, boxes, start, dist, pdir)
    &&& queue_sorted(dist, queue)
    &&& forall|p: int|
        0 <= p < dist.len() && #[trigger] marked(dist, p) ==> reach(bv, boxes, start, p)
}

/// The first `k` queue entries have had all their walkable neighbours
/// marked.
pub open spec fn processed(
    bv: BoardView,
    boxes: Seq<usize>,
    dist: Seq<usize>,
    queue: Seq<usize>,
    k: int,
) -> bool {
    forall|j: int, d: Dir|
        #![trigger bv.step1(queue[j] as int, d)]
        0 <= j < k ==> match bv.step1(queue[j] as int, d) {
            Some(q) => walkable(bv, boxes, q) ==> marked(dist, q) && dist[q] <= dist[
                queue[j] as int
            ] + 1,
            None => true,
        }
}

/// The queue holds cells in nondecreasing distance order.
pub open spec fn queue_sorted(dist: Seq<usize>, queue: Seq<usize>) -> bool {
    forall|j1: int, j2: int|
        0 <= j1 <= j2 < queue.len() ==> dist[#[trigger] queue[j1] as int] <= dist[
            #[trigger] queue[j2] as int
        ]
}

/// Every queued cell lies within one step of the current front.
pub open spec fn queue_spanned(dist: Seq<usize>, queue: Seq<usize>, qi: int) -> bool {
    forall|j: int|
        0 <= j < queue.len() ==> dist[#[trigger] queue[j] as int] <= dist[queue[qi] as int] + 1
}

/// Explores the four neighbours of the queue entry at `qi`, marking and
/// enqueueing those that are walkable and new.
fn bfs_step(
    board: &Board,
    boxes: &CellSet,
    dist: &mut Vec<usize>,
    pdir: &mut Vec<Option<Dir>>,
    queue: &mut Vec<usize>,
    qi: usize,
    Ghost(start): Ghost<int>,
)
    requires
        bfs_inv(board@, boxes@, start, old(dist)@, old(pdir)@, old(queue)@),
        processed(board@, boxes@, old(dist)@, old(queue)@, qi as int),
        queue_spanned(old(dist)@, old(queue)@, qi as int),
        (qi as int) < old(queue)@.len(),
    ensures
        bfs_inv(board@, boxes@, start, final(dist)@, final(pdir)@, final(queue)@),
        processed(board@, boxes@, final(dist)@, final(queue)@, qi as int + 1),
        queue_spanned(final(dist)@, final(queue)@, qi as int),
        final(queue)@.len() >= old(queue)@.len(),
        final(dist)@.len() == old(dist)@.len(),
{
    let ghost bv = board@;
    let n = dist.len();
    let cur = queue[qi];
    let ghost len_before = queue@.len();
    let dirs = Dir::iter();
    let mut di: usize = 0;
    while di < 4
        invariant
            bv == board@,
            n == bv.grid.len(),
            di <= 4,
            dirs@ =~= seq![Dir::North, Dir::East, Dir::South, Dir::West],
            bfs_inv(bv, boxes@, start, dist@, pdir@, queue@),
            qi < queue@.len(),
            queue@.len() >= len_before,
            cur == queue@[qi as int],
            processed(bv, boxes@, dist@, queue@, qi as int),
            queue_spanned(dist@, queue@, qi as int),
            forall|k: int|
                0 <= k < di ==> match bv.step1(cur as int, #[trigger] dirs@[k]) {
                    Some(q) => walkable(bv, boxes@, q) ==> marked(dist@, q) && dist@[q] <= dist@[
                        cur as int
                    ] + 1,
                    None => true,
                },
        decreases n - queue@.len(), 4 - di,
    {
        let d = dirs[di];
        let ghost q_pre = queue@;
        let ghost dist_pre = dist@;
        match board.step_one(cur, d) {
            Some(nb) => {
                let free = board.square_at(nb).is_space() && !boxes.contains(nb);
                proof {
                    if free && marked(dist@, nb as int) {
                        let pnb: int = nb as int;
                        assert(marked(dist@, pnb));
                        assert(queue@.contains(pnb as usize));
                        assert(pnb as usize == nb);
                        let jq = choose|jq: int| 0 <= jq < queue@.len() && queue@[jq] == nb;
                        assert(dist@[queue@[jq] as int] <= dist@[queue@[qi as int] as int] + 1);
                        assert(dist@[nb as int] <= dist@[cur as int] + 1);
                    }
                }
                if free && dist[nb] == usize::MAX {
                    proof {
                        lemma_distinct_bounded(queue@, n as nat);
                        assert(dist@[cur as int] < queue@.len());
                        assert(queue@.len() <= n);
                        lemma_reach_step(bv, boxes@, start, cur as int, d, nb as int);
                    }
                    let ghost dist0 = dist@;
                    let ghost pdir0 = pdir@;
                    let ghost q0 = queue@;
                    let dn = dist[cur] + 1;
                    dist[nb] = dn;
                    pdir[nb] = Some(d);
                    queue.push(nb);
                    proof {
                        assert(!q0.contains(nb));
                        bv.lemma_step1(cur as int, d);
                        assert(bv.step1(nb as int, flip(d)) == Some(cur as int));
                        assert(queue@ == q0.push(nb));
                        assert(queue@.no_duplicates());
                        assert(queue_sorted(dist@, queue@)) by {
                            assert forall|j1: int, j2: int|
                                0 <= j1 <= j2 < queue@.len() implies dist@[
                                #[trigger] queue@[j1] as int
                            ] <= dist@[#[trigger] queue@[j2] as int] by {
                                if j2 < q0.len() {
                                    assert(queue@[j1] == q0[j1] && queue@[j2] == q0[j2]);
                                    assert(q0[j1] != nb && q0[j2] != nb);
                                    assert(dist@[q0[j1] as int] == dist0[q0[j1] as int]);
                                    assert(dist@[q0[j2] as int] == dist0[q0[j2] as int]);
                                } else if j1 < j2 {
                                    assert(queue@[j2] == nb);
                                    assert(queue@[j1] == q0[j1]);
                                    assert(q0[j1] != nb);
                                    assert(dist@[q0[j1] as int] == dist0[q0[j1] as int]);
                                    assert(dist0[q0[j1] as int] <= dist0[q0[qi as int] as int]
                                        + 1);
                                }
                            }
                        }
                        assert(queue_spanned(dist@, queue@, qi as int)) by {
                            assert forall|j: int| 0 <= j < queue@.len() implies dist@[
                                #[trigger] queue@[j] as int
                            ] <= dist@[queue@[qi as int] as int] + 1 by {
                                if j < q0.len() {
                                    assert(queue@[j] == q0[j]);
                                    assert(q0[j] != nb);
                                    assert(dist@[q0[j] as int] == dist0[q0[j] as int]);
                                } else {
                                    assert(queue@[j] == nb);
                                }
                            }
                        }
                        assert forall|p: int|
                            0 <= p < n && #[trigger] marked(dist@, p) implies queue@.contains(
                            p as usize,
                        ) && dist@[p] < queue@.len() by {
                            if p == nb as int {
                                assert(queue@[q0.len() as int] == nb);
                            } else {
                                assert(dist@[p] == dist0[p]);
                                assert(marked(dist0, p));
                                assert(q0.contains(p as usize));
                                let idx = choose|idx: int|
                                    0 <= idx < q0.len() && q0[idx] == p as usize;
                                assert(queue@[idx] == p as usize);
                            }
                        }
                        assert forall|p: int|
                            0 <= p < n && #[trigger] marked(dist@, p) && p != start implies {
                            &&& dist@[p] >= 1
                            &&& walkable(bv, boxes@, p)
                            &&& pdir@[p] is Some
                            &&& match bv.step1(p, flip(pdir@[p]->Some_0)) {
                                Some(q) => 0 <= q < dist@.len() && marked(dist@, q) && dist@[q]
                                    == dist@[p] - 1 && bv.step1(q, pdir@[p]->Some_0) == Some(p),
                                None => false,
                            }
                        } by {
                            if p == nb as int {
                                assert(pdir@[p] == Some(d));
                                assert(bv.step1(p, flip(d)) == Some(cur as int));
                                assert(dist@[cur as int] == dist0[cur as int]);
                            } else {
                                assert(dist@[p] == dist0[p]);
                                assert(marked(dist0, p));
                                assert(pdir@[p] == pdir0[p]);
                                let pd = pdir0[p]->Some_0;
                                match bv.step1(p, flip(pd)) {
                                    Some(q) => {
                                        assert(marked(dist0, q));
                                        assert(q != nb as int);
                                        assert(dist@[q] == dist0[q]);
                                    },
                                    None => {},
                                }
                            }
                        }
                    }
                }
            },
            None => {},
        }
        proof {
            lemma_distinct_bounded(queue@, n as nat);
        }
        di = di + 1;
    }
    proof {
        assert forall|j: int, d: Dir|
            #![trigger bv.step1(queue@[j] as int, d)]
            0 <= j < qi as int + 1 implies match bv.step1(queue@[j] as int, d) {
            Some(q) => walkable(bv, boxes@, q) ==> marked(dist@, q) && dist@[q] <= dist@[
                queue@[j] as int
            ] + 1,
            None => true,
        } by {
            if j == qi as int {
                let k: int = match d {
                    Dir::North => 0,
                    Dir::East => 1,
                    Dir::South => 2,
                    Dir::West => 3,
                };
                assert(dirs@[k] == d);
                assert(match bv.step1(cur as int, dirs@[k]) {
                    Some(q) => walkable(bv, boxes@, q) ==> marked(dist@, q) && dist@[q] <= dist@[
                        cur as int
                    ] + 1,
                    None => true,
                });
            }
        }
    }
}

/// Builds the initial flood state: everything unreached but `start`, which
/// sits alone in the queue at depth zero.
fn bfs_seed(board: &Board, boxes: &CellSet, start: usize, Ghost(bv): Ghost<BoardView>) -> (r: (
    Vec<usize>,
    Vec<Option<Dir>>,
    Vec<usize>,
))
    requires
        bv == board@,
        board@.dims_ok(),
        walkable(board@, boxes@, start as int),
    ensures
        bfs_inv(bv, boxes@, start as int, r.0@, r.1@, r.2@),
        processed(bv, boxes@, r.0@, r.2@, 0),
        queue_spanned(r.0@, r.2@, 0),
        r.0@.len() == bv.grid.len(),
{
    let n = board.grid.len();
    let mut dist: Vec<usize> = Vec::new();
    let mut pdir: Vec<Option<Dir>> = Vec::new();
    let mut i: usize = 0;
    while i < n
        invariant
            i <= n,
            dist@.len() == i,
            pdir@.len() == i,
            forall|p: int| 0 <= p < i ==> dist@[p] == usize::MAX,
            forall|p: int| 0 <= p < i ==> pdir@[p] is None,
        decreases n - i,
    {
        dist.push(usize::MAX);
        pdir.push(None);
        i = i + 1;
    }
    dist[start] = 0;
    let mut queue: Vec<usize> = Vec::new();
    queue.push(start);
    proof {
        lemma_reach_refl(bv, boxes@, start as int);
        assert(marked(dist@, start as int));
        assert(queue@[0] == start);
        assert(queue@.contains(start));
        assert forall|p: int| 0 <= p < n && #[trigger] marked(dist@, p) implies p
            == start as int by {
            assert(dist@[p] != usize::MAX);
        }
        assert(bfs_inv(bv, boxes@, start as int, dist@, pdir@, queue@));
    }
    (dist, pdir, queue)
}

/// Floods the walkable cells from `start`, breadth first, recording depth
/// and entry direction for every cell reached. The result characterises
/// reachability exactly.
pub fn bfs_from(board: &Board, boxes: &CellSet, start: usize) -> (r: ReachMap)
    requires
        board@.dims_ok(),
        walkable(board@, boxes@, start as int),
    ensures
        r.wf(board@, boxes@, start as int),
{
    let ghost bv = board@;
    let n = board.grid.len();
    let (mut dist, mut pdir, mut queue) = bfs_seed(board, boxes, start, Ghost(bv));
    let mut qi: usize = 0;
    while qi < queue.len()
        invariant
            bv == board@,
            n == bv.grid.len(),
            dist@.len() == n,
            bfs_inv(bv, boxes@, start as int, dist@, pdir@, queue@),
            processed(bv, boxes@, dist@, queue@, qi as int),
            qi < queue@.len() ==> queue_spanned(dist@, queue@, qi as int),
            qi <= queue@.len(),
        decreases n - queue@.len(), queue@.len() - qi,
    {
        proof {
            lemma_distinct_bounded(queue@, n as nat);
        }
        bfs_step(board, boxes, &mut dist, &mut pdir, &mut queue, qi, Ghost(start as int));
        proof {
            lemma_distinct_bounded(queue@, n as nat);
            if qi as int + 1 < queue@.len() {
                assert forall|j: int| 0 <= j < queue@.len() implies dist@[
                    #[trigger] queue@[j] as int
                ] <= dist@[queue@[qi as int + 1] as int] + 1 by {
                    assert(dist@[queue@[j] as int] <= dist@[queue@[qi as int] as int] + 1);
                    assert(dist@[queue@[qi as int] as int] <= dist@[queue@[qi as int + 1] as int]);
                }
            }
        }
        qi = qi + 1;
    }
    let r = ReachMap { dist, pdir };
    proof {
        lemma_bfs_wf(r, bv, boxes@, start as int, queue@);
    }
    r
}

/// Packages the loop exit facts into the `ReachMap` well-formedness
/// statement.
#[verifier::rlimit(100)]
proof fn lemma_bfs_wf(r: ReachMap, bv: BoardView, boxes: Seq<usize>, start: int, queue: Seq<usize>)
    requires
        bfs_inv(bv, boxes, start, r.dist@, r.pdir@, queue),
        processed(bv, boxes, r.dist@, queue, queue.len() as int),
    ensures
        r.wf(bv, boxes, start),
{
    lemma_distinct_bounded(queue, bv.grid.len() as nat);
    lemma_bfs_exit(bv, boxes, start, r.dist@, queue);
    assert forall|p: int|
        0 <= p < r.dist@.len() implies (#[trigger] marked(r.dist@, p) <==> reach(
        bv,
        boxes,
        start,
        p,
    )) by {}
}

/// At flood exit the queue lists every marked cell and every listed cell
/// has had its neighbours explored, so marking is closed and hence
/// complete.
proof fn lemma_bfs_exit(
    bv: BoardView,
    boxes: Seq<usize>,
    start: int,
    dist: Seq<usize>,
    queue: Seq<usize>,
)
    requires
        dist.len() == bv.grid.len(),
        dist.len() <= usize::MAX,
        0 <= start < dist.len(),
        marked(dist, start),
        forall|p: int|
            0 <= p < dist.len() && #[trigger] marked(dist, p) ==> queue.contains(p as usize),
        forall|j: int, d: Dir|
            #![trigger bv.step1(queue[j] as int, d)]
            0 <= j < queue.len() ==> match bv.step1(queue[j] as int, d) {
                Some(q) => walkable(bv, boxes, q) ==> marked(dist, q) && dist[q] <= dist[
                    queue[j] as int
                ] + 1,
                None => true,
            },
    ensures
        flood_closed(bv, boxes, dist),
        forall|p: int|
            0 <= p < dist.len() && reach(bv, boxes, start, p) ==> #[trigger] marked(dist, p),
{
    assert(flood_closed(bv, boxes, dist)) by {
        assert forall|p2: int, d: Dir|
            #![trigger marked(dist, p2), bv.step1(p2, d)]
            0 <= p2 < dist.len() && marked(dist, p2) implies match bv.step1(p2, d) {
            Some(q) => walkable(bv, boxes, q) ==> marked(dist, q) && dist[q] <= dist[p2] + 1,
            None => true,
        } by {
            assert(queue.contains(p2 as usize));
            let j = choose|j: int| 0 <= j < queue.len() && queue[j] == p2 as usize;
            assert(queue[j] as int == p2);
            assert(bv.step1(queue[j] as int, d) == bv.step1(p2, d));
        }
    }
    assert forall|p: int|
        0 <= p < dist.len() && reach(bv, boxes, start, p) implies #[trigger] marked(
        dist,
        p,
    ) by {
        let dirs2 = choose|dirs2: Seq<Dir>| walk(bv, boxes, start, dirs2) == Some(p);
        lemma_flood_complete(bv, boxes, dist, start, dirs2, p);
    }
}

} // verus!
