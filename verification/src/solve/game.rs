//! The rules of the game, as a specification.
//!
//! A configuration is the crate set and the agent cell. One move walks the
//! agent one cell; walking into a crate pushes it one cell further, which
//! must be free space. Replaying a move sequence against these rules is
//! what it means for a trace to solve a puzzle; the solver's contracts
//! promise that returned traces replay to a solved configuration.

use vstd::prelude::*;

use super::board::BoardView;
use super::deadlock::cluster_pinned;
use super::deadlock::lemma_cluster_flagged;
use super::deadlock::pinned_on_axis;
use super::deadlock::spec_deadlocked;
use super::puller::lemma_pull_refl;
use super::puller::lemma_pull_step;
use super::puller::pull1;
use super::puller::pull_reach;
use super::puller::valid_from_targets;
use super::directions::Dir;
use super::directions::flip;
use super::puzzle::Puzzle;
use super::puzzle::lemma_run_len_prefix;
use super::puzzle::lemma_step_n_moves;
use super::reach::reach;
use super::reach::walk;
use super::reach::walkable;

verus! {

/// A game configuration: where the crates and the agent stand.
#[verifier::ext_equal]
pub ghost struct Cfg {
    pub boxes: Set<usize>,
    pub player: int,
}

/// One agent move under the game rules, or `None` when it is illegal.
pub open spec fn play1(bv: BoardView, c: Cfg, d: Dir) -> Option<Cfg> {
    match bv.step1(c.player, d) {
        Some(q) => if !bv.in_bounds(q) || !bv.grid[q].spec_is_space() {
            None
        } else if c.boxes.contains(q as usize) {
            match bv.step1(q, d) {
                Some(r) => if bv.in_bounds(r) && bv.grid[r].spec_is_space() && !c.boxes.contains(
                    r as usize,
                ) {
                    Some(Cfg { boxes: c.boxes.remove(q as usize).insert(r as usize), player: q })
                } else {
                    None
                },
                None => None,
            }
        } else {
            Some(Cfg { boxes: c.boxes, player: q })
        },
        None => None,
    }
}

/// Replays a whole move sequence; `None` as soon as a move is illegal.
pub open spec fn play(bv: BoardView, c: Cfg, moves: Seq<Dir>) -> Option<Cfg>
    decreases moves.len(),
{
    if moves.len() == 0 {
        Some(c)
    } else {
        match play1(bv, c, moves[0]) {
            Some(c2) => play(bv, c2, moves.drop_first()),
            None => None,
        }
    }
}

/// The configuration of a search state.
pub open spec fn cfg_of(p: Puzzle) -> Cfg {
    Cfg { boxes: p.boxes@.to_set(), player: p.player_pos as int }
}

/// Every target holds a crate.
pub open spec fn cfg_solved(bv: BoardView, c: Cfg) -> bool {
    forall|i: int| 0 <= i < bv.targets.len() ==> c.boxes.contains(#[trigger] bv.targets[i])
}

/// Replays compose over concatenation.
pub proof fn lemma_play_append(bv: BoardView, c: Cfg, m1: Seq<Dir>, m2: Seq<Dir>)
    ensures
        play(bv, c, m1 + m2) == (match play(bv, c, m1) {
            Some(mid) => play(bv, mid, m2),
            None => None,
        }),
    decreases m1.len(),
{
    if m1.len() == 0 {
        assert(m1 + m2 =~= m2);
    } else {
        assert((m1 + m2)[0] == m1[0]);
        assert((m1 + m2).drop_first() =~= m1.drop_first() + m2);
        match play1(bv, c, m1[0]) {
            Some(c2) => {
                lemma_play_append(bv, c2, m1.drop_first(), m2);
            },
            None => {},
        }
    }
}

/// A walk through crate-free cells replays as agent moves that leave the
/// crates alone.
pub proof fn lemma_walk_plays(bv: BoardView, boxes: Seq<usize>, pos: int, dirs: Seq<Dir>, t: int)
    requires
        walk(bv, boxes, pos, dirs) == Some(t),
    ensures
        play(bv, Cfg { boxes: boxes.to_set(), player: pos }, dirs) == Some(
            Cfg { boxes: boxes.to_set(), player: t },
        ),
    decreases dirs.len(),
{
    if dirs.len() == 0 {
    } else {
        let q = bv.step1(pos, dirs[0])->Some_0;
        assert(bv.step1(pos, dirs[0]) is Some);
        assert(walkable(bv, boxes, q));
        assert(!boxes.to_set().contains(q as usize)) by {
            if boxes.to_set().contains(q as usize) {
                assert(boxes.contains(q as usize));
            }
        }
        lemma_walk_plays(bv, boxes, q, dirs.drop_first(), t);
    }
}

/// The cells a crate at `pos` runs through when pushed `steps` times: each
/// exists, is space, and is free of other crates.
pub open spec fn clear_run(bv: BoardView, bset: Set<usize>, pos: int, dir: Dir, steps: nat) -> bool {
    forall|k: nat|
        1 <= k <= steps ==> (#[trigger] bv.step_n(pos, dir, k)) is Some && bv.in_bounds(
            bv.step_n(pos, dir, k)->Some_0,
        ) && bv.grid[bv.step_n(pos, dir, k)->Some_0].spec_is_space() && !bset.contains(
            bv.step_n(pos, dir, k)->Some_0 as usize,
        )
}

/// Pushing a crate `steps` cells replays exactly: the agent starts behind
/// the crate, the crate ends `steps` cells on, the agent one cell short.
pub proof fn lemma_play_pushes(bv: BoardView, bset: Set<usize>, pos: int, dir: Dir, steps: nat)
    requires
        bv.dims_ok(),
        bv.in_bounds(pos),
        bv.grid[pos].spec_is_space(),
        bset.contains(pos as usize),
        steps >= 1,
        clear_run(bv, bset, pos, dir, steps),
        bv.step1(pos, flip(dir)) is Some,
    ensures
        play(
            bv,
            Cfg { boxes: bset, player: bv.step1(pos, flip(dir))->Some_0 },
            Seq::new(steps, |i: int| dir),
        ) == Some(
            Cfg {
                boxes: bset.remove(pos as usize).insert(bv.step_n(pos, dir, steps)->Some_0 as usize),
                player: bv.step_n(pos, dir, (steps - 1) as nat)->Some_0,
            },
        ),
    decreases steps,
{
    let pp = bv.step1(pos, flip(dir))->Some_0;
    bv.lemma_step1(pos, flip(dir));
    assert(bv.step1(pp, dir) == Some(pos));
    let reps = Seq::new(steps, |i: int| dir);
    assert(reps[0] == dir);
    let q1 = bv.step_n(pos, dir, 1)->Some_0;
    assert(bv.step_n(pos, dir, 1) is Some);
    assert(bv.step_n(pos, dir, 0) == Some(pos));
    bv.lemma_step_n_unsnoc(pos, dir, 1);
    assert(bv.step1(pos, dir) == Some(q1));
    bv.lemma_step1(pos, dir);
    assert(q1 != pos);
    let cfg0 = Cfg { boxes: bset, player: pp };
    let cfg1 = Cfg { boxes: bset.remove(pos as usize).insert(q1 as usize), player: pos };
    assert(play1(bv, cfg0, dir) == Some(cfg1));
    if steps == 1 {
        assert(reps.drop_first() =~= Seq::<Dir>::empty());
        assert(play(bv, cfg1, reps.drop_first()) == Some(cfg1));
    } else {
        let bset1 = cfg1.boxes;
        assert(bset1.contains(q1 as usize));
        assert(clear_run(bv, bset1, q1, dir, (steps - 1) as nat)) by {
            assert forall|k: nat| 1 <= k <= steps - 1 implies (#[trigger] bv.step_n(q1, dir, k))
                is Some && bv.in_bounds(bv.step_n(q1, dir, k)->Some_0) && bv.grid[
                bv.step_n(q1, dir, k)->Some_0
            ].spec_is_space() && !bset1.contains(bv.step_n(q1, dir, k)->Some_0 as usize) by {
                lemma_step_shift(bv, pos, dir, k);
                assert(bv.step_n(q1, dir, k) == bv.step_n(pos, dir, (k + 1) as nat));
                assert(1 <= k + 1 <= steps);
                assert(bv.step_n(pos, dir, (k + 1) as nat) is Some);
                let ck = bv.step_n(pos, dir, (k + 1) as nat)->Some_0;
                assert(!bset.contains(ck as usize));
                lemma_step_n_moves(bv, q1, dir, k);
                assert(ck != q1);
            }
        }
        assert(bv.grid[q1].spec_is_space());
        assert(bv.step1(q1, flip(dir)) == Some(pos));
        lemma_play_pushes(bv, bset1, q1, dir, (steps - 1) as nat);
        assert(reps.drop_first() =~= Seq::new((steps - 1) as nat, |i: int| dir));
        lemma_step_shift(bv, pos, dir, (steps - 1) as nat);
        assert(bv.step_n(q1, dir, (steps - 1) as nat) == bv.step_n(pos, dir, steps));
        lemma_step_shift(bv, pos, dir, (steps - 2) as nat);
        assert(bv.step_n(q1, dir, (steps - 2) as nat) == bv.step_n(pos, dir, (steps - 1) as nat));
        assert(bset1.remove(q1 as usize).insert(bv.step_n(pos, dir, steps)->Some_0 as usize)
            =~= bset.remove(pos as usize).insert(bv.step_n(pos, dir, steps)->Some_0 as usize)) by {
            assert(!bset.remove(pos as usize).contains(q1 as usize));
            lemma_step_n_moves(bv, pos, dir, steps);
            assert(bv.step_n(pos, dir, steps)->Some_0 != pos);
        }
    }
}


/// A sane configuration for replays: the agent stands on a space cell and
/// the crate set is finite.
pub open spec fn cfg_ok(bv: BoardView, c: Cfg) -> bool {
    &&& bv.in_bounds(c.player)
    &&& bv.grid[c.player].spec_is_space()
    &&& c.boxes.finite()
}

/// One legal move keeps the configuration sane, keeps the crate count, and
/// any crate it moves slides along a pull edge read backwards.
proof fn lemma_play1_facts(bv: BoardView, c: Cfg, d: Dir, c2: Cfg)
    requires
        bv.dims_ok(),
        cfg_ok(bv, c),
        play1(bv, c, d) == Some(c2),
    ensures
        cfg_ok(bv, c2),
        c2.boxes.len() == c.boxes.len(),
        c2.boxes == c.boxes || exists|q: usize, r: usize|
            c.boxes.contains(q) && !c.boxes.contains(r) && #[trigger] c2.boxes == c.boxes.remove(
                q,
            ).insert(r) && pull1(bv, r as int, flip(d)) == Some(q as int),
{
    let q = bv.step1(c.player, d)->Some_0;
    assert(bv.step1(c.player, d) is Some);
    bv.lemma_step1(c.player, d);
    if c.boxes.contains(q as usize) {
        let r = bv.step1(q, d)->Some_0;
        assert(bv.step1(q, d) is Some);
        bv.lemma_step1(q, d);
        assert(bv.step1(r, flip(d)) == Some(q));
        assert(bv.step1(q, flip(d)) == Some(c.player));
        assert(pull1(bv, r, flip(d)) == Some(q));
        assert((q as usize) as int == q);
        assert((r as usize) as int == r);
        assert(c2.boxes == c.boxes.remove(q as usize).insert(r as usize));
        assert(!c.boxes.remove(q as usize).contains(r as usize));
        assert(c2.boxes.len() == c.boxes.len());
    }
}

/// Wherever a crate stands during a play, some crate of the final
/// configuration can be pulled back to that cell: pushes read backwards
/// are pulls.
proof fn lemma_play_boxes_pullable(bv: BoardView, c: Cfg, m: Seq<Dir>, x: usize)
    requires
        bv.dims_ok(),
        cfg_ok(bv, c),
        c.boxes.contains(x),
        play(bv, c, m) is Some,
    ensures
        exists|y: usize|
            (#[trigger] play(bv, c, m)->Some_0.boxes.contains(y)) && pull_reach(
                bv,
                y as int,
                x as int,
            ),
    decreases m.len(),
{
    if m.len() == 0 {
        lemma_pull_refl(bv, x as int);
        assert(play(bv, c, m)->Some_0.boxes.contains(x));
    } else {
        let c2 = play1(bv, c, m[0])->Some_0;
        assert(play1(bv, c, m[0]) is Some);
        lemma_play1_facts(bv, c, m[0], c2);
        assert(play(bv, c2, m.drop_first()) == play(bv, c, m));
        if c2.boxes == c.boxes {
            lemma_play_boxes_pullable(bv, c2, m.drop_first(), x);
        } else {
            let (q, r) = choose|q: usize, r: usize|
                c.boxes.contains(q) && !c.boxes.contains(r) && #[trigger] c2.boxes
                    == c.boxes.remove(q).insert(r) && pull1(bv, r as int, flip(m[0])) == Some(
                    q as int,
                );
            if x == q {
                assert(c2.boxes.contains(r));
                lemma_play_boxes_pullable(bv, c2, m.drop_first(), r);
                let y = choose|y: usize|
                    (#[trigger] play(bv, c2, m.drop_first())->Some_0.boxes.contains(y))
                        && pull_reach(bv, y as int, r as int);
                lemma_pull_step(bv, y as int, r as int, flip(m[0]), x as int);
            } else {
                assert(c2.boxes.contains(x));
                lemma_play_boxes_pullable(bv, c2, m.drop_first(), x);
            }
        }
    }
}

/// Legal moves keep the configuration sane and the crate count fixed.
proof fn lemma_play_preserves(bv: BoardView, c: Cfg, m: Seq<Dir>)
    requires
        bv.dims_ok(),
        cfg_ok(bv, c),
        play(bv, c, m) is Some,
    ensures
        cfg_ok(bv, play(bv, c, m)->Some_0),
        play(bv, c, m)->Some_0.boxes.len() == c.boxes.len(),
    decreases m.len(),
{
    if m.len() > 0 {
        let c2 = play1(bv, c, m[0])->Some_0;
        assert(play1(bv, c, m[0]) is Some);
        lemma_play1_facts(bv, c, m[0], c2);
        lemma_play_preserves(bv, c2, m.drop_first());
    }
}



/// A playable configuration: sane, and the agent shares no cell with a
/// crate.
pub open spec fn cfg_playable(bv: BoardView, c: Cfg) -> bool {
    &&& cfg_ok(bv, c)
    &&& !c.boxes.contains(c.player as usize)
}

/// In a solved, balanced configuration the crates stand exactly on the
/// targets.
proof fn lemma_solved_boxes_are_targets(bv: BoardView, c: Cfg)
    requires
        bv.wf(),
        c.boxes.finite(),
        c.boxes.len() == bv.targets.len(),
        cfg_solved(bv, c),
    ensures
        c.boxes == bv.targets.to_set(),
{
    let tset = bv.targets.to_set();
    assert(bv.targets.no_duplicates());
    bv.targets.unique_seq_to_set();
    assert(tset.len() == bv.targets.len());
    assert forall|t: usize| tset.contains(t) implies c.boxes.contains(t) by {
        let i = choose|i: int| 0 <= i < bv.targets.len() && bv.targets[i] == t;
        assert(c.boxes.contains(bv.targets[i]));
    }
    vstd::set_lib::lemma_subset_equality(tset, c.boxes);
}

/// A mutually pinned cluster is truly lost: while its crates stand, none
/// of them can be pushed except onto a dead cell, so a cluster crate off
/// every target forecloses covering them all. This is the rationale
/// behind the recursive axis test, as a theorem.
pub proof fn lemma_pinned_cluster_unsolvable(
    bv: BoardView,
    s: Set<usize>,
    x: usize,
    c: Cfg,
    m: Seq<Dir>,
)
    requires
        bv.wf(),
        bv.analysed(),
        cluster_pinned(bv, s),
        forall|y: usize| s.contains(y) ==> c.boxes.contains(y),
        s.contains(x),
        !bv.targets.contains(x),
        bv.in_bounds(x as int),
        cfg_playable(bv, c),
        c.boxes.len() == bv.targets.len(),
        play(bv, c, m) is Some,
    ensures
        !cfg_solved(bv, play(bv, c, m)->Some_0),
    decreases m.len(),
{
    if m.len() == 0 {
        if cfg_solved(bv, c) {
            lemma_solved_boxes_are_targets(bv, c);
            assert(c.boxes.contains(x));
            assert(bv.targets.to_set().contains(x));
            assert(bv.targets.contains(x));
        }
    } else {
        let d = m[0];
        let c2 = play1(bv, c, d)->Some_0;
        assert(play1(bv, c, d) is Some);
        lemma_play1_facts(bv, c, d, c2);
        assert(play(bv, c2, m.drop_first()) == play(bv, c, m));
        assert(!c2.boxes.contains(c2.player as usize)) by {
            let q = bv.step1(c.player, d)->Some_0;
            if c.boxes.contains(q as usize) {
                let r = bv.step1(q, d)->Some_0;
                bv.lemma_step1(q, d);
            }
        }
        let q = bv.step1(c.player, d)->Some_0;
        if c.boxes.contains(q as usize) && s.contains(q as usize) {
            let r = bv.step1(q, d)->Some_0;
            bv.lemma_step1(c.player, d);
            bv.lemma_step1(q, d);
            assert(bv.step1(q, flip(d)) == Some(c.player));
            let dn: Dir = match d {
                Dir::North | Dir::South => Dir::North,
                Dir::East | Dir::West => Dir::East,
            };
            assert(pinned_on_axis(bv, s, q as usize, dn));
            let a_opt = bv.step1(q, dn);
            let b_opt = bv.step1(q, flip(dn));
            assert((a_opt == Some(r) && b_opt == Some(c.player)) || (a_opt == Some(c.player)
                && b_opt == Some(r))) by {
                assert(flip(flip(d)) == d);
            }
            let a = a_opt->Some_0;
            let b = b_opt->Some_0;
            assert(!bv.grid[a].spec_is_wall() && !bv.grid[b].spec_is_wall()) by {
                assert(bv.grid[r].spec_is_space());
                assert(bv.grid[c.player].spec_is_space());
            }
            assert(!s.contains(a as usize) && !s.contains(b as usize)) by {
                if s.contains(r as usize) {
                    assert(c.boxes.contains(r as usize));
                }
                if s.contains(c.player as usize) {
                    assert(c.boxes.contains(c.player as usize));
                }
            }
            assert(!bv.grid[a].spec_is_valid() && !bv.grid[b].spec_is_valid());
            assert(!bv.grid[r].spec_is_valid());
            assert(c2.boxes.contains(r as usize)) by {
                assert(c2.boxes == c.boxes.remove(q as usize).insert(r as usize));
            }
            lemma_dead_cell_unsolvable(bv, c2, m.drop_first(), r as usize);
        } else {
            assert forall|y: usize| s.contains(y) implies c2.boxes.contains(y) by {
                if c.boxes.contains(q as usize) {
                    let r = bv.step1(q, d)->Some_0;
                    assert(y != q as usize);
                    assert(c2.boxes == c.boxes.remove(q as usize).insert(r as usize));
                    assert(c.boxes.contains(y));
                    assert(y != r as usize) by {
                        if y == r as usize {
                            assert(c.boxes.contains(r as usize));
                        }
                    }
                }
            }
            lemma_pinned_cluster_unsolvable(bv, s, x, c2, m.drop_first());
        }
    }
}


/// Mutual blocks, end to end: a crate of a pinned cluster resting off
/// every target is flagged by the detector's policy, and rightly so — no
/// sequence of moves can complete the puzzle from such a configuration.
pub proof fn lemma_cluster_verdict_sound(
    bv: BoardView,
    boxes: Seq<usize>,
    s: Set<usize>,
    last: usize,
    player: int,
    m: Seq<Dir>,
)
    requires
        bv.wf(),
        bv.analysed(),
        cluster_pinned(bv, s),
        forall|y: usize| s.contains(y) ==> boxes.contains(y),
        s.contains(last),
        !bv.targets.contains(last),
        bv.in_bounds(last as int),
        boxes.to_set().len() == bv.targets.len(),
        bv.in_bounds(player),
        bv.grid[player].spec_is_space(),
        !boxes.contains(player as usize),
        play(bv, Cfg { boxes: boxes.to_set(), player }, m) is Some,
    ensures
        spec_deadlocked(bv, boxes, last),
        !cfg_solved(bv, play(bv, Cfg { boxes: boxes.to_set(), player }, m)->Some_0),
{
    lemma_cluster_flagged(bv, boxes, s, last);
    let c = Cfg { boxes: boxes.to_set(), player };
    assert forall|y: usize| s.contains(y) implies c.boxes.contains(y) by {
        assert(boxes.contains(y));
    }
    assert(!c.boxes.contains(c.player as usize)) by {
        if c.boxes.contains(c.player as usize) {
            assert(boxes.contains(player as usize));
        }
    }
    lemma_pinned_cluster_unsolvable(bv, s, last, c, m);
}

/// The agent's exact cell within its reachable region is immaterial:
/// whatever a play achieves from one cell can be achieved from any cell
/// that reaches it, by walking over first. This is what makes collapsing
/// states to a canonical agent position sound.
pub proof fn lemma_agent_position_immaterial(
    bv: BoardView,
    boxes: Seq<usize>,
    a1: int,
    a2: int,
    m: Seq<Dir>,
)
    requires
        reach(bv, boxes, a2, a1),
        play(bv, Cfg { boxes: boxes.to_set(), player: a1 }, m) is Some,
    ensures
        exists|m2: Seq<Dir>|
            #[trigger] play(bv, Cfg { boxes: boxes.to_set(), player: a2 }, m2) == play(
                bv,
                Cfg { boxes: boxes.to_set(), player: a1 },
                m,
            ),
{
    let w = choose|w: Seq<Dir>| walk(bv, boxes, a2, w) == Some(a1);
    lemma_walk_plays(bv, boxes, a2, w, a1);
    let cfg2 = Cfg { boxes: boxes.to_set(), player: a2 };
    let cfg1 = Cfg { boxes: boxes.to_set(), player: a1 };
    lemma_play_append(bv, cfg2, w, m);
    assert(play(bv, cfg2, w + m) == play(bv, cfg1, m));
}

/// The dead-cell verdict is sound: when a crate stands on a cell the pull
/// analysis left invalid, and there are exactly as many crates as targets,
/// no sequence of moves can cover every target. A crate covering a target
/// at the end could have been pulled back along its pushes to the dead
/// cell, which would have made that cell valid.
pub proof fn lemma_dead_cell_unsolvable(bv: BoardView, c: Cfg, m: Seq<Dir>, x: usize)
    requires
        bv.wf(),
        bv.analysed(),
        cfg_ok(bv, c),
        c.boxes.len() == bv.targets.len(),
        c.boxes.contains(x),
        bv.in_bounds(x as int),
        !bv.grid[x as int].spec_is_valid(),
        play(bv, c, m) is Some,
    ensures
        !cfg_solved(bv, play(bv, c, m)->Some_0),
{
    let c2 = play(bv, c, m)->Some_0;
    if cfg_solved(bv, c2) {
        lemma_play_preserves(bv, c, m);
        let tset = bv.targets.to_set();
        assert(bv.targets.no_duplicates());
        bv.targets.unique_seq_to_set();
        assert(tset.len() == bv.targets.len());
        assert forall|t: usize| tset.contains(t) implies c2.boxes.contains(t) by {
            let i = choose|i: int| 0 <= i < bv.targets.len() && bv.targets[i] == t;
            assert(c2.boxes.contains(bv.targets[i]));
        }
        vstd::set_lib::lemma_subset_equality(tset, c2.boxes);
        lemma_play_boxes_pullable(bv, c, m, x);
        let y = choose|y: usize|
            (#[trigger] c2.boxes.contains(y)) && pull_reach(bv, y as int, x as int);
        assert(tset.contains(y));
        assert(bv.targets.contains(y));
        let i = choose|i: int| 0 <= i < bv.targets.len() && bv.targets[i] == y;
        assert(pull_reach(bv, bv.targets[i] as int, x as int));
        assert(valid_from_targets(bv, x as int));
        assert(bv.grid[x as int].spec_is_valid());
    }
}

/// Soundness of the detector's dead-cell branch: whenever it reports a
/// deadlock because the just-moved crate sits on a non-valid cell, the
/// position truly admits no completion. (The cluster branch of the policy
/// carries no such theorem here.)
pub proof fn lemma_detector_dead_verdict_sound(
    bv: BoardView,
    boxes: Seq<usize>,
    last_moved: usize,
    player: int,
    m: Seq<Dir>,
)
    requires
        bv.wf(),
        bv.analysed(),
        spec_deadlocked(bv, boxes, last_moved),
        !bv.grid[last_moved as int].spec_is_valid(),
        boxes.contains(last_moved),
        bv.in_bounds(last_moved as int),
        boxes.to_set().len() == bv.targets.len(),
        bv.in_bounds(player),
        bv.grid[player].spec_is_space(),
        play(bv, Cfg { boxes: boxes.to_set(), player }, m) is Some,
    ensures
        !cfg_solved(bv, play(bv, Cfg { boxes: boxes.to_set(), player }, m)->Some_0),
{
    let c = Cfg { boxes: boxes.to_set(), player };
    assert(c.boxes.contains(last_moved)) by {
        assert(boxes.contains(last_moved));
    }
    lemma_dead_cell_unsolvable(bv, c, m, last_moved);
}

/// Walking one step further along the run shifts the step count by one.
proof fn lemma_step_shift(bv: BoardView, pos: int, dir: Dir, k: nat)
    requires
        bv.step1(pos, dir) is Some,
    ensures
        bv.step_n(bv.step1(pos, dir)->Some_0, dir, k) == bv.step_n(pos, dir, (k + 1) as nat),
{
}

} // verus!
