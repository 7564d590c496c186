//! The solver core: board terrain, reachability analyses, move generation,
//! deadlock detection and the breadth-first search driver.

pub mod board;
pub mod cells;
pub mod counting;
pub mod deadlock;
pub mod directions;
pub mod game;
pub mod puller;
pub mod puzzle;
pub mod reach;
pub mod solver;
pub mod squares;

use vstd::prelude::*;

use crate::question::Question;
use crate::question::QuestionCollection;
use crate::question::Square;
use self::board::BoardView;
use self::directions::Dir;
use self::game::Cfg;
use self::game::cfg_of;
use self::game::play;
use self::puzzle::Puzzle;
use self::solver::Solver;
use self::solver::pos_index;
use self::solver::state_closed;
use self::solver::visited_entry_ok;

verus! {

/// The result of a search: a move trace that solves the puzzle, or the
/// report that the search examined every state it does not prune without
/// finding one solved.
#[derive(Debug)]
pub enum SolveOutcome {
    Solved(Vec<Dir>),
    Unsolvable,
}

/// Every target of the parsed puzzle already carries a crate.
pub open spec fn start_solved(q: Question) -> bool {
    forall|i: int|
        0 <= i < q.targets@.len() ==> exists|j: int|
            0 <= j < q.boxes@.len() && #[trigger] q.targets@[i] == q.boxes@[j]
}

/// A puzzle fits the machine: its cell count stays below the address
/// space.
pub open spec fn fits(q: Question) -> bool {
    (q.width as int) * (q.height as int) < usize::MAX
}

/// The starting configuration of a parsed puzzle, over flattened cell
/// indices.
pub open spec fn question_cfg(q: Question) -> Cfg {
    Cfg {
        boxes: Set::new(
            |c: usize|
                exists|i: int|
                    0 <= i < q.boxes@.len() && c == pos_index(#[trigger] q.boxes@[i], q.width as int),
        ),
        player: pos_index(q.start, q.width as int),
    }
}

/// A board view agrees with the parsed puzzle on shape and terrain.
pub open spec fn board_matches(bv: BoardView, q: Question) -> bool {
    &&& bv.width == q.width
    &&& bv.grid.len() == (q.width as int) * (q.height as int)
    &&& forall|p: int|
        0 <= p < bv.grid.len() ==> ((#[trigger] bv.grid[p]).spec_is_space() <==> q.grid@[p / (
        q.width as int)]@[p % (q.width as int)] == Square::Space)
}

/// The board's target cells are exactly the parsed puzzle's targets,
/// flattened row-major.
pub open spec fn targets_match(bv: BoardView, q: Question) -> bool {
    forall|c: usize|
        #[trigger] bv.targets.contains(c) <==> exists|i: int|
            0 <= i < q.targets@.len() && c == pos_index(#[trigger] q.targets@[i], q.width as int)
}

/// A configuration in which every target of the parsed puzzle carries a
/// crate.
pub open spec fn covers_targets(c: Cfg, q: Question) -> bool {
    forall|i: int|
        0 <= i < q.targets@.len() ==> c.boxes.contains(
            pos_index(#[trigger] q.targets@[i], q.width as int) as usize,
        )
}

/// Solves one parsed puzzle by breadth-first search over pushes.
pub fn solve_puzzle(question: &Question) -> (r: SolveOutcome)
    requires
        question.wf(),
        fits(*question),
    ensures
        start_solved(*question) ==> r is Solved,
        r matches SolveOutcome::Solved(m) ==> exists|bv: BoardView, c: Cfg|
            #[trigger] board_matches(bv, *question) && bv.wf() && bv.analysed() && targets_match(
                bv,
                *question,
            ) && play(bv, question_cfg(*question), m@) == Some(c) && #[trigger] covers_targets(
                c,
                *question,
            ),
        r is Unsolvable ==> exists|bv: BoardView, s0: Puzzle, vis: Seq<Vec<usize>>|
            #[trigger] board_matches(bv, *question) && bv.wf() && bv.analysed() && targets_match(
                bv,
                *question,
            ) && s0.inv() && s0.board@ == bv && play(
                bv,
                question_cfg(*question),
                s0.moves@,
            ) == Some(game::cfg_of(s0)) && !s0.spec_solved() && #[trigger] state_closed(
                bv,
                vis,
                s0,
            ) && (forall|jv: int|
                0 <= jv < vis.len() ==> #[trigger] visited_entry_ok(
                    bv,
                    Seq::<Puzzle>::empty(),
                    vis,
                    jv,
                )),
{
    let mut solver = Solver::from(question);
    let ghost s0 = solver.puzzles@[0];
    let ghost v_before = solver.visited@;
    let ghost bv0 = solver.detector.board@;
    let ghost scfg = solver.start_cfg@;
    proof {
        assert(board_matches(bv0, *question));
        assert(bv0.wf() && bv0.analysed());
        assert(targets_match(bv0, *question));
        assert(scfg =~~= question_cfg(*question)) by {
            assert forall|c: usize| scfg.boxes.contains(c) implies question_cfg(
                *question,
            ).boxes.contains(c) by {
                let i = choose|i: int|
                    0 <= i < question.boxes@.len() && c == pos_index(
                        #[trigger] question.boxes@[i],
                        question.width as int,
                    );
                assert(c == pos_index(question.boxes@[i], question.width as int));
            }
            assert forall|c: usize| question_cfg(*question).boxes.contains(c) implies scfg.boxes.contains(
                c,
            ) by {
                let i = choose|i: int|
                    0 <= i < question.boxes@.len() && c == pos_index(
                        #[trigger] question.boxes@[i],
                        question.width as int,
                    );
                assert(c == pos_index(question.boxes@[i], question.width as int));
            }
            assert(scfg.boxes =~= question_cfg(*question).boxes);
        }
    }
    proof {
        if start_solved(*question) {
            let p0 = solver.puzzles@[0];
            assert(p0.spec_solved()) by {
                assert forall|i: int| 0 <= i < p0.board@.targets.len() implies p0.boxes@.contains(
                    #[trigger] p0.board@.targets[i],
                ) by {
                    let c = p0.board@.targets[i];
                    assert(p0.board@.targets.contains(c));
                    assert(solver.detector.board@.targets.contains(c)) by {
                        assert(p0.board@ == solver.detector.board@);
                    }
                    let k = choose|k: int|
                        0 <= k < question.targets@.len() && c == pos_index(
                            #[trigger] question.targets@[k],
                            question.width as int,
                        );
                    let j = choose|j: int|
                        0 <= j < question.boxes@.len() && question.targets@[k] == #[trigger] question.boxes@[j];
                    assert(c == pos_index(question.boxes@[j], question.width as int));
                }
            }
        }
    }
    match solver.solve() {
        Some(p) => {
            let moves = p.moves().clone();
            proof {
                assert(moves@ =~= p.moves@);
                let c = cfg_of(p);
                assert(play(bv0, question_cfg(*question), moves@) == Some(c)) by {
                    assert(play(bv0, scfg, p.moves@) == Some(c));
                    assert(scfg == question_cfg(*question));
                }
                assert(covers_targets(c, *question)) by {
                    assert forall|i: int| 0 <= i < question.targets@.len() implies c.boxes.contains(
                        pos_index(#[trigger] question.targets@[i], question.width as int) as usize,
                    ) by {
                        let w = question.width as int;
                        let ti = pos_index(question.targets@[i], w);
                        lemma_target_in_range(*question, i);
                        let tu = ti as usize;
                        assert((tu as int) == ti);
                        assert(bv0.targets.contains(tu)) by {
                            assert(exists|k: int|
                                0 <= k < question.targets@.len() && tu == pos_index(
                                    #[trigger] question.targets@[k],
                                    w,
                                )) by {
                                assert(tu == pos_index(question.targets@[i], w));
                            }
                        }
                        assert(p.board@ == bv0);
                        let j = choose|j: int|
                            0 <= j < bv0.targets.len() && bv0.targets[j] == tu;
                        assert(p.boxes@.contains(p.board@.targets[j]));
                        assert(c.boxes.contains(tu));
                    }
                }
            }
            SolveOutcome::Solved(moves)
        },
        None => {
            proof {
                assert(solver.puzzles@.len() == 0);
                assert(s0.inv() && s0.board@ == bv0);
                assert(play(bv0, scfg, s0.moves@) == Some(game::cfg_of(s0)));
                assert(play(bv0, question_cfg(*question), s0.moves@) == Some(game::cfg_of(s0)));
                assert(!s0.spec_solved());
                assert(state_closed(bv0, solver.visited@, s0));
                assert(v_before.len() == 0);
                assert forall|jv: int| 0 <= jv < solver.visited@.len() implies #[trigger] visited_entry_ok(
                    bv0,
                    Seq::<Puzzle>::empty(),
                    solver.visited@,
                    jv,
                ) by {
                    assert(visited_entry_ok(bv0, solver.puzzles@, solver.visited@, jv));
                    if exists|j2: int|
                        0 <= j2 < solver.puzzles@.len()
                            && #[trigger] solver::encoding_of(solver.puzzles@[j2])
                            == solver.visited@[jv]@ {
                        assert(false);
                    }
                }
            }
            SolveOutcome::Unsolvable
        },
    }
}

/// A target coordinate flattens into the grid.
pub proof fn lemma_target_in_range(q: Question, i: int)
    requires
        q.wf(),
        0 <= i < q.targets@.len(),
    ensures
        0 <= pos_index(q.targets@[i], q.width as int) < (q.width as int) * (q.height as int),
{
    let t = q.targets@[i];
    assert((t.1 as int) * (q.width as int) + (t.0 as int) < (q.width as int) * (q.height as int))
        by (nonlinear_arith)
        requires
            0 <= (t.0 as int) < (q.width as int),
            0 <= (t.1 as int) <= (q.height as int) - 1,
            (q.width as int) >= 1,
    ;
    assert((t.1 as int) * (q.width as int) + (t.0 as int) >= 0) by (nonlinear_arith)
        requires
            (t.0 as int) >= 0,
            (t.1 as int) >= 0,
            (q.width as int) >= 1,
    ;
}

/// Solves every puzzle of a collection, in order.
pub fn solve_collection(questions: &QuestionCollection) -> (r: Vec<SolveOutcome>)
    requires
        forall|i: int|
            0 <= i < questions.questions@.len() ==> (#[trigger] questions.questions@[i]).wf()
                && fits(questions.questions@[i]),
    ensures
        r@.len() == questions.questions@.len(),
        forall|i: int|
            0 <= i < r@.len() && start_solved(#[trigger] questions.questions@[i]) ==> r@[i]
                is Solved,
        forall|i: int|
            0 <= i < r@.len() && (#[trigger] r@[i]) is Solved ==> exists|bv: BoardView, c: Cfg|
                #[trigger] board_matches(bv, questions.questions@[i]) && bv.wf() && bv.analysed()
                    && targets_match(bv, questions.questions@[i]) && play(
                    bv,
                    question_cfg(questions.questions@[i]),
                    (r@[i]->Solved_0)@,
                ) == Some(c) && #[trigger] covers_targets(c, questions.questions@[i]),
        forall|i: int|
            0 <= i < r@.len() && (#[trigger] r@[i]) is Unsolvable ==> exists|
                bv: BoardView,
                s0: Puzzle,
                vis: Seq<Vec<usize>>,
            |
                #[trigger] board_matches(bv, questions.questions@[i]) && bv.wf() && bv.analysed()
                    && targets_match(bv, questions.questions@[i]) && s0.inv() && s0.board@ == bv
                    && play(bv, question_cfg(questions.questions@[i]), s0.moves@) == Some(
                    game::cfg_of(s0),
                ) && !s0.spec_solved() && #[trigger] state_closed(bv, vis, s0) && (forall|jv: int|
                    0 <= jv < vis.len() ==> #[trigger] visited_entry_ok(
                        bv,
                        Seq::<Puzzle>::empty(),
                        vis,
                        jv,
                    )),
{
    let n = questions.len();
    let mut r: Vec<SolveOutcome> = Vec::new();
    let mut i: usize = 0;
    while i < n
        invariant
            n == questions.questions@.len(),
            forall|k: int|
                0 <= k < n ==> (#[trigger] questions.questions@[k]).wf() && fits(
                    questions.questions@[k],
                ),
            i <= n,
            r@.len() == i,
            forall|k: int|
                0 <= k < i && start_solved(#[trigger] questions.questions@[k]) ==> r@[k]
                    is Solved,
            forall|k: int|
                0 <= k < i && (#[trigger] r@[k]) is Solved ==> exists|bv: BoardView, c: Cfg|
                    #[trigger] board_matches(bv, questions.questions@[k]) && bv.wf()
                        && bv.analysed() && targets_match(bv, questions.questions@[k]) && play(
                        bv,
                        question_cfg(questions.questions@[k]),
                        (r@[k]->Solved_0)@,
                    ) == Some(c) && #[trigger] covers_targets(c, questions.questions@[k]),
            forall|k: int|
                0 <= k < i && (#[trigger] r@[k]) is Unsolvable ==> exists|
                    bv: BoardView,
                    s0: Puzzle,
                    vis: Seq<Vec<usize>>,
                |
                    #[trigger] board_matches(bv, questions.questions@[k]) && bv.wf()
                        && bv.analysed() && targets_match(bv, questions.questions@[k]) && s0.inv()
                        && s0.board@ == bv && play(
                        bv,
                        question_cfg(questions.questions@[k]),
                        s0.moves@,
                    ) == Some(game::cfg_of(s0)) && !s0.spec_solved() && #[trigger] state_closed(
                        bv,
                        vis,
                        s0,
                    ) && (forall|jv: int|
                        0 <= jv < vis.len() ==> #[trigger] visited_entry_ok(
                            bv,
                            Seq::<Puzzle>::empty(),
                            vis,
                            jv,
                        )),
        decreases n - i,
    {
        let outcome = solve_puzzle(&questions.iter()[i]);
        r.push(outcome);
        i = i + 1;
    }
    r
}

} // verus!
