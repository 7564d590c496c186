//! End-to-end solver tests: the scenarios run the full pipeline and replay
//! the returned traces against plain game rules.

use sokoban::question::{Question, Square};
use sokoban::solve::directions::Dir;
use sokoban::solve::{solve_collection, solve_puzzle, SolveOutcome};
use std::collections::BTreeSet;

struct Replay {
    width: usize,
    walls: Vec<bool>,
    targets: BTreeSet<usize>,
    boxes: BTreeSet<usize>,
    agent: usize,
    pushes: Vec<Dir>,
}

/// A plain re-implementation of the game rules, used only to check traces.
fn replay_start(q: &Question) -> Replay {
    let width = q.width();
    let mut walls = Vec::new();
    for row in q.rows() {
        for sq in row {
            walls.push(matches!(sq, Square::Wall));
        }
    }
    let targets = q.targets().iter().map(|p| p.to_usize(width)).collect();
    let boxes = q.boxes().iter().map(|p| p.to_usize(width)).collect();
    let agent = q.start().to_usize(width);
    Replay {
        width,
        walls,
        targets,
        boxes,
        agent,
        pushes: Vec::new(),
    }
}

fn step(r: &Replay, pos: usize, dir: Dir) -> Option<usize> {
    let w = r.width;
    let n = r.walls.len();
    match dir {
        Dir::North => pos.checked_sub(w),
        Dir::South => {
            if pos + w < n {
                Some(pos + w)
            } else {
                None
            }
        }
        Dir::East => {
            if (pos + 1) % w != 0 {
                Some(pos + 1)
            } else {
                None
            }
        }
        Dir::West => {
            if pos % w != 0 {
                Some(pos - 1)
            } else {
                None
            }
        }
    }
}

fn replay_moves(r: &mut Replay, moves: &[Dir]) {
    for &d in moves {
        let to = step(r, r.agent, d).expect("move left the grid");
        assert!(!r.walls[to], "agent walked into a wall");
        if r.boxes.contains(&to) {
            let beyond = step(r, to, d).expect("push left the grid");
            assert!(!r.walls[beyond], "crate pushed into a wall");
            assert!(!r.boxes.contains(&beyond), "crate pushed into a crate");
            r.boxes.remove(&to);
            r.boxes.insert(beyond);
            r.pushes.push(d);
        }
        r.agent = to;
    }
}

fn solved(r: &Replay) -> bool {
    r.targets.iter().all(|t| r.boxes.contains(t))
}

fn expect_solved(text: &str) -> (Replay, Vec<Dir>) {
    let q = Question::from_str(text).expect("puzzle must parse");
    match solve_puzzle(&q) {
        SolveOutcome::Solved(moves) => {
            let mut r = replay_start(&q);
            replay_moves(&mut r, &moves);
            assert!(solved(&r), "returned trace does not solve the puzzle");
            (r, moves)
        }
        SolveOutcome::Unsolvable => panic!("expected a solution"),
    }
}

fn expect_unsolvable(text: &str) {
    let q = Question::from_str(text).expect("puzzle must parse");
    match solve_puzzle(&q) {
        SolveOutcome::Solved(_) => panic!("expected no solution"),
        SolveOutcome::Unsolvable => {}
    }
}

#[test]
fn trivial_single_push() {
    let (r, _moves) = expect_solved("#####\n#@$.#\n#####");
    assert_eq!(r.pushes, vec![Dir::East]);
}

#[test]
fn corner_dead_cell_is_unsolvable() {
    expect_unsolvable("#####\n#$ .#\n#  @#\n#####");
}

#[test]
fn two_crate_squeeze() {
    // The lower crate sits in a row whose facing row is all wall, so it can
    // never be pushed onto the target row: no completion exists.
    expect_unsolvable("#######\n#.@$ .#\n#  $  #\n#######");
    // A genuine squeeze with both crates deliverable.
    let (r, _moves) = expect_solved("#######\n#     #\n# .$@ #\n# .$  #\n#######");
    assert_eq!(r.pushes.len(), 2);
}

#[test]
fn pull_analysis_culls_dead_pockets() {
    let text = "######\n#@ $.#\n# ## #\n#.$  #\n######";
    let q = Question::from_str(text).expect("puzzle must parse");
    let solver = sokoban::solve::solver::Solver::from(&q);
    // The pocket corner behind the inner walls cannot return a crate to a
    // target, so the analysis leaves it invalid; the open cell before it
    // stays valid.
    assert!(solver.detector.board.square_at(21).is_valid());
    assert!(!solver.detector.board.square_at(22).is_valid());
    // The agent region is cut off from the pocket by the two crates, so
    // the puzzle itself has no completion; the pruned search reports that.
    expect_unsolvable(text);
    // The same pocket with an open approach is solved, and no crate is
    // ever parked on the dead corner.
    expect_solved("######\n#@ $.#\n#    #\n#.$  #\n######");
}

#[test]
fn mutual_block_is_unsolvable() {
    expect_unsolvable("#######\n#.$$ .#\n#     #\n#@    #\n#######");
}

#[test]
fn already_solved_puzzle_is_reported_solved() {
    let q = Question::from_str("#####\n#@* #\n#####").expect("puzzle must parse");
    match solve_puzzle(&q) {
        SolveOutcome::Solved(_) => {}
        SolveOutcome::Unsolvable => panic!("expected a solution"),
    }
}

#[test]
fn bfs_finds_minimal_push_count() {
    // The crate stands two cells from the only target: every solution
    // needs at least two pushes, and the search must not need more.
    let (r, _moves) = expect_solved("######\n#@$ .#\n######");
    assert_eq!(r.pushes.len(), 2);
}

#[test]
fn runs_are_deterministic() {
    let text = "#######\n#     #\n# .$@ #\n# .$  #\n#######";
    let q = Question::from_str(text).expect("puzzle must parse");
    let a = solve_puzzle(&q);
    let b = solve_puzzle(&q);
    match (a, b) {
        (SolveOutcome::Solved(ma), SolveOutcome::Solved(mb)) => assert_eq!(ma, mb),
        _ => panic!("expected two solved runs"),
    }
}

#[test]
fn detector_only_prunes_lost_positions() {
    // Deadlock soundness on a small board: the pruned search still finds
    // the solution wherever one exists, and rejects exactly the lost
    // corner puzzle.
    expect_solved("#####\n#@$.#\n#####");
    expect_unsolvable("#####\n#@$ #\n#  .#\n#####");
}

#[test]
fn collection_is_solved_in_order() {
    let text = "#####\n#@$.#\n#####\n\n#####\n#$@ #\n# . #\n#####";
    let c = sokoban::question::QuestionCollection::from_str(text).expect("collection must parse");
    let outcomes = solve_collection(&c);
    assert_eq!(outcomes.len(), 2);
    assert!(matches!(outcomes[0], SolveOutcome::Solved(_)));
    assert!(matches!(outcomes[1], SolveOutcome::Unsolvable));
}
