//! Tests for the terrain, geometry, reachability and deadlock components.

use sokoban::question::Question;
use sokoban::solve::board::Board;
use sokoban::solve::cells::CellSet;
use sokoban::solve::deadlock::Detector;
use sokoban::solve::directions::{Dir, DirHolder};
use sokoban::solve::puzzle::vec2d_to_string;
use sokoban::solve::solver::Solver;
use sokoban::solve::squares::Flags;

fn solver_for(text: &str) -> Solver {
    let q = match Question::from_str(text) {
        Ok(q) => q,
        Err(_) => panic!("expected the puzzle to parse"),
    };
    Solver::from(&q)
}

#[test]
fn directions_oppose_and_rotate() {
    assert_eq!(Dir::North.opposite(), Dir::South);
    assert_eq!(Dir::South.opposite(), Dir::North);
    assert_eq!(Dir::East.opposite(), Dir::West);
    assert_eq!(Dir::West.opposite(), Dir::East);
    assert_eq!(Dir::North.rotation(), Dir::East);
    assert_eq!(Dir::East.rotation(), Dir::South);
    assert_eq!(Dir::South.rotation(), Dir::West);
    assert_eq!(Dir::West.rotation(), Dir::North);
    assert_eq!(
        Dir::iter(),
        vec![Dir::North, Dir::East, Dir::South, Dir::West]
    );
}

#[test]
fn dir_holder_stores_per_direction() {
    let mut h = DirHolder::uniform(0usize);
    h.set(Dir::East, 3);
    h.set(Dir::South, 7);
    assert_eq!(h.get(Dir::North), 0);
    assert_eq!(h.get(Dir::East), 3);
    assert_eq!(h.get(Dir::South), 7);
    assert_eq!(
        h.iter(),
        vec![
            (Dir::North, 0),
            (Dir::East, 3),
            (Dir::South, 7),
            (Dir::West, 0)
        ]
    );
}

#[test]
fn flags_classify_cells() {
    assert!(Flags::Wall.is_wall());
    assert!(!Flags::Wall.is_space());
    assert!(!Flags::Wall.is_valid());
    assert!(Flags::Space.is_space());
    assert!(!Flags::Space.is_valid());
    assert!(Flags::Valid.is_space());
    assert!(Flags::Valid.is_valid());
    assert_eq!(Flags::Wall.as_str(), "#");
    assert_eq!(Flags::Space.as_str(), " ");
}

#[test]
fn cell_set_keeps_sorted_distinct_cells() {
    let mut s = CellSet::empty();
    s.insert(9);
    s.insert(4);
    s.insert(9);
    s.insert(7);
    assert_eq!(s.len(), 3);
    assert_eq!(s.get(0), 4);
    assert_eq!(s.get(1), 7);
    assert_eq!(s.get(2), 9);
    assert!(s.contains(7));
    assert!(!s.contains(5));
    assert_eq!(s.min(), 4);
    s.remove(7);
    assert_eq!(s.len(), 2);
    assert!(!s.contains(7));
    s.remove(100);
    assert_eq!(s.len(), 2);
}

fn corridor_board() -> Board {
    // #####
    // #.$@#
    // #####
    let mut grid = Vec::new();
    for p in 0..15usize {
        let wall = p < 5 || p >= 10 || p == 5 || p == 9;
        grid.push(if wall { Flags::Wall } else { Flags::Space });
    }
    let mut targets = CellSet::empty();
    targets.insert(6);
    Board::new(5, 3, grid, targets)
}

#[test]
fn geometry_steps_between_cells() {
    let b = corridor_board();
    assert_eq!(b.north(7), Some(2));
    assert_eq!(b.south(7), Some(12));
    assert_eq!(b.east(7), Some(8));
    assert_eq!(b.west(7), Some(6));
    assert_eq!(b.north(2), None);
    assert_eq!(b.south(12), None);
    assert_eq!(b.east(4), None);
    assert_eq!(b.west(5), None);
    assert_eq!(b.step(6, Dir::East, 2), Some(8));
    assert_eq!(b.step(6, Dir::East, 9), None);
    assert_eq!(b.borders(7), vec![2, 8, 12, 6]);
}

#[test]
fn pull_analysis_marks_reachable_cells_only() {
    // A crate on the cell next to the right wall can never be pushed back
    // to the target, so only the target and its neighbour are valid.
    let b = corridor_board();
    assert!(b.square_at(6).is_valid());
    assert!(b.square_at(7).is_valid());
    assert!(!b.square_at(8).is_valid());
    assert!(b.square_at(8).is_space());
    assert!(!b.square_at(0).is_valid());
}

#[test]
fn board_renders_with_overlays() {
    let b = corridor_board();
    let mut boxes = CellSet::empty();
    boxes.insert(7);
    let grid = b.to_2d_grid_str(8, &boxes);
    let s = vec2d_to_string(grid);
    assert_eq!(s, "#####\n#.$@#\n#####");
}

#[test]
fn detector_exempts_targets_and_flags_dead_cells() {
    let b = corridor_board();
    let d = Detector::new(&b);
    let mut boxes = CellSet::empty();
    boxes.insert(6);
    // A crate resting on the target is never deadlocked.
    assert!(!d.is_deadlocked(7, &boxes, 6));
    // A crate on the dead cell next to the wall is.
    let mut boxes2 = CellSet::empty();
    boxes2.insert(8);
    assert!(d.is_deadlocked(7, &boxes2, 8));
}

#[test]
fn detector_sees_mutual_block() {
    // Two crates side by side under the top wall: each is individually on
    // a valid cell (it could be pushed along the wall to a target), but
    // together they jam each other.
    let text = "#######\n#.$$ .#\n#     #\n#@    #\n#######";
    let q = Question::from_str(text).unwrap();
    let solver = Solver::from(&q);
    let boxes = &solver.puzzles[0].boxes;
    let board = &solver.detector.board;
    assert!(board.square_at(9).is_valid());
    assert!(board.square_at(10).is_valid());
    assert!(solver.detector.is_deadlocked(15, boxes, 9));
    assert!(solver.detector.is_deadlocked(15, boxes, 10));
}

#[test]
fn canonicalisation_moves_agent_to_top_left() {
    // The agent starts in the middle of an open room; building the solver
    // canonicalises the state, so the agent sits on the smallest reachable
    // cell.
    let solver = solver_for("#####\n#   #\n# @ #\n#  .#\n#$  #\n#####");
    let p = &solver.puzzles[0];
    let min_reachable = p
        .movable_positions
        .iter()
        .position(|&m| m)
        .expect("someone must be reachable");
    assert_eq!(p.player_pos, min_reachable);
}

#[test]
fn canonicalisation_is_idempotent() {
    let solver = solver_for("#####\n#   #\n# @ #\n#  .#\n#$  #\n#####");
    let mut p = solver.puzzles.into_iter().next().unwrap();
    let before = p.player_pos;
    let before_moves = p.moves().len();
    p.move_to_top_left();
    assert_eq!(p.player_pos, before);
    assert_eq!(p.moves().len(), before_moves);
}

#[test]
fn move_box_places_crate_and_agent() {
    // ######
    // #@$  #
    // ###..#  (geometry only matters for the push)
    let solver = solver_for("######\n#@$ .#\n######");
    let mut p = solver.puzzles.into_iter().next().unwrap();
    // Crate at cell 8, agent canonicalised to cell 7; push east 2 cells.
    assert_eq!(p.player_pos, 7);
    assert!(p.boxes.contains(8));
    let new_pos = p.move_box(8, Dir::East, 2);
    assert_eq!(new_pos, 10);
    assert_eq!(p.player_pos, 9);
    assert!(p.boxes.contains(10));
    assert!(!p.boxes.contains(8));
    assert_eq!(p.boxes.len(), 1);
    assert!(p.is_solved());
}

#[test]
fn encoding_lists_sorted_crates_then_agent() {
    let solver = solver_for("#######\n#@$ $.#\n#.    #\n#######");
    let p = &solver.puzzles[0];
    let enc = p.get_encoding();
    assert_eq!(enc.len(), 3);
    assert!(enc[0] < enc[1]);
    assert_eq!(enc[2], p.player_pos);
}
