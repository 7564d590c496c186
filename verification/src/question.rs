//! Parsing textual puzzles.
//!
//! A puzzle is a grid of lines over the characters `#` (wall), space
//! (floor), `.` (target), `$` (crate), `*` (crate on target) and `@` (agent
//! start). Anything on a row before its first wall is out of the map and
//! counts as wall; short rows are padded to the longest row with walls. A
//! file may hold several puzzles separated by blank lines.

use vstd::prelude::*;
use vstd::string::StringExecFns;
use vstd::string::StringSliceAdditionalSpecFns;

verus! {

pub const WALL_CHAR: u8 = 35u8;

pub const SPACE_CHAR: u8 = 32u8;

pub const TARGET_CHAR: u8 = 46u8;

pub const BOX_CHAR: u8 = 36u8;

pub const PLACED_CHAR: u8 = 42u8;

pub const START_CHAR: u8 = 64u8;

/// Why a puzzle text was rejected.
#[derive(Debug)]
pub enum ParseError {
    Text(String),
}

impl ParseError {
    pub fn new(s: &str) -> (r: Self)
        ensures
            r matches ParseError::Text(t) && t@ == s@,
    {
        ParseError::Text(String::from_str(s))
    }
}

/// One grid cell as parsed.
#[derive(Clone, Copy, Debug, PartialEq, Eq, Structural)]
pub enum Square {
    Space,
    Wall,
}

/// An `(x, y)` cell coordinate.
#[derive(Debug, PartialEq, Eq, Hash, Clone, Copy, Structural)]
pub struct Position(pub usize, pub usize);

impl Position {
    /// Converts the position into a 1D `usize`. The output position depends
    /// on the `width`.
    pub fn to_usize(&self, width: usize) -> (r: usize)
        requires
            self.1 * width + self.0 <= usize::MAX,
        ensures
            r == self.1 * width + self.0,
    {
        self.1 * width + self.0
    }
}

/// The index of the first newline byte in `s`, or its length.
pub open spec fn first_nl(s: Seq<u8>) -> int
    decreases s.len(),
{
    if s.len() == 0 {
        0
    } else if s[0] == 10u8 {
        0
    } else {
        1 + first_nl(s.drop_first())
    }
}

/// `first_nl` is characterised by its first-occurrence property.
pub proof fn lemma_first_nl(s: Seq<u8>, i: int)
    requires
        0 <= i <= s.len(),
        forall|k: int| 0 <= k < i ==> s[k] != 10u8,
        i < s.len() ==> s[i] == 10u8,
    ensures
        first_nl(s) == i,
    decreases s.len(),
{
    if s.len() == 0 {
    } else if s[0] == 10u8 {
        assert(i == 0);
    } else {
        assert(i >= 1);
        let t = s.drop_first();
        assert forall|k: int| 0 <= k < i - 1 implies t[k] != 10u8 by {
            assert(t[k] == s[k + 1]);
        }
        lemma_first_nl(t, i - 1);
    }
}

/// A line with any trailing carriage return removed.
pub open spec fn strip_cr(l: Seq<u8>) -> Seq<u8> {
    if l.len() > 0 && l.last() == 13u8 {
        l.drop_last()
    } else {
        l
    }
}

/// The lines of `s`: split at newlines, each stripped of a trailing
/// carriage return, with no empty line after a trailing newline.
pub open spec fn lines_spec(s: Seq<u8>) -> Seq<Seq<u8>>
    decreases s.len(),
{
    if s.len() == 0 {
        Seq::empty()
    } else {
        let i = first_nl(s);
        if 0 <= i < s.len() {
            seq![strip_cr(s.subrange(0, i))] + lines_spec(s.subrange(i + 1, s.len() as int))
        } else {
            seq![strip_cr(s)]
        }
    }
}

/// Splits `s` into lines, like `str::lines`.
pub fn split_lines(s: &[u8]) -> (r: Vec<Vec<u8>>)
    ensures
        r@.map_values(|l: Vec<u8>| l@) == lines_spec(s@),
{
    let n = s.len();
    let mut r: Vec<Vec<u8>> = Vec::new();
    let mut pos: usize = 0;
    proof {
        assert(s@.subrange(0, n as int) =~= s@);
        assert(r@.map_values(|l: Vec<u8>| l@) =~= Seq::<Seq<u8>>::empty());
    }
    while pos < n
        invariant
            n == s@.len(),
            pos <= n,
            r@.map_values(|l: Vec<u8>| l@) + lines_spec(s@.subrange(pos as int, n as int))
                =~= lines_spec(s@),
        decreases n - pos,
    {
        let ghost rest = s@.subrange(pos as int, n as int);
        let mut j = pos;
        while j < n && s[j] != 10u8
            invariant
                n == s@.len(),
                pos <= j <= n,
                forall|k: int| pos <= k < j ==> s@[k] != 10u8,
            decreases n - j,
        {
            j = j + 1;
        }
        proof {
            assert forall|k: int| 0 <= k < j - pos implies rest[k] != 10u8 by {
                assert(rest[k] == s@[pos + k]);
            }
            if (j as int) < n {
                assert(rest[j - pos] == s@[j as int]);
            }
            lemma_first_nl(rest, j - pos);
        }
        let mut end = j;
        if end > pos && s[end - 1] == 13u8 {
            end = end - 1;
        }
        let mut line: Vec<u8> = Vec::new();
        let mut k = pos;
        while k < end
            invariant
                pos <= k <= end,
                end <= n,
                n == s@.len(),
                line@ =~= s@.subrange(pos as int, k as int),
            decreases end - k,
        {
            line.push(s[k]);
            k = k + 1;
        }
        proof {
            assert(line@ =~= s@.subrange(pos as int, end as int));
            let cut = rest.subrange(0, j - pos);
            assert(cut =~= s@.subrange(pos as int, j as int));
            if j == n {
                assert(cut =~= rest);
                assert(strip_cr(rest) =~= line@);
            } else {
                assert(strip_cr(cut) =~= line@);
                assert(rest.subrange(j - pos + 1, rest.len() as int) =~= s@.subrange(
                    j + 1,
                    n as int,
                ));
            }
        }
        let ghost r_before = r@;
        r.push(line);
        proof {
            assert(r@.map_values(|l: Vec<u8>| l@) =~= r_before.map_values(|l: Vec<u8>| l@).push(
                line@,
            ));
            if j == n {
                assert(lines_spec(rest) =~= seq![line@]);
                assert(r@.map_values(|l: Vec<u8>| l@) + lines_spec(
                    s@.subrange(n as int, n as int),
                ) =~= lines_spec(s@)) by {
                    assert(lines_spec(s@.subrange(n as int, n as int)) =~= Seq::<Seq<u8>>::empty());
                    assert(r_before.map_values(|l: Vec<u8>| l@) + lines_spec(rest) =~= lines_spec(
                        s@,
                    ));
                }
            } else {
                assert(lines_spec(rest) =~= seq![line@] + lines_spec(
                    s@.subrange(j + 1, n as int),
                ));
                assert(r@.map_values(|l: Vec<u8>| l@) + lines_spec(s@.subrange(j + 1, n as int))
                    =~= lines_spec(s@)) by {
                    assert(r_before.map_values(|l: Vec<u8>| l@) + lines_spec(rest) =~= lines_spec(
                        s@,
                    ));
                }
            }
        }
        if j == n {
            pos = n;
        } else {
            pos = j + 1;
        }
    }
    proof {
        assert(lines_spec(s@.subrange(pos as int, n as int)) =~= Seq::<Seq<u8>>::empty());
        assert(r@.map_values(|l: Vec<u8>| l@) =~= lines_spec(s@));
    }
    r
}

/// The length of the longest line.
pub open spec fn max_row_len(lines: Seq<Seq<u8>>) -> int
    decreases lines.len(),
{
    if lines.len() == 0 {
        0
    } else {
        let rest = max_row_len(lines.drop_first());
        if lines[0].len() >= rest {
            lines[0].len() as int
        } else {
            rest
        }
    }
}

pub proof fn lemma_max_row_len(lines: Seq<Seq<u8>>)
    ensures
        forall|y: int| 0 <= y < lines.len() ==> (#[trigger] lines[y]).len() <= max_row_len(lines),
        max_row_len(lines) >= 0,
        lines.len() > 0 ==> exists|y: int|
            0 <= y < lines.len() && (#[trigger] lines[y]).len() == max_row_len(lines),
    decreases lines.len(),
{
    if lines.len() > 0 {
        let rest = lines.drop_first();
        lemma_max_row_len(rest);
        assert forall|y: int| 0 <= y < lines.len() implies (#[trigger] lines[y]).len()
            <= max_row_len(lines) by {
            if y > 0 {
                assert(lines[y] == rest[y - 1]);
            }
        }
        if lines.len() > 1 && lines[0].len() < max_row_len(rest) {
            let y = choose|y: int|
                0 <= y < rest.len() && (#[trigger] rest[y]).len() == max_row_len(rest);
            assert(lines[y + 1].len() == max_row_len(lines));
        }
    }
}

/// Whether `b` is one of the six puzzle characters.
pub open spec fn good_char(b: u8) -> bool {
    b == WALL_CHAR || b == SPACE_CHAR || b == TARGET_CHAR || b == BOX_CHAR || b == PLACED_CHAR
        || b == START_CHAR
}

/// Some line holds a character outside the puzzle alphabet.
pub open spec fn has_bad_char(lines: Seq<Seq<u8>>) -> bool {
    exists|y: int, x: int|
        0 <= y < lines.len() && 0 <= x < lines[y].len() && !good_char(#[trigger] lines[y][x])
}

/// The cell `(x, y)` lies inside the map: some wall stands before it on
/// its row.
pub open spec fn inside_row(row: Seq<u8>, x: int) -> bool {
    exists|j: int| 0 <= j < x && row[j] == WALL_CHAR
}

/// The cell `(x, y)` of the parsed grid is a wall: padding, an explicit
/// wall, or out-of-map floor before the first wall of the row.
pub open spec fn spec_is_wall_at(lines: Seq<Seq<u8>>, x: int, y: int) -> bool {
    x >= lines[y].len() || lines[y][x] == WALL_CHAR || !inside_row(lines[y], x)
}

/// `(x, y)` holds a crate in the input text.
pub open spec fn spec_is_box(lines: Seq<Seq<u8>>, x: int, y: int) -> bool {
    &&& 0 <= y < lines.len()
    &&& 0 <= x < lines[y].len()
    &&& (lines[y][x] == BOX_CHAR || lines[y][x] == PLACED_CHAR)
    &&& inside_row(lines[y], x)
}

/// `(x, y)` holds a target in the input text.
pub open spec fn spec_is_target(lines: Seq<Seq<u8>>, x: int, y: int) -> bool {
    &&& 0 <= y < lines.len()
    &&& 0 <= x < lines[y].len()
    &&& (lines[y][x] == TARGET_CHAR || lines[y][x] == PLACED_CHAR)
    &&& inside_row(lines[y], x)
}

/// `(x, y)` holds the agent start in the input text.
pub open spec fn spec_is_start(lines: Seq<Seq<u8>>, x: int, y: int) -> bool {
    &&& 0 <= y < lines.len()
    &&& 0 <= x < lines[y].len()
    &&& lines[y][x] == START_CHAR
    &&& inside_row(lines[y], x)
}

/// The text names at least one agent start.
pub open spec fn has_start(lines: Seq<Seq<u8>>) -> bool {
    exists|y: int, x: int| #[trigger] spec_is_start(lines, x, y)
}

/// The text names two or more agent starts.
pub open spec fn multi_start(lines: Seq<Seq<u8>>) -> bool {
    exists|y1: int, x1: int, y2: int, x2: int|
        #[trigger] spec_is_start(lines, x1, y1) && #[trigger] spec_is_start(lines, x2, y2) && (x1
            != x2 || y1 != y2)
}

/// The text parses into a puzzle: non-empty, over the puzzle alphabet,
/// with exactly one agent start inside the map.
pub open spec fn parses(lines: Seq<Seq<u8>>) -> bool {
    &&& lines.len() > 0
    &&& !has_bad_char(lines)
    &&& has_start(lines)
    &&& !multi_start(lines)
}

/// A parsed puzzle: its grid, the crate and target coordinates and the
/// agent start.
#[derive(Debug)]
pub struct Question {
    pub width: usize,
    pub height: usize,
    pub grid: Vec<Vec<Square>>,
    pub boxes: Vec<Position>,
    pub targets: Vec<Position>,
    pub start: Position,
}

impl Question {
    /// What parsing guarantees: a rectangular grid whose crates, targets
    /// and start all lie on distinct-by-construction space cells.
    pub open spec fn wf(&self) -> bool {
        &&& self.height == self.grid@.len()
        &&& self.height >= 1
        &&& self.width >= 1
        &&& forall|y: int| 0 <= y < self.grid@.len() ==> (#[trigger] self.grid@[y])@.len() == self.width
        &&& forall|i: int|
            0 <= i < self.boxes@.len() ==> (#[trigger] self.boxes@[i]).0 < self.width
                && self.boxes@[i].1 < self.height && self.grid@[self.boxes@[i].1 as int]@[
                self.boxes@[i].0 as int
            ] == Square::Space
        &&& self.boxes@.no_duplicates()
        &&& forall|i: int|
            0 <= i < self.targets@.len() ==> (#[trigger] self.targets@[i]).0 < self.width
                && self.targets@[i].1 < self.height && self.grid@[self.targets@[i].1 as int]@[
                self.targets@[i].0 as int
            ] == Square::Space
        &&& self.targets@.no_duplicates()
        &&& self.start.0 < self.width
        &&& self.start.1 < self.height
        &&& self.grid@[self.start.1 as int]@[self.start.0 as int] == Square::Space
        &&& forall|i: int| 0 <= i < self.boxes@.len() ==> #[trigger] self.boxes@[i] != self.start
    }

    pub fn rows(&self) -> (r: &Vec<Vec<Square>>)
        ensures
            r == &self.grid,
    {
        &self.grid
    }

    pub fn width(&self) -> (r: usize)
        ensures
            r == self.width,
    {
        self.width
    }

    pub fn height(&self) -> (r: usize)
        ensures
            r == self.height,
    {
        self.height
    }

    pub fn boxes(&self) -> (r: &Vec<Position>)
        ensures
            r == &self.boxes,
    {
        &self.boxes
    }

    pub fn targets(&self) -> (r: &Vec<Position>)
        ensures
            r == &self.targets,
    {
        &self.targets
    }

    pub fn start(&self) -> (r: Position)
        ensures
            r == self.start,
    {
        self.start
    }
}


/// Pushing a fresh element keeps a sequence duplicate-free.
pub proof fn lemma_push_unique<A>(s: Seq<A>, e: A)
    requires
        s.no_duplicates(),
        !s.contains(e),
    ensures
        s.push(e).no_duplicates(),
        forall|y: A| s.push(e).contains(y) <==> (s.contains(y) || y == e),
{
    let t = s.push(e);
    assert forall|i: int, j: int| 0 <= i < j < t.len() implies t[i] != t[j] by {
        if j < s.len() {
        } else {
            if t[i] == e {
                assert(s[i] == e);
                assert(s.contains(e));
            }
        }
    }
    assert forall|y: A| t.contains(y) implies (s.contains(y) || y == e) by {
        let k = choose|k: int| 0 <= k < t.len() && t[k] == y;
        if k < s.len() {
            assert(s[k] == y);
        }
    }
    assert forall|y: A| (s.contains(y) || y == e) implies t.contains(y) by {
        if y == e {
            assert(t[s.len() as int] == e);
        } else {
            let k = choose|k: int| 0 <= k < s.len() && s[k] == y;
            assert(t[k] == y);
        }
    }
}

/// `(a, b)` was scanned before column `x` of row `y` in a row-major scan.
pub open spec fn lex_before(a: int, b: int, x: int, y: int) -> bool {
    b < y || (b == y && a < x)
}

/// The collected positions are exactly those satisfying `pred` among the
/// cells already scanned, without duplicates.
pub open spec fn coll_ok(
    v: Seq<Position>,
    ls: Seq<Seq<u8>>,
    pred: spec_fn(Seq<Seq<u8>>, int, int) -> bool,
    x: int,
    y: int,
) -> bool {
    &&& v.no_duplicates()
    &&& forall|a: usize, b: usize|
        #[trigger] v.contains(Position(a, b)) <==> (pred(ls, a as int, b as int) && lex_before(
            a as int,
            b as int,
            x,
            y,
        ))
}

impl Question {
    /// Parses one puzzle from its lines: classifies every cell, collects
    /// crates, targets and the unique agent start, and pads the rows.
    pub fn parse_lines(lines: &Vec<Vec<u8>>) -> (r: Result<Question, ParseError>)
        ensures
            r is Ok <==> parses(lines@.map_values(|l: Vec<u8>| l@)),
            r matches Ok(q) ==> ({
                let ls = lines@.map_values(|l: Vec<u8>| l@);
                &&& q.wf()
                &&& q.height == ls.len()
                &&& q.width == max_row_len(ls)
                &&& q.grid@.len() == ls.len()
                &&& forall|y: int|
                    0 <= y < ls.len() ==> (#[trigger] q.grid@[y])@.len() == q.width
                &&& forall|y: int, x: int|
                    0 <= y < ls.len() && 0 <= x < q.width ==> (#[trigger] q.grid@[y]@[x]) == (
                    if spec_is_wall_at(ls, x, y) {
                        Square::Wall
                    } else {
                        Square::Space
                    })
                &&& forall|a: usize, b: usize|
                    #[trigger] q.boxes@.contains(Position(a, b)) <==> spec_is_box(
                        ls,
                        a as int,
                        b as int,
                    )
                &&& forall|a: usize, b: usize|
                    #[trigger] q.targets@.contains(Position(a, b)) <==> spec_is_target(
                        ls,
                        a as int,
                        b as int,
                    )
                &&& spec_is_start(ls, q.start.0 as int, q.start.1 as int)
            }),
    {
        let ghost ls = lines@.map_values(|l: Vec<u8>| l@);
        let h = lines.len();
        if h == 0 {
            return Err(ParseError::new("Puzzle was empty"));
        }
        proof {
            lemma_max_row_len(ls);
        }
        let mut width: usize = 0;
        let mut wy: usize = 0;
        while wy < h
            invariant
                h == ls.len(),
                wy <= h,
                ls == lines@.map_values(|l: Vec<u8>| l@),
                forall|y2: int| 0 <= y2 < wy ==> (#[trigger] ls[y2]).len() <= width,
                wy > 0 ==> exists|y2: int| 0 <= y2 < wy && (#[trigger] ls[y2]).len() == width,
                wy == 0 ==> width == 0,
            decreases h - wy,
        {
            let rl = lines[wy].len();
            if rl > width {
                width = rl;
            }
            proof {
                assert(exists|y2: int| 0 <= y2 < wy + 1 && (#[trigger] ls[y2]).len() == width) by {
                    if ls[wy as int].len() == width {
                        assert(0 <= (wy as int) && (wy as int) < wy + 1);
                    } else {
                        assert(wy > 0);
                        let yo = choose|y2: int| 0 <= y2 < wy && (#[trigger] ls[y2]).len() == width;
                        assert(ls[yo].len() == width);
                    }
                }
            }
            wy = wy + 1;
        }
        proof {
            assert forall|y2: int| 0 <= y2 < h implies (#[trigger] ls[y2]).len() <= max_row_len(
                ls,
            ) by {}
            let ym = choose|y2: int| 0 <= y2 < h && (#[trigger] ls[y2]).len() == width;
            assert(width <= max_row_len(ls));
            let yw = choose|y2: int|
                0 <= y2 < ls.len() && (#[trigger] ls[y2]).len() == max_row_len(ls);
            assert(max_row_len(ls) <= width);
        }
        let ghost is_box_pred = |l2: Seq<Seq<u8>>, a: int, b: int| spec_is_box(l2, a, b);
        let ghost is_tgt_pred = |l2: Seq<Seq<u8>>, a: int, b: int| spec_is_target(l2, a, b);
        let mut boxes: Vec<Position> = Vec::new();
        let mut targets: Vec<Position> = Vec::new();
        let mut start: Option<Position> = None;
        let mut grid: Vec<Vec<Square>> = Vec::new();
        let mut y: usize = 0;
        while y < h
            invariant
                h == ls.len(),
                h >= 1,
                y <= h,
                ls == lines@.map_values(|l: Vec<u8>| l@),
                width == max_row_len(ls),
                forall|y2: int| 0 <= y2 < h ==> (#[trigger] ls[y2]).len() <= width,
                grid@.len() == y,
                forall|y2: int| 0 <= y2 < y ==> (#[trigger] grid@[y2])@.len() == width,
                forall|y2: int, x2: int|
                    0 <= y2 < y && 0 <= x2 < width ==> (#[trigger] grid@[y2]@[x2]) == (
                if spec_is_wall_at(ls, x2, y2) {
                    Square::Wall
                } else {
                    Square::Space
                }),
                coll_ok(boxes@, ls, is_box_pred, 0, y as int),
                coll_ok(targets@, ls, is_tgt_pred, 0, y as int),
                is_box_pred == (|l2: Seq<Seq<u8>>, a: int, b: int| spec_is_box(l2, a, b)),
                is_tgt_pred == (|l2: Seq<Seq<u8>>, a: int, b: int| spec_is_target(l2, a, b)),
                forall|y2: int, x2: int|
                    0 <= y2 < y && 0 <= x2 < ls[y2].len() ==> good_char(#[trigger] ls[y2][x2]),
                start is None ==> forall|a: int, b: int|
                    lex_before(a, b, 0, y as int) ==> !spec_is_start(ls, a, b),
                start matches Some(p) ==> spec_is_start(ls, p.0 as int, p.1 as int) && lex_before(
                    p.0 as int,
                    p.1 as int,
                    0,
                    y as int,
                ) && (forall|a: int, b: int|
                    lex_before(a, b, 0, y as int) && spec_is_start(ls, a, b) ==> a == p.0 as int
                        && b == p.1 as int),
            decreases h - y,
        {
            let row = &lines[y];
            let rlen = row.len();
            proof {
                assert(row@ == ls[y as int]);
            }
            let mut reached = false;
            let mut row_sq: Vec<Square> = Vec::new();
            let mut x: usize = 0;
            while x < rlen
                invariant
                    h == ls.len(),
                    y < h,
                    ls == lines@.map_values(|l: Vec<u8>| l@),
                    width == max_row_len(ls),
                    row@ == ls[y as int],
                    rlen == ls[y as int].len(),
                    rlen <= width,
                    x <= rlen,
                    reached == inside_row(ls[y as int], x as int),
                    row_sq@.len() == x,
                    forall|x2: int|
                        0 <= x2 < x ==> (#[trigger] row_sq@[x2]) == (if spec_is_wall_at(
                            ls,
                            x2,
                            y as int,
                        ) {
                            Square::Wall
                        } else {
                            Square::Space
                        }),
                    coll_ok(boxes@, ls, is_box_pred, x as int, y as int),
                    coll_ok(targets@, ls, is_tgt_pred, x as int, y as int),
                    is_box_pred == (|l2: Seq<Seq<u8>>, a: int, b: int| spec_is_box(l2, a, b)),
                    is_tgt_pred == (|l2: Seq<Seq<u8>>, a: int, b: int| spec_is_target(l2, a, b)),
                    forall|y2: int, x2: int|
                        0 <= y2 < y && 0 <= x2 < ls[y2].len() ==> good_char(#[trigger] ls[y2][x2]),
                    forall|x2: int| 0 <= x2 < x ==> good_char(#[trigger] ls[y as int][x2]),
                    start is None ==> forall|a: int, b: int|
                        lex_before(a, b, x as int, y as int) ==> !spec_is_start(ls, a, b),
                    start matches Some(p) ==> spec_is_start(ls, p.0 as int, p.1 as int)
                        && lex_before(p.0 as int, p.1 as int, x as int, y as int) && (forall|
                        a: int,
                        b: int,
                    |
                        lex_before(a, b, x as int, y as int) && spec_is_start(ls, a, b) ==> a
                            == p.0 as int && b == p.1 as int),
                decreases rlen - x,
            {
                let c = row[x];
                let ghost bx0 = boxes@;
                let ghost tg0 = targets@;
                let ghost reached0 = reached;
                proof {
                    assert(ls[y as int][x as int] == c);
                }
                if c == WALL_CHAR {
                    reached = true;
                    row_sq.push(Square::Wall);
                } else if c == SPACE_CHAR || c == TARGET_CHAR || c == BOX_CHAR || c == START_CHAR
                    || c == PLACED_CHAR {
                    if !reached {
                        row_sq.push(Square::Wall);
                    } else {
                        let pos = Position(x, y);
                        if c == TARGET_CHAR {
                            proof {
                                assert(!targets@.contains(pos));
                                lemma_push_unique(targets@, pos);
                            }
                            targets.push(pos);
                        } else if c == BOX_CHAR {
                            proof {
                                assert(!boxes@.contains(pos));
                                lemma_push_unique(boxes@, pos);
                            }
                            boxes.push(pos);
                        } else if c == PLACED_CHAR {
                            proof {
                                assert(!targets@.contains(pos));
                                lemma_push_unique(targets@, pos);
                                assert(!boxes@.contains(pos));
                                lemma_push_unique(boxes@, pos);
                            }
                            targets.push(pos);
                            boxes.push(pos);
                        } else if c == START_CHAR {
                            match start {
                                Some(p) => {
                                    proof {
                                        assert(spec_is_start(ls, p.0 as int, p.1 as int));
                                        assert(ls[y as int][x as int] == START_CHAR);
                                        assert(spec_is_start(ls, x as int, y as int));
                                        assert(p.1 < y || (p.1 == y && p.0 < x));
                                        assert(multi_start(ls));
                                    }
                                    return Err(ParseError::new("multiple start positions"));
                                },
                                None => {
                                    start = Some(pos);
                                },
                            }
                        }
                        row_sq.push(Square::Space);
                    }
                } else {
                    proof {
                        assert(!good_char(c));
                        assert(ls[y as int][x as int] == c);
                        assert(has_bad_char(ls));
                    }
                    return Err(ParseError::new("invalid text in grid"));
                }
                proof {
                    assert forall|a: usize, b: usize|
                        #[trigger] boxes@.contains(Position(a, b)) implies (is_box_pred(
                        ls,
                        a as int,
                        b as int,
                    ) && lex_before(a as int, b as int, x as int + 1, y as int)) by {
                        if bx0.contains(Position(a, b)) {
                            assert(is_box_pred(ls, a as int, b as int) && lex_before(
                                a as int,
                                b as int,
                                x as int,
                                y as int,
                            ));
                        } else {
                            assert(Position(a, b) == Position(x, y));
                            assert(spec_is_box(ls, x as int, y as int));
                        }
                    }
                    assert forall|a: usize, b: usize|
                        (is_box_pred(ls, a as int, b as int) && lex_before(
                            a as int,
                            b as int,
                            x as int + 1,
                            y as int,
                        )) implies #[trigger] boxes@.contains(Position(a, b)) by {
                        if lex_before(a as int, b as int, x as int, y as int) {
                            assert(bx0.contains(Position(a, b)));
                        } else {
                            assert(a as int == x as int && b as int == y as int);
                            assert(spec_is_box(ls, x as int, y as int));
                            assert(reached0 == inside_row(ls[y as int], x as int));
                            assert(c == BOX_CHAR || c == PLACED_CHAR);
                            assert(boxes@.contains(Position(x, y)));
                        }
                    }
                    assert forall|a: usize, b: usize|
                        #[trigger] targets@.contains(Position(a, b)) implies (is_tgt_pred(
                        ls,
                        a as int,
                        b as int,
                    ) && lex_before(a as int, b as int, x as int + 1, y as int)) by {
                        if tg0.contains(Position(a, b)) {
                            assert(is_tgt_pred(ls, a as int, b as int) && lex_before(
                                a as int,
                                b as int,
                                x as int,
                                y as int,
                            ));
                        } else {
                            assert(Position(a, b) == Position(x, y));
                            assert(spec_is_target(ls, x as int, y as int));
                        }
                    }
                    assert forall|a: usize, b: usize|
                        (is_tgt_pred(ls, a as int, b as int) && lex_before(
                            a as int,
                            b as int,
                            x as int + 1,
                            y as int,
                        )) implies #[trigger] targets@.contains(Position(a, b)) by {
                        if lex_before(a as int, b as int, x as int, y as int) {
                            assert(tg0.contains(Position(a, b)));
                        } else {
                            assert(a as int == x as int && b as int == y as int);
                            assert(spec_is_target(ls, x as int, y as int));
                            assert(reached0 == inside_row(ls[y as int], x as int));
                            assert(c == TARGET_CHAR || c == PLACED_CHAR);
                            assert(targets@.contains(Position(x, y)));
                        }
                    }
                    if c == WALL_CHAR {
                        assert(inside_row(ls[y as int], x as int + 1)) by {
                            assert(ls[y as int][x as int] == WALL_CHAR);
                        }
                    } else {
                        assert(inside_row(ls[y as int], x as int + 1) == inside_row(
                            ls[y as int],
                            x as int,
                        )) by {
                            if inside_row(ls[y as int], x as int + 1) {
                                let j = choose|j: int|
                                    0 <= j < x as int + 1 && ls[y as int][j] == WALL_CHAR;
                                assert(j != x as int);
                                assert(inside_row(ls[y as int], x as int));
                            }
                            if inside_row(ls[y as int], x as int) {
                                let j = choose|j: int|
                                    0 <= j < x as int && ls[y as int][j] == WALL_CHAR;
                                assert(0 <= j < x as int + 1 && ls[y as int][j] == WALL_CHAR);
                                assert(inside_row(ls[y as int], x as int + 1));
                            }
                        }
                    }
                }
                x = x + 1;
            }
            while row_sq.len() < width
                invariant
                    h == ls.len(),
                    y < h,
                    rlen == ls[y as int].len(),
                    rlen <= row_sq@.len() <= width,
                    forall|x2: int|
                        0 <= x2 < row_sq@.len() ==> (#[trigger] row_sq@[x2]) == (
                        if spec_is_wall_at(ls, x2, y as int) {
                            Square::Wall
                        } else {
                            Square::Space
                        }),
                decreases width - row_sq@.len(),
            {
                row_sq.push(Square::Wall);
            }
            grid.push(row_sq);
            y = y + 1;
        }
        let start_pos = match start {
            Some(p) => p,
            None => {
                proof {
                    assert forall|a: int, b: int| true implies !spec_is_start(ls, a, b) by {
                        if spec_is_start(ls, a, b) {
                            assert(lex_before(a, b, 0, h as int));
                        }
                    }
                    assert(!has_start(ls));
                }
                return Err(ParseError::new("no start position"));
            },
        };
        let q = Question { width, height: h, grid, boxes, targets, start: start_pos };
        proof {
            assert(parses(ls)) by {
                if has_bad_char(ls) {
                    let (by2, bx2) = choose|y2: int, x2: int|
                        0 <= y2 < ls.len() && 0 <= x2 < ls[y2].len() && !good_char(
                            #[trigger] ls[y2][x2],
                        );
                    assert(good_char(ls[by2][bx2]));
                }
                assert(spec_is_start(ls, start_pos.0 as int, start_pos.1 as int));
                if multi_start(ls) {
                    let (my1, mx1, my2, mx2) = choose|y1: int, x1: int, y2: int, x2: int|
                        #[trigger] spec_is_start(ls, x1, y1) && #[trigger] spec_is_start(
                            ls,
                            x2,
                            y2,
                        ) && (x1 != x2 || y1 != y2);
                    assert(lex_before(mx1, my1, 0, h as int));
                    assert(lex_before(mx2, my2, 0, h as int));
                }
            }
            assert(q.wf()) by {
                assert forall|i: int| 0 <= i < q.boxes@.len() implies (#[trigger] q.boxes@[i]).0
                    < q.width && q.boxes@[i].1 < q.height && q.grid@[q.boxes@[i].1 as int]@[
                    q.boxes@[i].0 as int
                ] == Square::Space by {
                    let pos = q.boxes@[i];
                    assert(q.boxes@.contains(pos));
                    assert(spec_is_box(ls, pos.0 as int, pos.1 as int));
                }
                assert forall|i: int| 0 <= i < q.targets@.len() implies (#[trigger] q.targets@[
                    i
                ]).0 < q.width && q.targets@[i].1 < q.height && q.grid@[q.targets@[i].1 as int]@[
                    q.targets@[i].0 as int
                ] == Square::Space by {
                    let pos = q.targets@[i];
                    assert(q.targets@.contains(pos));
                    assert(spec_is_target(ls, pos.0 as int, pos.1 as int));
                }
                assert forall|i: int| 0 <= i < q.boxes@.len() implies #[trigger] q.boxes@[i]
                    != q.start by {
                    let pos = q.boxes@[i];
                    assert(q.boxes@.contains(pos));
                    assert(spec_is_box(ls, pos.0 as int, pos.1 as int));
                }
            }
        }
        Ok(q)
    }

    /// Parses one puzzle from its textual form.
    pub fn from_str(s: &str) -> (r: Result<Question, ParseError>)
        ensures
            r is Ok <==> parses(lines_spec(s.spec_bytes())),
            r matches Ok(q) ==> ({
                let ls = lines_spec(s.spec_bytes());
                &&& q.wf()
                &&& q.height == ls.len()
                &&& q.width == max_row_len(ls)
                &&& forall|a: usize, b: usize|
                    #[trigger] q.boxes@.contains(Position(a, b)) <==> spec_is_box(
                        ls,
                        a as int,
                        b as int,
                    )
                &&& forall|a: usize, b: usize|
                    #[trigger] q.targets@.contains(Position(a, b)) <==> spec_is_target(
                        ls,
                        a as int,
                        b as int,
                    )
                &&& spec_is_start(ls, q.start.0 as int, q.start.1 as int)
                &&& forall|y: int, x: int|
                    0 <= y < ls.len() && 0 <= x < q.width ==> (#[trigger] q.grid@[y]@[x]) == (
                    if spec_is_wall_at(ls, x, y) {
                        Square::Wall
                    } else {
                        Square::Space
                    })
            }),
    {
        let bytes = s.as_bytes();
        let lines = split_lines(bytes);
        Question::parse_lines(&lines)
    }
}


/// An ASCII whitespace byte as it may appear inside one line.
pub open spec fn is_ws(b: u8) -> bool {
    b == 32u8 || b == 9u8 || b == 11u8 || b == 12u8 || b == 13u8
}

/// A separator line: empty or all whitespace.
pub open spec fn is_blank(l: Seq<u8>) -> bool {
    forall|i: int| 0 <= i < l.len() ==> is_ws(#[trigger] l[i])
}

/// The index of the first blank line, or the line count.
pub open spec fn first_blank(ls: Seq<Seq<u8>>) -> int
    decreases ls.len(),
{
    if ls.len() == 0 {
        0
    } else if is_blank(ls[0]) {
        0
    } else {
        1 + first_blank(ls.drop_first())
    }
}

/// `first_blank` is characterised by its first-occurrence property.
pub proof fn lemma_first_blank(ls: Seq<Seq<u8>>, i: int)
    requires
        0 <= i <= ls.len(),
        forall|k: int| 0 <= k < i ==> !is_blank(#[trigger] ls[k]),
        i < ls.len() ==> is_blank(ls[i]),
    ensures
        first_blank(ls) == i,
    decreases ls.len(),
{
    if ls.len() == 0 {
    } else if is_blank(ls[0]) {
        assert(i == 0);
    } else {
        assert(i >= 1);
        let t = ls.drop_first();
        assert forall|k: int| 0 <= k < i - 1 implies !is_blank(#[trigger] t[k]) by {
            assert(t[k] == ls[k + 1]);
        }
        lemma_first_blank(t, i - 1);
    }
}

/// The groups of lines separated by blank lines; each blank separator is
/// consumed, so two adjacent blank lines leave an empty (invalid) group.
pub open spec fn blocks_of(ls: Seq<Seq<u8>>) -> Seq<Seq<Seq<u8>>>
    decreases ls.len(),
{
    if ls.len() == 0 {
        Seq::empty()
    } else {
        let i = first_blank(ls);
        if 0 <= i < ls.len() {
            seq![ls.subrange(0, i)] + blocks_of(ls.subrange(i + 1, ls.len() as int))
        } else {
            seq![ls]
        }
    }
}

/// What `parse_lines` guarantees of a successfully parsed puzzle.
pub open spec fn parsed_from(q: Question, ls: Seq<Seq<u8>>) -> bool {
    &&& q.wf()
    &&& q.height == ls.len()
    &&& q.width == max_row_len(ls)
    &&& q.grid@.len() == ls.len()
    &&& forall|y: int| 0 <= y < ls.len() ==> (#[trigger] q.grid@[y])@.len() == q.width
    &&& forall|y: int, x: int|
        0 <= y < ls.len() && 0 <= x < q.width ==> (#[trigger] q.grid@[y]@[x]) == (
        if spec_is_wall_at(ls, x, y) {
            Square::Wall
        } else {
            Square::Space
        })
    &&& forall|a: usize, b: usize|
        #[trigger] q.boxes@.contains(Position(a, b)) <==> spec_is_box(ls, a as int, b as int)
    &&& forall|a: usize, b: usize|
        #[trigger] q.targets@.contains(Position(a, b)) <==> spec_is_target(ls, a as int, b as int)
    &&& spec_is_start(ls, q.start.0 as int, q.start.1 as int)
}

/// Whether `l` holds only whitespace.
fn row_is_blank(l: &Vec<u8>) -> (r: bool)
    ensures
        r == is_blank(l@),
{
    let n = l.len();
    let mut i: usize = 0;
    while i < n
        invariant
            n == l@.len(),
            i <= n,
            forall|k: int| 0 <= k < i ==> is_ws(#[trigger] l@[k]),
        decreases n - i,
    {
        let c = l[i];
        if !(c == 32u8 || c == 9u8 || c == 11u8 || c == 12u8 || c == 13u8) {
            return false;
        }
        i = i + 1;
    }
    true
}


/// The decimal digit character for `n < 10`.
pub open spec fn digit_char(n: nat) -> char {
    if n == 0 {
        '0'
    } else if n == 1 {
        '1'
    } else if n == 2 {
        '2'
    } else if n == 3 {
        '3'
    } else if n == 4 {
        '4'
    } else if n == 5 {
        '5'
    } else if n == 6 {
        '6'
    } else if n == 7 {
        '7'
    } else if n == 8 {
        '8'
    } else {
        '9'
    }
}

/// The decimal digits of `n`, most significant first.
pub open spec fn dec_chars(n: nat) -> Seq<char>
    decreases n,
{
    if n < 10 {
        seq![digit_char(n)]
    } else {
        dec_chars(n / 10) + seq![digit_char(n % 10)]
    }
}

/// One decimal digit as text.
fn digit_str(d: usize) -> (r: &'static str)
    requires
        d < 10,
    ensures
        r@ == seq![digit_char(d as nat)],
{
    proof {
        reveal_strlit("0");
        reveal_strlit("1");
        reveal_strlit("2");
        reveal_strlit("3");
        reveal_strlit("4");
        reveal_strlit("5");
        reveal_strlit("6");
        reveal_strlit("7");
        reveal_strlit("8");
        reveal_strlit("9");
    }
    if d == 0 {
        "0"
    } else if d == 1 {
        "1"
    } else if d == 2 {
        "2"
    } else if d == 3 {
        "3"
    } else if d == 4 {
        "4"
    } else if d == 5 {
        "5"
    } else if d == 6 {
        "6"
    } else if d == 7 {
        "7"
    } else if d == 8 {
        "8"
    } else {
        "9"
    }
}

/// `n` written in decimal.
fn decimal_string(n: usize) -> (s: String)
    ensures
        s@ == dec_chars(n as nat),
    decreases n,
{
    if n < 10 {
        String::from_str(digit_str(n))
    } else {
        let mut s = decimal_string(n / 10);
        s.append(digit_str(n % 10));
        proof {
            assert(s@ =~= dec_chars((n / 10) as nat) + seq![digit_char((n % 10) as nat)]);
        }
        s
    }
}

/// Blank separators only ever split lines apart, so there are never more
/// groups than lines.
proof fn lemma_blocks_len(ls: Seq<Seq<u8>>)
    ensures
        blocks_of(ls).len() <= ls.len(),
    decreases ls.len(),
{
    if ls.len() > 0 {
        let i = first_blank(ls);
        if 0 <= i < ls.len() {
            lemma_blocks_len(ls.subrange(i + 1, ls.len() as int));
        }
    }
}

/// Several puzzles parsed from one text.
#[derive(Debug)]
pub struct QuestionCollection {
    pub questions: Vec<Question>,
}

impl QuestionCollection {
    pub fn len(&self) -> (r: usize)
        ensures
            r == self.questions@.len(),
    {
        self.questions.len()
    }

    pub fn is_empty(&self) -> (r: bool)
        ensures
            r == (self.questions@.len() == 0),
    {
        self.len() == 0
    }

    /// The parsed puzzles, in file order.
    pub fn iter(&self) -> (r: &Vec<Question>)
        ensures
            r == &self.questions,
    {
        &self.questions
    }

    /// Parses a whole file: puzzles separated by blank lines, each of which
    /// must parse on its own.
    pub fn from_str(s: &str) -> (r: Result<QuestionCollection, ParseError>)
        ensures
            ({
                let bs = blocks_of(lines_spec(s.spec_bytes()));
                &&& (r is Ok <==> forall|k: int| 0 <= k < bs.len() ==> parses(#[trigger] bs[k]))
                &&& (r matches Ok(c) ==> c.questions@.len() == bs.len() && (forall|k: int|
                    0 <= k < bs.len() ==> parsed_from(#[trigger] c.questions@[k], bs[k])))
                &&& (r matches Err(ParseError::Text(t)) ==> exists|k: int|
                    0 <= k < bs.len() && !parses(#[trigger] bs[k]) && (forall|j: int|
                        0 <= j < k ==> parses(#[trigger] bs[j])) && ("error on grid "@ + dec_chars(
                        (k + 1) as nat,
                    ) + ", "@).is_prefix_of(t@))
            }),
    {
        let bytes = s.as_bytes();
        let lines = split_lines(bytes);
        let ghost ls = lines@.map_values(|l: Vec<u8>| l@);
        let ghost bs = blocks_of(ls);
        let n = lines.len();
        let mut questions: Vec<Question> = Vec::new();
        let mut li: usize = 0;
        let mut done = false;
        proof {
            assert(ls.subrange(0, n as int) =~= ls);
        }
        while !done && li < n
            invariant
                n == ls.len(),
                ls == lines@.map_values(|l: Vec<u8>| l@),
                ls == lines_spec(s.spec_bytes()),
                bs == blocks_of(ls),
                li <= n,
                done ==> li == n,
                questions@.len() + blocks_of(ls.subrange(li as int, n as int)).len() == bs.len(),
                forall|k: int|
                    0 <= k < blocks_of(ls.subrange(li as int, n as int)).len() ==> #[trigger] blocks_of(
                        ls.subrange(li as int, n as int),
                    )[k] == bs[questions@.len() + k],
                forall|k: int|
                    0 <= k < questions@.len() ==> parses(#[trigger] bs[k]) && parsed_from(
                        questions@[k],
                        bs[k],
                    ),
            decreases n - li + (if done {
                0int
            } else {
                1int
            }),
        {
            let ghost rest = ls.subrange(li as int, n as int);
            let mut je = li;
            while je < n && !row_is_blank(&lines[je])
                invariant
                    n == ls.len(),
                    ls == lines@.map_values(|l: Vec<u8>| l@),
                    li <= je <= n,
                    forall|k: int| li <= k < je ==> !is_blank(#[trigger] ls[k]),
                decreases n - je,
            {
                je = je + 1;
            }
            proof {
                assert forall|k: int| 0 <= k < je - li implies !is_blank(#[trigger] rest[k]) by {
                    assert(rest[k] == ls[li + k]);
                }
                if (je as int) < n {
                    assert(rest[je - li] == ls[je as int]);
                }
                lemma_first_blank(rest, je - li);
            }
            let mut block: Vec<Vec<u8>> = Vec::new();
            let mut k = li;
            while k < je
                invariant
                    n == ls.len(),
                    ls == lines@.map_values(|l: Vec<u8>| l@),
                    li <= k <= je <= n,
                    block@.map_values(|l: Vec<u8>| l@) =~= ls.subrange(li as int, k as int),
                decreases je - k,
            {
                let ghost b0 = block@.map_values(|l: Vec<u8>| l@);
                let row_copy = lines[k].clone();
                proof {
                    assert(row_copy@ =~= ls[k as int]);
                }
                block.push(row_copy);
                proof {
                    assert(block@.map_values(|l: Vec<u8>| l@) =~= b0.push(row_copy@));
                    assert(block@.map_values(|l: Vec<u8>| l@) =~= ls.subrange(
                        li as int,
                        k as int + 1,
                    ));
                }
                k = k + 1;
            }
            let ghost blk = ls.subrange(li as int, je as int);
            proof {
                assert(block@.map_values(|l: Vec<u8>| l@) =~= blk);
                if je == n {
                    assert(blk =~= rest);
                    assert(blocks_of(rest) =~= seq![blk]);
                } else {
                    assert(rest.subrange(0, je - li) =~= blk);
                    assert(rest.subrange(je - li + 1, rest.len() as int) =~= ls.subrange(
                        je + 1,
                        n as int,
                    ));
                    assert(blocks_of(rest) =~= seq![blk] + blocks_of(
                        ls.subrange(je + 1, n as int),
                    ));
                }
            }
            match Question::parse_lines(&block) {
                Ok(q) => {
                    questions.push(q);
                },
                Err(e) => {
                    proof {
                        assert(!parses(blk));
                        assert(blocks_of(ls.subrange(li as int, n as int)) == blocks_of(rest));
                        assert(blocks_of(rest).len() >= 1);
                        assert(blocks_of(ls.subrange(li as int, n as int))[0] == blk);
                        assert(bs[questions@.len() as int] == blk);
                        assert(!(forall|k2: int| 0 <= k2 < bs.len() ==> parses(#[trigger] bs[k2])))
                            by {
                            assert(0 <= questions@.len() < bs.len());
                            assert(!parses(bs[questions@.len() as int]));
                        }
                        lemma_blocks_len(ls);
                    }
                    let qidx = questions.len();
                    let ParseError::Text(inner) = e;
                    let mut msg = String::from_str("error on grid ");
                    let num = decimal_string(qidx + 1);
                    msg.append(num.as_str());
                    msg.append(", ");
                    msg.append(inner.as_str());
                    proof {
                        let ghost k = qidx as int;
                        assert(msg@ =~= "error on grid "@ + dec_chars((k + 1) as nat) + ", "@
                            + inner@);
                        assert(("error on grid "@ + dec_chars((k + 1) as nat)
                            + ", "@).is_prefix_of(msg@)) by {
                            let pre = "error on grid "@ + dec_chars((k + 1) as nat) + ", "@;
                            assert(msg@.subrange(0, pre.len() as int) =~= pre);
                        }
                    }
                    return Err(ParseError::Text(msg));
                },
            }
            let ghost qlen = questions@.len() as int;
            proof {
                assert(blocks_of(ls.subrange(li as int, n as int)) == blocks_of(rest));
                assert(blocks_of(rest).len() >= 1);
                assert(blocks_of(ls.subrange(li as int, n as int))[0] == blk);
                assert(bs[qlen - 1] == blk);
                assert(parses(blk));
            }
            if je == n {
                done = true;
                li = n;
                proof {
                    assert(ls.subrange(n as int, n as int) =~= Seq::<Seq<u8>>::empty());
                    assert(blocks_of(ls.subrange(li as int, n as int)).len() == 0);
                }
            } else {
                li = je + 1;
                proof {
                    let nsuf = ls.subrange(li as int, n as int);
                    assert(blocks_of(rest) =~= seq![blk] + blocks_of(nsuf));
                    assert forall|k2: int| 0 <= k2 < blocks_of(nsuf).len() implies #[trigger] blocks_of(
                        nsuf,
                    )[k2] == bs[qlen + k2] by {
                        assert(blocks_of(nsuf)[k2] == blocks_of(rest)[k2 + 1]);
                        assert(blocks_of(rest)[k2 + 1] == bs[(qlen - 1) + (k2 + 1)]);
                    }
                }
            }
        }
        proof {
            assert(blocks_of(ls.subrange(li as int, n as int)) =~= Seq::<Seq<Seq<u8>>>::empty());
        }
        Ok(QuestionCollection { questions })
    }
}

} // verus!
