//! The 8×8 board: cells, legal destinations, capture sets and scoring.

use vstd::prelude::*;

verus! {

/// Side length of the board.
pub const BOARD_SIZE: usize = 8;

/// Number of cells on the board.
pub const BOARD_SIZE_SQUARE: usize = 64;

/// The content of one cell.
#[derive(Clone, Copy, PartialEq, Eq, Debug, Structural)]
pub enum Cell {
    Empty,
    Black,
    White,
}

/// The colour that plays against `c` (`Empty` has none and maps to itself).
pub open spec fn opposite_of(c: Cell) -> Cell {
    match c {
        Cell::Black => Cell::White,
        Cell::White => Cell::Black,
        Cell::Empty => Cell::Empty,
    }
}

impl Cell {
    /// The opponent's colour; only players have one.
    pub fn opposite(&self) -> (r: Cell)
        requires
            *self != Cell::Empty,
        ensures
            r == opposite_of(*self),
            r != Cell::Empty,
            r != *self,
    {
        match *self {
            Cell::Black => Cell::White,
            Cell::White => Cell::Black,
            Cell::Empty => Cell::Empty,
        }
    }
}


/// Whether `(x, y)` lies on the board.
pub open spec fn on_board(x: int, y: int) -> bool {
    0 <= x < 8 && 0 <= y < 8
}

/// Row-major linear index of `(x, y)`.
pub open spec fn pos_of(x: int, y: int) -> int {
    x + 8 * y
}

/// Horizontal component of compass direction `d` (0 up, 1 down, 2 right, 3 left,
/// 4 up-right, 5 up-left, 6 down-right, 7 down-left).
pub open spec fn dir_dx(d: int) -> int {
    if d == 2 || d == 4 || d == 6 {
        1
    } else if d == 3 || d == 5 || d == 7 {
        -1
    } else {
        0
    }
}

/// Vertical component of compass direction `d` (y grows downwards).
pub open spec fn dir_dy(d: int) -> int {
    if d == 0 || d == 4 || d == 5 {
        -1
    } else if d == 1 || d == 6 || d == 7 {
        1
    } else {
        0
    }
}

/// `i * u` for a unit component `u` in {-1, 0, 1}.
pub open spec fn scale(i: int, u: int) -> int {
    if u == 0 {
        0
    } else if u > 0 {
        i
    } else {
        -i
    }
}

/// Column reached after `i` steps from column `x` in direction `d`.
pub open spec fn ray_x(x: int, d: int, i: int) -> int {
    x + scale(i, dir_dx(d))
}

/// Row reached after `i` steps from row `y` in direction `d`.
pub open spec fn ray_y(y: int, d: int, i: int) -> int {
    y + scale(i, dir_dy(d))
}

/// Linear index of the cell `i` steps from `(x, y)` in direction `d`.
pub open spec fn ray_pos(x: int, y: int, d: int, i: int) -> int {
    pos_of(ray_x(x, d, i), ray_y(y, d, i))
}

/// The cell `i` steps from `(x, y)` in direction `d` is on the board and holds `c`.
pub open spec fn ray_is(s: Seq<Cell>, x: int, y: int, d: int, i: int, c: Cell) -> bool {
    on_board(ray_x(x, d, i), ray_y(y, d, i)) && s[ray_pos(x, y, d, i)] == c
}

/// The capture rule along one ray: `(x, y)` holds a stone of `color`, the next `k >= 1`
/// cells in direction `d` hold the opponent's stones, and the cell right after them is an
/// empty cell on the board. Playing there captures the run.
pub open spec fn reaches(s: Seq<Cell>, color: Cell, x: int, y: int, d: int, k: int) -> bool {
    &&& color != Cell::Empty
    &&& 0 <= d < 8
    &&& on_board(x, y)
    &&& s[pos_of(x, y)] == color
    &&& k >= 1
    &&& forall|i: int| 1 <= i <= k ==> #[trigger] ray_is(s, x, y, d, i, opposite_of(color))
    &&& ray_is(s, x, y, d, k + 1, Cell::Empty)
}

/// The destination of a capturing ray.
pub open spec fn dest_of(x: int, y: int, d: int, k: int) -> int {
    ray_pos(x, y, d, k + 1)
}

/// Order in which rays are examined: by starting cell, then by direction.
pub open spec fn ray_code(x: int, y: int, d: int) -> int {
    8 * pos_of(x, y) + d
}

/// `p` is a legal destination for `color`: some ray from a stone of `color` ends there.
pub open spec fn is_legal(s: Seq<Cell>, color: Cell, p: int) -> bool {
    exists|x: int, y: int, d: int, k: int|
        #[trigger] reaches(s, color, x, y, d, k) && dest_of(x, y, d, k) == p
}

/// `q` is in the run of some capturing ray that ends at `p`.
pub open spec fn in_run(s: Seq<Cell>, color: Cell, p: int, q: int) -> bool {
    exists|x: int, y: int, d: int, k: int, i: int|
        #[trigger] reaches(s, color, x, y, d, k) && dest_of(x, y, d, k) == p && 1 <= i <= k
            && #[trigger] ray_pos(x, y, d, i) == q
}

/// `q` changes colour when `color` plays at `p`: `p` is legal, and `q` is `p` itself or a
/// stone of a run that ends at `p`.
pub open spec fn is_capture(s: Seq<Cell>, color: Cell, p: int, q: int) -> bool {
    is_legal(s, color, p) && (q == p || in_run(s, color, p, q))
}

/// The positions below `n` that satisfy `f`, in increasing order.
pub open spec fn positions_where(f: spec_fn(int) -> bool, n: int) -> Seq<usize>
    decreases n,
{
    if n <= 0 {
        Seq::empty()
    } else {
        let prev = positions_where(f, n - 1);
        if f(n - 1) {
            prev.push((n - 1) as usize)
        } else {
            prev
        }
    }
}

/// The legal destinations for `color`, in increasing order.
pub open spec fn legal_positions(s: Seq<Cell>, color: Cell) -> Seq<usize> {
    positions_where(|p: int| is_legal(s, color, p), 64)
}

/// The capture set of `color` playing at `p` (the destination included), in increasing
/// order; empty when `p` is not a legal destination.
pub open spec fn capture_positions(s: Seq<Cell>, color: Cell, p: int) -> Seq<usize> {
    positions_where(|q: int| is_capture(s, color, p, q), 64)
}

/// The cells after `color` plays at `p`: every cell of the capture set takes `color`.
pub open spec fn played(s: Seq<Cell>, color: Cell, p: int) -> Seq<Cell> {
    Seq::new(64, |q: int| if is_capture(s, color, p, q) { color } else { s[q] })
}

/// Number of cells below `n` holding `c`.
pub open spec fn count_of(s: Seq<Cell>, c: Cell, n: int) -> int
    decreases n,
{
    if n <= 0 {
        0
    } else {
        count_of(s, c, n - 1) + if s[n - 1] == c { 1int } else { 0int }
    }
}

/// The opening position: White on (3,3) and (4,4), Black on (4,3) and (3,4).
pub open spec fn initial_cells() -> Seq<Cell> {
    Seq::new(
        64,
        |p: int|
            if p == 27 || p == 36 {
                Cell::White
            } else if p == 28 || p == 35 {
                Cell::Black
            } else {
                Cell::Empty
            },
    )
}

/// The characters of a drawn board that stand for cells: all but spaces and line breaks.
pub open spec fn board_chars(t: Seq<char>) -> Seq<char>
    decreases t.len(),
{
    if t.len() == 0 {
        Seq::empty()
    } else {
        let prev = board_chars(t.drop_last());
        let c = t.last();
        if c != ' ' && c != '\n' {
            prev.push(c)
        } else {
            prev
        }
    }
}

/// The cell that a character of a drawn board stands for.
pub open spec fn char_cell(c: char) -> Cell {
    if c == 'W' {
        Cell::White
    } else if c == 'B' {
        Cell::Black
    } else {
        Cell::Empty
    }
}

/// The cells that the characters `t` stand for, row by row; missing ones are empty.
pub open spec fn cells_of_text(t: Seq<char>) -> Seq<Cell> {
    Seq::new(64, |p: int| if p < t.len() { char_cell(t[p]) } else { Cell::Empty })
}

/// The cell that `c` stands for.
fn cell_of_char(c: char) -> (r: Cell)
    ensures
        r == char_cell(c),
{
    if c == 'W' {
        Cell::White
    } else if c == 'B' {
        Cell::Black
    } else {
        Cell::Empty
    }
}

/// The flags of `v` as a predicate on positions.
pub open spec fn flag_set(v: Seq<bool>) -> spec_fn(int) -> bool {
    |p: int| v[p]
}

/// A ray starting at a cell examined before `n` (in `ray_code` order) ends at `p`.
spec fn legal_upto(s: Seq<Cell>, color: Cell, p: int, n: int) -> bool {
    exists|x: int, y: int, d: int, k: int|
        #[trigger] reaches(s, color, x, y, d, k) && dest_of(x, y, d, k) == p && ray_code(x, y, d)
            < n
}

/// `q` lies in the run of a ray examined before `n` that ends at `t`.
spec fn run_upto(s: Seq<Cell>, color: Cell, t: int, q: int, n: int) -> bool {
    exists|x: int, y: int, d: int, k: int, i: int|
        #[trigger] reaches(s, color, x, y, d, k) && dest_of(x, y, d, k) == t && 1 <= i <= k
            && #[trigger] ray_pos(x, y, d, i) == q && ray_code(x, y, d) < n
}

/// `q` is one of the first `k` cells from `(x, y)` in direction `d`.
spec fn run_hits(x: int, y: int, d: int, k: int, q: int) -> bool {
    exists|i: int| 1 <= i <= k && #[trigger] ray_pos(x, y, d, i) == q
}

/// A capturing ray from a given cell and direction has one length only.
proof fn lemma_unique_run(s: Seq<Cell>, color: Cell, x: int, y: int, d: int, k1: int, k2: int)
    requires
        reaches(s, color, x, y, d, k1),
        reaches(s, color, x, y, d, k2),
    ensures
        k1 == k2,
{
    if k1 < k2 {
        assert(ray_is(s, x, y, d, k1 + 1, opposite_of(color)));
    } else if k2 < k1 {
        assert(ray_is(s, x, y, d, k2 + 1, opposite_of(color)));
    }
}

/// A capturing ray stays on the board, and its destination is an empty cell.
proof fn lemma_ray_bounds(s: Seq<Cell>, color: Cell, x: int, y: int, d: int, k: int)
    requires
        reaches(s, color, x, y, d, k),
    ensures
        k <= 6,
        0 <= dest_of(x, y, d, k) < 64,
        0 <= ray_code(x, y, d) < 512,
        s[dest_of(x, y, d, k)] == Cell::Empty,
        forall|i: int| 1 <= i <= k ==> 0 <= #[trigger] ray_pos(x, y, d, i) < 64,
{
    assert forall|i: int| 1 <= i <= k implies 0 <= #[trigger] ray_pos(x, y, d, i) < 64 by {
        assert(ray_is(s, x, y, d, i, opposite_of(color)));
    }
    assert(ray_is(s, x, y, d, k + 1, Cell::Empty));
    if k > 6 {
        assert(ray_is(s, x, y, d, 7, opposite_of(color)));
    }
}

/// Two rays with the same code start at the same cell and go the same way.
proof fn lemma_code_unique(x1: int, y1: int, d1: int, x2: int, y2: int, d2: int)
    requires
        on_board(x1, y1),
        on_board(x2, y2),
        0 <= d1 < 8,
        0 <= d2 < 8,
        ray_code(x1, y1, d1) == ray_code(x2, y2, d2),
    ensures
        x1 == x2 && y1 == y2 && d1 == d2,
{
}

/// Examining one more ray, which captures, adds its destination and its run.
proof fn lemma_step_some(s: Seq<Cell>, color: Cell, x: int, y: int, d: int, k: int)
    requires
        reaches(s, color, x, y, d, k),
    ensures
        forall|p: int|
            #[trigger] legal_upto(s, color, p, ray_code(x, y, d) + 1) == (legal_upto(
                s,
                color,
                p,
                ray_code(x, y, d),
            ) || p == dest_of(x, y, d, k)),
        forall|t: int, q: int|
            #[trigger] run_upto(s, color, t, q, ray_code(x, y, d) + 1) == (run_upto(
                s,
                color,
                t,
                q,
                ray_code(x, y, d),
            ) || (t == dest_of(x, y, d, k) && run_hits(x, y, d, k, q))),
{
    let n = ray_code(x, y, d);
    assert forall|p: int|
        #[trigger] legal_upto(s, color, p, n + 1) == (legal_upto(s, color, p, n) || p == dest_of(
            x,
            y,
            d,
            k,
        )) by {
        if legal_upto(s, color, p, n + 1) {
            let (x2, y2, d2, k2) = choose|x2: int, y2: int, d2: int, k2: int|
                #[trigger] reaches(s, color, x2, y2, d2, k2) && dest_of(x2, y2, d2, k2) == p
                    && ray_code(x2, y2, d2) < n + 1;
            if ray_code(x2, y2, d2) == n {
                lemma_code_unique(x, y, d, x2, y2, d2);
                lemma_unique_run(s, color, x, y, d, k, k2);
            }
        }
        if legal_upto(s, color, p, n) {
            let (x2, y2, d2, k2) = choose|x2: int, y2: int, d2: int, k2: int|
                #[trigger] reaches(s, color, x2, y2, d2, k2) && dest_of(x2, y2, d2, k2) == p
                    && ray_code(x2, y2, d2) < n;
            assert(reaches(s, color, x2, y2, d2, k2));
        }
        if p == dest_of(x, y, d, k) {
            assert(reaches(s, color, x, y, d, k));
        }
    }
    assert forall|t: int, q: int|
        #[trigger] run_upto(s, color, t, q, n + 1) == (run_upto(s, color, t, q, n) || (t
            == dest_of(x, y, d, k) && run_hits(x, y, d, k, q))) by {
        if run_upto(s, color, t, q, n + 1) {
            let (x2, y2, d2, k2, i2) = choose|x2: int, y2: int, d2: int, k2: int, i2: int|
                #[trigger] reaches(s, color, x2, y2, d2, k2) && dest_of(x2, y2, d2, k2) == t && 1
                    <= i2 <= k2 && #[trigger] ray_pos(x2, y2, d2, i2) == q && ray_code(x2, y2, d2)
                    < n + 1;
            if ray_code(x2, y2, d2) == n {
                lemma_code_unique(x, y, d, x2, y2, d2);
                lemma_unique_run(s, color, x, y, d, k, k2);
                assert(ray_pos(x, y, d, i2) == q);
            }
        }
        if run_upto(s, color, t, q, n) {
            let (x2, y2, d2, k2, i2) = choose|x2: int, y2: int, d2: int, k2: int, i2: int|
                #[trigger] reaches(s, color, x2, y2, d2, k2) && dest_of(x2, y2, d2, k2) == t && 1
                    <= i2 <= k2 && #[trigger] ray_pos(x2, y2, d2, i2) == q && ray_code(x2, y2, d2)
                    < n;
            assert(reaches(s, color, x2, y2, d2, k2) && ray_pos(x2, y2, d2, i2) == q);
        }
        if t == dest_of(x, y, d, k) && run_hits(x, y, d, k, q) {
            let i = choose|i: int| 1 <= i <= k && #[trigger] ray_pos(x, y, d, i) == q;
            assert(reaches(s, color, x, y, d, k) && ray_pos(x, y, d, i) == q);
        }
    }
}

/// Examining a ray that captures nothing changes nothing.
proof fn lemma_step_none(s: Seq<Cell>, color: Cell, x: int, y: int, d: int)
    requires
        on_board(x, y),
        0 <= d < 8,
        forall|k: int| !#[trigger] reaches(s, color, x, y, d, k),
    ensures
        forall|p: int|
            #[trigger] legal_upto(s, color, p, ray_code(x, y, d) + 1) == legal_upto(
                s,
                color,
                p,
                ray_code(x, y, d),
            ),
        forall|t: int, q: int|
            #[trigger] run_upto(s, color, t, q, ray_code(x, y, d) + 1) == run_upto(
                s,
                color,
                t,
                q,
                ray_code(x, y, d),
            ),
{
    let n = ray_code(x, y, d);
    assert forall|p: int| #[trigger]
        legal_upto(s, color, p, n + 1) == legal_upto(s, color, p, n) by {
        if legal_upto(s, color, p, n + 1) {
            let (x2, y2, d2, k2) = choose|x2: int, y2: int, d2: int, k2: int|
                #[trigger] reaches(s, color, x2, y2, d2, k2) && dest_of(x2, y2, d2, k2) == p
                    && ray_code(x2, y2, d2) < n + 1;
            if ray_code(x2, y2, d2) == n {
                lemma_code_unique(x, y, d, x2, y2, d2);
            }
        }
        if legal_upto(s, color, p, n) {
            let (x2, y2, d2, k2) = choose|x2: int, y2: int, d2: int, k2: int|
                #[trigger] reaches(s, color, x2, y2, d2, k2) && dest_of(x2, y2, d2, k2) == p
                    && ray_code(x2, y2, d2) < n;
            assert(reaches(s, color, x2, y2, d2, k2));
        }
    }
    assert forall|t: int, q: int| #[trigger]
        run_upto(s, color, t, q, n + 1) == run_upto(s, color, t, q, n) by {
        if run_upto(s, color, t, q, n + 1) {
            let (x2, y2, d2, k2, i2) = choose|x2: int, y2: int, d2: int, k2: int, i2: int|
                #[trigger] reaches(s, color, x2, y2, d2, k2) && dest_of(x2, y2, d2, k2) == t && 1
                    <= i2 <= k2 && #[trigger] ray_pos(x2, y2, d2, i2) == q && ray_code(x2, y2, d2)
                    < n + 1;
            if ray_code(x2, y2, d2) == n {
                lemma_code_unique(x, y, d, x2, y2, d2);
            }
        }
        if run_upto(s, color, t, q, n) {
            let (x2, y2, d2, k2, i2) = choose|x2: int, y2: int, d2: int, k2: int, i2: int|
                #[trigger] reaches(s, color, x2, y2, d2, k2) && dest_of(x2, y2, d2, k2) == t && 1
                    <= i2 <= k2 && #[trigger] ray_pos(x2, y2, d2, i2) == q && ray_code(x2, y2, d2)
                    < n;
            assert(reaches(s, color, x2, y2, d2, k2) && ray_pos(x2, y2, d2, i2) == q);
        }
    }
}

/// Once every ray has been examined, the bookkeeping is the full answer.
proof fn lemma_upto_all(s: Seq<Cell>, color: Cell)
    ensures
        forall|p: int| #[trigger] legal_upto(s, color, p, 512) == is_legal(s, color, p),
        forall|t: int, q: int| #[trigger] run_upto(s, color, t, q, 512) == in_run(s, color, t, q),
{
    assert forall|p: int| #[trigger] legal_upto(s, color, p, 512) == is_legal(s, color, p) by {
        if is_legal(s, color, p) {
            let (x, y, d, k) = choose|x: int, y: int, d: int, k: int|
                #[trigger] reaches(s, color, x, y, d, k) && dest_of(x, y, d, k) == p;
            lemma_ray_bounds(s, color, x, y, d, k);
        }
    }
    assert forall|t: int, q: int| #[trigger]
        run_upto(s, color, t, q, 512) == in_run(s, color, t, q) by {
        if in_run(s, color, t, q) {
            let (x, y, d, k, i) = choose|x: int, y: int, d: int, k: int, i: int|
                #[trigger] reaches(s, color, x, y, d, k) && dest_of(x, y, d, k) == t && 1 <= i <= k
                    && #[trigger] ray_pos(x, y, d, i) == q;
            lemma_ray_bounds(s, color, x, y, d, k);
        }
    }
}

/// A cell that is in a run toward `t` makes `t` legal; destinations lie on the board.
proof fn lemma_run_implies_legal(s: Seq<Cell>, color: Cell, t: int, q: int)
    ensures
        in_run(s, color, t, q) ==> is_legal(s, color, t),
        is_legal(s, color, t) ==> 0 <= t < 64 && s[t] == Cell::Empty,
{
    if in_run(s, color, t, q) {
        let (x, y, d, k, i) = choose|x: int, y: int, d: int, k: int, i: int|
            #[trigger] reaches(s, color, x, y, d, k) && dest_of(x, y, d, k) == t && 1 <= i <= k
                && #[trigger] ray_pos(x, y, d, i) == q;
        assert(reaches(s, color, x, y, d, k));
    }
    if is_legal(s, color, t) {
        let (x, y, d, k) = choose|x: int, y: int, d: int, k: int|
            #[trigger] reaches(s, color, x, y, d, k) && dest_of(x, y, d, k) == t;
        lemma_ray_bounds(s, color, x, y, d, k);
    }
}

/// `positions_where` depends only on the predicate's values below `n`.
proof fn lemma_positions_ext(f: spec_fn(int) -> bool, g: spec_fn(int) -> bool, n: int)
    requires
        forall|p: int| 0 <= p < n ==> #[trigger] f(p) == g(p),
    ensures
        positions_where(f, n) == positions_where(g, n),
    decreases n,
{
    if n > 0 {
        lemma_positions_ext(f, g, n - 1);
    }
}

/// What `positions_where` holds: exactly the positions below `n` satisfying `f`, in
/// strictly increasing order.
pub proof fn lemma_positions_where(f: spec_fn(int) -> bool, n: int)
    requires
        n <= 64,
    ensures
        forall|j: int|
            0 <= j < positions_where(f, n).len() ==> 0 <= #[trigger] positions_where(f, n)[j] < n
                && f(positions_where(f, n)[j] as int),
        forall|p: int|
            0 <= p < n ==> (f(p) <==> #[trigger] positions_where(f, n).contains(p as usize)),
        forall|i: int, j: int|
            0 <= i < j < positions_where(f, n).len() ==> positions_where(f, n)[i]
                < positions_where(f, n)[j],
        positions_where(f, n).no_duplicates(),
    decreases n,
{
    if n > 0 {
        lemma_positions_where(f, n - 1);
        let prev = positions_where(f, n - 1);
        let cur = positions_where(f, n);
        if f(n - 1) {
            assert(cur == prev.push((n - 1) as usize));
            assert forall|j: int| 0 <= j < prev.len() implies cur[j] == prev[j] by {}
        } else {
            assert(cur == prev);
        }
        assert forall|p: int| 0 <= p < n implies (f(p) <==> #[trigger] cur.contains(p as usize)) by {
            if f(p) {
                if p < n - 1 {
                    assert(prev.contains(p as usize));
                    let j = choose|j: int| 0 <= j < prev.len() && prev[j] == p as usize;
                    assert(cur[j] == p as usize);
                } else {
                    assert(cur[cur.len() - 1] == p as usize);
                }
            }
            if cur.contains(p as usize) {
                let j = choose|j: int| 0 <= j < cur.len() && cur[j] == p as usize;
                if j < prev.len() {
                    assert(prev[j] == p as usize);
                    assert(prev.contains(p as usize));
                }
            }
        }
    }
    let cur = positions_where(f, n);
    assert forall|i: int, j: int| 0 <= i < cur.len() && 0 <= j < cur.len() && i != j implies cur[i]
        != cur[j] by {
        if i > j {
            assert(cur[j] < cur[i]);
        }
    }
}

/// No position satisfies `f` below `n`: nothing is listed.
proof fn lemma_positions_none(f: spec_fn(int) -> bool, n: int)
    requires
        forall|p: int| 0 <= p < n ==> !#[trigger] f(p),
    ensures
        positions_where(f, n) == Seq::<usize>::empty(),
    decreases n,
{
    if n > 0 {
        lemma_positions_none(f, n - 1);
    }
}

/// A cell without a stone of `color` starts no capturing ray.
proof fn lemma_skip_cell(s: Seq<Cell>, color: Cell, x: int, y: int, d: int)
    requires
        on_board(x, y),
        s[pos_of(x, y)] != color,
        0 <= d <= 8,
    ensures
        forall|p: int| #[trigger] legal_upto(s, color, p, 8 * pos_of(x, y) + d) == legal_upto(s, color, p, 8 * pos_of(x, y)),
        forall|t: int, q: int| #[trigger] run_upto(s, color, t, q, 8 * pos_of(x, y) + d) == run_upto(s, color, t, q, 8 * pos_of(x, y)),
    decreases d,
{
    if d > 0 {
        lemma_skip_cell(s, color, x, y, d - 1);
        assert forall|k: int| !#[trigger] reaches(s, color, x, y, d - 1, k) by {}
        lemma_step_none(s, color, x, y, d - 1);
    }
}

/// A stone of a capturing run holds the opponent's colour and lies on the board.
proof fn lemma_run_cell(s: Seq<Cell>, color: Cell, p: int, q: int)
    requires
        in_run(s, color, p, q),
    ensures
        0 <= q < 64,
        s[q] == opposite_of(color),
{
    let (x, y, d, k, i) = choose|x: int, y: int, d: int, k: int, i: int|
        #[trigger] reaches(s, color, x, y, d, k) && dest_of(x, y, d, k) == p && 1 <= i <= k
            && #[trigger] ray_pos(x, y, d, i) == q;
    assert(ray_is(s, x, y, d, i, opposite_of(color)));
}

/// Every legal destination is an empty cell on the board, and playing it is accepted:
/// each position that `legal_positions` lists names, through its column and row, a cell
/// for which `BoardModel::set_cell` succeeds.
pub proof fn lemma_legal_moves_playable(s: Seq<Cell>, color: Cell)
    requires
        s.len() == 64,
        color != Cell::Empty,
    ensures
        forall|j: int|
            0 <= j < legal_positions(s, color).len() ==> {
                let p = #[trigger] legal_positions(s, color)[j] as int;
                &&& 0 <= p < 64
                &&& s[p] == Cell::Empty
                &&& is_legal(s, color, pos_of(p % 8, p / 8))
            },
{
    lemma_positions_where(|p: int| is_legal(s, color, p), 64);
    assert forall|j: int| 0 <= j < legal_positions(s, color).len() implies {
        let p = #[trigger] legal_positions(s, color)[j] as int;
        &&& 0 <= p < 64
        &&& s[p] == Cell::Empty
        &&& is_legal(s, color, pos_of(p % 8, p / 8))
    } by {
        let p = legal_positions(s, color)[j] as int;
        lemma_run_implies_legal(s, color, p, 0);
        assert(pos_of(p % 8, p / 8) == p);
    }
}

/// The legal destinations of each colour are listed without repetition.
pub proof fn lemma_legal_moves_distinct(s: Seq<Cell>)
    ensures
        legal_positions(s, Cell::Black).no_duplicates(),
        legal_positions(s, Cell::White).no_duplicates(),
{
    lemma_positions_where(|p: int| is_legal(s, Cell::Black, p), 64);
    lemma_positions_where(|p: int| is_legal(s, Cell::White, p), 64);
}

/// Asking twice for the legal destinations of a board that has not changed gives the
/// same list, in the same (increasing) order.
pub proof fn lemma_legal_moves_deterministic(a: Seq<Cell>, b: Seq<Cell>, color: Cell)
    requires
        a == b,
    ensures
        legal_positions(a, color) == legal_positions(b, color),
        forall|i: int, j: int|
            0 <= i < j < legal_positions(a, color).len() ==> legal_positions(a, color)[i]
                < legal_positions(a, color)[j],
{
    lemma_positions_where(|p: int| is_legal(a, color, p), 64);
}

/// A capturing ray never leaves the board: from the first column it never heads left,
/// from the last never right, from the top row never up and from the bottom row never
/// down, and each stone of its run and its destination are on the board.
pub proof fn lemma_no_wraparound(s: Seq<Cell>, color: Cell, x: int, y: int, d: int, k: int)
    requires
        reaches(s, color, x, y, d, k),
    ensures
        x == 0 ==> dir_dx(d) >= 0,
        x == 7 ==> dir_dx(d) <= 0,
        y == 0 ==> dir_dy(d) >= 0,
        y == 7 ==> dir_dy(d) <= 0,
        forall|i: int| 1 <= i <= k + 1 ==> on_board(ray_x(x, d, i), #[trigger] ray_y(y, d, i)),
{
    assert(ray_is(s, x, y, d, 1, opposite_of(color)));
    assert forall|i: int| 1 <= i <= k + 1 implies on_board(ray_x(x, d, i), #[trigger] ray_y(y, d, i)) by {
        if i <= k {
            assert(ray_is(s, x, y, d, i, opposite_of(color)));
        } else {
            assert(ray_is(s, x, y, d, k + 1, Cell::Empty));
        }
    }
}

/// Counting stones after a play, up to position `n`.
proof fn lemma_count_played(s: Seq<Cell>, color: Cell, p: int, n: int)
    requires
        s.len() == 64,
        color != Cell::Empty,
        is_legal(s, color, p),
        0 <= n <= 64,
    ensures
        count_of(played(s, color, p), color, n) == count_of(s, color, n) + positions_where(
            |q: int| is_capture(s, color, p, q),
            n,
        ).len(),
        count_of(played(s, color, p), opposite_of(color), n) + positions_where(
            |q: int| is_capture(s, color, p, q),
            n,
        ).len() == count_of(s, opposite_of(color), n) + if p < n {
            1int
        } else {
            0int
        },
    decreases n,
{
    lemma_run_implies_legal(s, color, p, 0);
    if n > 0 {
        lemma_count_played(s, color, p, n - 1);
        let q = n - 1;
        if q != p && in_run(s, color, p, q) {
            lemma_run_cell(s, color, p, q);
        }
    }
}

/// Playing a legal move adds the capture set's size to the mover's count (the new stone
/// and every flipped one) and takes one less than that from the opponent's.
pub proof fn lemma_score_after_play(s: Seq<Cell>, color: Cell, p: int)
    requires
        s.len() == 64,
        color != Cell::Empty,
        is_legal(s, color, p),
    ensures
        count_of(played(s, color, p), color, 64) == count_of(s, color, 64) + capture_positions(
            s,
            color,
            p,
        ).len(),
        count_of(played(s, color, p), opposite_of(color), 64) == count_of(s, opposite_of(color), 64)
            - (capture_positions(s, color, p).len() - 1),
{
    lemma_run_implies_legal(s, color, p, 0);
    lemma_count_played(s, color, p, 64);
}

/// The positions whose flag is set, in increasing order.
fn collect_flags(flags: &Vec<bool>) -> (r: Vec<usize>)
    requires
        flags@.len() == 64,
    ensures
        r@ == positions_where(flag_set(flags@), 64),
{
    let mut r: Vec<usize> = Vec::new();
    let mut i: usize = 0;
    while i < 64
        invariant
            i <= 64,
            flags@.len() == 64,
            r@ == positions_where(flag_set(flags@), i as int),
        decreases 64 - i,
    {
        if flags[i] {
            r.push(i);
        }
        i = i + 1;
    }
    r
}

/// Sixty-four cleared flags.
fn no_flags() -> (r: Vec<bool>)
    ensures
        r@ == Seq::new(64, |p: int| false),
{
    let mut r: Vec<bool> = Vec::new();
    let mut i: usize = 0;
    while i < 64
        invariant
            i <= 64,
            r@ == Seq::new(i as nat, |p: int| false),
        decreases 64 - i,
    {
        r.push(false);
        i = i + 1;
        assert(r@ =~= Seq::new(i as nat, |p: int| false));
    }
    r
}

/// `q` is among the first `i` entries of `v`.
spec fn listed_before(v: Seq<usize>, i: int, q: int) -> bool {
    exists|j: int| 0 <= j < i && #[trigger] v[j] as int == q
}

/// Whether `v` lists `p`.
fn contains_pos(v: &Vec<usize>, p: usize) -> (r: bool)
    ensures
        r == v@.contains(p),
{
    let mut i: usize = 0;
    while i < v.len()
        invariant
            i <= v@.len(),
            forall|j: int| 0 <= j < i ==> v@[j] != p,
        decreases v@.len() - i,
    {
        if v[i] == p {
            return true;
        }
        i = i + 1;
    }
    false
}

/// Unit step of direction `d`.
fn dir_delta(d: usize) -> (r: (i64, i64))
    requires
        d < 8,
    ensures
        r.0 == dir_dx(d as int),
        r.1 == dir_dy(d as int),
{
    if d == 0 {
        (0, -1)
    } else if d == 1 {
        (0, 1)
    } else if d == 2 {
        (1, 0)
    } else if d == 3 {
        (-1, 0)
    } else if d == 4 {
        (1, -1)
    } else if d == 5 {
        (-1, -1)
    } else if d == 6 {
        (1, 1)
    } else {
        (-1, 1)
    }
}

/// An 8×8 Othello board.
#[derive(Clone, Debug)]
pub struct BoardModel {
    cells: Vec<Cell>,
}

/// Another name for [`BoardModel`].
pub type Board = BoardModel;

impl View for BoardModel {
    type V = Seq<Cell>;

    closed spec fn view(&self) -> Seq<Cell> {
        self.cells@
    }
}

impl BoardModel {
    /// The board holds exactly 64 cells.
    pub closed spec fn wf(&self) -> bool {
        self.cells@.len() == 64
    }

    /// The opening position.
    pub fn new() -> (r: Self)
        ensures
            r.wf(),
            r@ == initial_cells(),
    {
        let mut cells: Vec<Cell> = Vec::new();
        let mut i: usize = 0;
        while i < 64
            invariant
                i <= 64,
                cells@ == Seq::new(i as nat, |p: int| Cell::Empty),
            decreases 64 - i,
        {
            cells.push(Cell::Empty);
            i = i + 1;
            assert(cells@ =~= Seq::new(i as nat, |p: int| Cell::Empty));
        }
        cells.set(3 * BOARD_SIZE + 3, Cell::White);
        cells.set(3 * BOARD_SIZE + 4, Cell::Black);
        cells.set(4 * BOARD_SIZE + 3, Cell::Black);
        cells.set(4 * BOARD_SIZE + 4, Cell::White);
        let r = BoardModel { cells };
        assert(r.cells@ =~= initial_cells());
        r
    }

    /// Reads a board drawn as text: spaces and line breaks are skipped, the remaining
    /// characters fill the cells in row-major order, `W` White, `B` Black and anything
    /// else empty. Cells past the end of the text are empty; characters past the 64th
    /// are ignored.
    pub fn from_string(boardstr: &str) -> (r: Self)
        ensures
            r.wf(),
            r@ == cells_of_text(board_chars(boardstr@)),
    {
        let n = boardstr.unicode_len();
        let mut cells: Vec<Cell> = Vec::new();
        let mut i: usize = 0;
        while i < 64
            invariant
                i <= 64,
                cells@ == Seq::new(i as nat, |p: int| Cell::Empty),
            decreases 64 - i,
        {
            cells.push(Cell::Empty);
            i = i + 1;
            assert(cells@ =~= Seq::new(i as nat, |p: int| Cell::Empty));
        }
        let mut idx: usize = 0;
        let mut j: usize = 0;
        while j < n
            invariant
                j <= n,
                n == boardstr@.len(),
                idx <= j,
                idx == board_chars(boardstr@.subrange(0, j as int)).len(),
                cells@ == cells_of_text(board_chars(boardstr@.subrange(0, j as int))),
            decreases n - j,
        {
            let ghost before = board_chars(boardstr@.subrange(0, j as int));
            let ch = boardstr.get_char(j);
            assert(boardstr@.subrange(0, j + 1).drop_last() == boardstr@.subrange(0, j as int));
            if ch != ' ' && ch != '\n' {
                if idx < 64 {
                    cells.set(idx, cell_of_char(ch));
                }
                idx = idx + 1;
            }
            j = j + 1;
            assert(cells@ =~= cells_of_text(board_chars(boardstr@.subrange(0, j as int))));
        }
        assert(boardstr@.subrange(0, n as int) == boardstr@);
        BoardModel { cells }
    }

    /// The cell at column `x`, row `y`.
    pub fn cell(&self, x: usize, y: usize) -> (r: &Cell)
        requires
            self.wf(),
            x < 8,
            y < 8,
        ensures
            *r == self@[pos_of(x as int, y as int)],
    {
        let pos = x + y * BOARD_SIZE;
        &self.cells[pos]
    }

    /// The cell at linear index `pos`.
    pub fn rawcell(&self, pos: usize) -> (r: &Cell)
        requires
            self.wf(),
            pos < 64,
        ensures
            *r == self@[pos as int],
    {
        &self.cells[pos]
    }

    proof fn lemma_view(&self)
        ensures
            self@ == self.cells@,
    {
    }

    /// Follows direction `d` from the stone of `color` at `(x, y)` over the opponent's
    /// stones; returns the empty cell that ends the run and the run's length, if any.
    /// The scan stops at the board's edges, so it never wraps to another row or column.
    fn walk(&self, x: usize, y: usize, d: usize, color: Cell) -> (r: Option<(usize, usize)>)
        requires
            self.wf(),
            x < 8,
            y < 8,
            d < 8,
            color != Cell::Empty,
            self@[pos_of(x as int, y as int)] == color,
        ensures
            match r {
                Some((e, k)) => reaches(self@, color, x as int, y as int, d as int, k as int)
                    && e as int == dest_of(x as int, y as int, d as int, k as int),
                None => forall|k: int| !#[trigger] reaches(self@, color, x as int, y as int, d as int, k),
            },
    {
        proof { self.lemma_view(); }
        let ghost s = self@;
        let (dx, dy) = dir_delta(d);
        let opp = color.opposite();
        let mut k: usize = 0;
        let mut cx: i64 = x as i64 + dx;
        let mut cy: i64 = y as i64 + dy;
        while 0 <= cx && cx < 8 && 0 <= cy && cy < 8 && self.cells[(cx + 8 * cy) as usize] == opp
            invariant
                s == self@,
                s == self.cells@,
                s.len() == 64,
                x < 8,
                y < 8,
                d < 8,
                dx == dir_dx(d as int),
                dy == dir_dy(d as int),
                opp == opposite_of(color),
                k <= 7,
                cx == ray_x(x as int, d as int, k + 1),
                cy == ray_y(y as int, d as int, k + 1),
                forall|i: int| 1 <= i <= k ==> #[trigger] ray_is(s, x as int, y as int, d as int, i, opp),
            decreases 7 - k,
        {
            assert(ray_is(s, x as int, y as int, d as int, k + 1, opp));
            k = k + 1;
            cx = cx + dx;
            cy = cy + dy;
        }
        if k >= 1 && 0 <= cx && cx < 8 && 0 <= cy && cy < 8 && self.cells[(cx + 8 * cy) as usize]
            == Cell::Empty {
            assert(ray_is(s, x as int, y as int, d as int, k + 1, Cell::Empty));
            Some(((cx + 8 * cy) as usize, k))
        } else {
            assert forall|k2: int| !#[trigger] reaches(s, color, x as int, y as int, d as int, k2) by {
                if reaches(s, color, x as int, y as int, d as int, k2) {
                    if k2 < k {
                        assert(ray_is(s, x as int, y as int, d as int, k2 + 1, opp));
                    } else if k2 > k {
                        assert(ray_is(s, x as int, y as int, d as int, k + 1, opp));
                    }
                }
            }
            None
        }
    }

    /// Sets the flag of each of the first `k` cells from `(x, y)` in direction `d`.
    fn mark_run(&self, x: usize, y: usize, d: usize, k: usize, color: Cell, runs: &mut Vec<bool>)
        requires
            old(runs)@.len() == 64,
            reaches(self@, color, x as int, y as int, d as int, k as int),
        ensures
            final(runs)@.len() == 64,
            forall|q: int|
                0 <= q < 64 ==> #[trigger] final(runs)@[q] == (old(runs)@[q] || run_hits(
                    x as int,
                    y as int,
                    d as int,
                    k as int,
                    q,
                )),
    {
        let ghost s = self@;
        proof {
            lemma_ray_bounds(s, color, x as int, y as int, d as int, k as int);
        }
        let (dx, dy) = dir_delta(d);
        let mut i: usize = 1;
        let mut cx: i64 = x as i64 + dx;
        let mut cy: i64 = y as i64 + dy;
        while i <= k
            invariant
                1 <= i <= k + 1,
                k <= 6,
                x < 8,
                y < 8,
                d < 8,
                dx == dir_dx(d as int),
                dy == dir_dy(d as int),
                cx == ray_x(x as int, d as int, i as int),
                cy == ray_y(y as int, d as int, i as int),
                reaches(s, color, x as int, y as int, d as int, k as int),
                runs@.len() == 64,
                forall|q: int|
                    0 <= q < 64 ==> #[trigger] runs@[q] == (old(runs)@[q] || run_hits(
                        x as int,
                        y as int,
                        d as int,
                        i - 1,
                        q,
                    )),
            decreases k + 1 - i,
        {
            assert(ray_is(s, x as int, y as int, d as int, i as int, opposite_of(color)));
            let hit = (cx + 8 * cy) as usize;
            runs.set(hit, true);
            assert forall|q: int|
                0 <= q < 64 implies #[trigger] runs@[q] == (old(runs)@[q] || run_hits(
                    x as int,
                    y as int,
                    d as int,
                    i as int,
                    q,
                )) by {
                if run_hits(x as int, y as int, d as int, i as int, q) {
                    let j = choose|j: int|
                        1 <= j <= i && #[trigger] ray_pos(x as int, y as int, d as int, j) == q;
                    if j < i {
                        assert(run_hits(x as int, y as int, d as int, i - 1, q));
                    }
                }
                if run_hits(x as int, y as int, d as int, i - 1, q) {
                    let j = choose|j: int|
                        1 <= j <= i - 1 && #[trigger] ray_pos(x as int, y as int, d as int, j) == q;
                    assert(1 <= j <= i && ray_pos(x as int, y as int, d as int, j) == q);
                }
                if q == hit {
                    assert(ray_pos(x as int, y as int, d as int, i as int) == q);
                }
            }
            i = i + 1;
            cx = cx + dx;
            cy = cy + dy;
        }
    }

    /// The legal destinations of `cell`, in increasing order. When `pos` is given, the
    /// capture set of playing `cell` there (destination included, in increasing order;
    /// empty when `pos` is not legal) is appended to `matched`.
    ///
    /// Every stone of `cell` is followed in the eight directions; a destination reached
    /// several ways is listed once, and its capture set is the union of all runs ending
    /// there.
    pub fn get_possibilities_collect_pos(
        &self,
        cell: Cell,
        pos: Option<usize>,
        matched: &mut Vec<usize>,
    ) -> (r: Vec<usize>)
        requires
            self.wf(),
            cell != Cell::Empty,
        ensures
            r@ == legal_positions(self@, cell),
            final(matched)@ == old(matched)@ + match pos {
                Some(p) => capture_positions(self@, cell, p as int),
                None => Seq::<usize>::empty(),
            },
    {
        let ghost s = self@;
        proof {
            self.lemma_view();
        }
        let target: usize = match pos {
            Some(p) => p,
            None => 64,
        };
        let mut dests = no_flags();
        let mut runs = no_flags();
        let mut src: usize = 0;
        while src < 64
            invariant
                src <= 64,
                self.wf(),
                s == self@,
                s == self.cells@,
                cell != Cell::Empty,
                dests@.len() == 64,
                runs@.len() == 64,
                forall|p: int|
                    0 <= p < 64 ==> #[trigger] dests@[p] == legal_upto(s, cell, p, 8 * src),
                forall|q: int|
                    0 <= q < 64 ==> #[trigger] runs@[q] == run_upto(
                        s,
                        cell,
                        target as int,
                        q,
                        8 * src,
                    ),
            decreases 64 - src,
        {
            let x = src % 8;
            let y = src / 8;
            assert(pos_of(x as int, y as int) == src);
            if self.cells[src] == cell {
                let mut d: usize = 0;
                while d < 8
                    invariant
                        d <= 8,
                        src < 64,
                        x < 8,
                        y < 8,
                        pos_of(x as int, y as int) == src,
                        self.wf(),
                        s == self@,
                        s == self.cells@,
                        s[src as int] == cell,
                        cell != Cell::Empty,
                        dests@.len() == 64,
                        runs@.len() == 64,
                        forall|p: int|
                            0 <= p < 64 ==> #[trigger] dests@[p] == legal_upto(
                                s,
                                cell,
                                p,
                                8 * src + d,
                            ),
                        forall|q: int|
                            0 <= q < 64 ==> #[trigger] runs@[q] == run_upto(
                                s,
                                cell,
                                target as int,
                                q,
                                8 * src + d,
                            ),
                    decreases 8 - d,
                {
                    let ghost n = 8 * src + d;
                    let ghost d0 = dests@;
                    let ghost r0 = runs@;
                    assert(ray_code(x as int, y as int, d as int) == n);
                    match self.walk(x, y, d, cell) {
                        Some((e, k)) => {
                            proof {
                                lemma_step_some(s, cell, x as int, y as int, d as int, k as int);
                                lemma_ray_bounds(s, cell, x as int, y as int, d as int, k as int);
                            }
                            dests.set(e, true);
                            if e == target {
                                self.mark_run(x, y, d, k, cell, &mut runs);
                            }
                        },
                        None => {
                            proof {
                                lemma_step_none(s, cell, x as int, y as int, d as int);
                            }
                        },
                    }
                    assert forall|p: int| 0 <= p < 64 implies #[trigger] dests@[p] == legal_upto(
                        s,
                        cell,
                        p,
                        n + 1,
                    ) by {
                        assert(d0[p] == legal_upto(s, cell, p, n));
                        assert(legal_upto(s, cell, p, ray_code(x as int, y as int, d as int) + 1)
                            == legal_upto(s, cell, p, n + 1));
                    }
                    assert forall|q: int| 0 <= q < 64 implies #[trigger] runs@[q] == run_upto(
                        s,
                        cell,
                        target as int,
                        q,
                        n + 1,
                    ) by {
                        assert(r0[q] == run_upto(s, cell, target as int, q, n));
                        assert(run_upto(
                            s,
                            cell,
                            target as int,
                            q,
                            ray_code(x as int, y as int, d as int) + 1,
                        ) == run_upto(s, cell, target as int, q, n + 1));
                    }
                    d = d + 1;
                }
            } else {
                proof {
                    lemma_skip_cell(s, cell, x as int, y as int, 8);
                }
            }
            src = src + 1;
        }
        proof {
            lemma_upto_all(s, cell);
        }
        if target < 64 && dests[target] {
            runs.set(target, true);
        }
        proof {
            assert forall|q: int| 0 <= q < 64 implies #[trigger] flag_set(runs@)(q) == is_capture(
                s,
                cell,
                target as int,
                q,
            ) by {
                lemma_run_implies_legal(s, cell, target as int, q);
            }
            assert forall|p: int| 0 <= p < 64 implies #[trigger] flag_set(dests@)(p) == is_legal(
                s,
                cell,
                p,
            ) by {}
            lemma_positions_ext(flag_set(runs@), |q: int| is_capture(s, cell, target as int, q), 64);
            lemma_positions_ext(flag_set(dests@), |p: int| is_legal(s, cell, p), 64);
        }
        let mut captured = collect_flags(&runs);
        proof {
            if pos is None {
                assert forall|q: int| 0 <= q < 64 implies !#[trigger] is_capture(s, cell, 64, q) by {
                    lemma_run_implies_legal(s, cell, 64, q);
                }
                lemma_positions_none(|q: int| is_capture(s, cell, 64, q), 64);
            }
        }
        matched.append(&mut captured);
        collect_flags(&dests)
    }

    /// The legal destinations of `cell`, in increasing order.
    pub fn get_possibilities(&self, cell: Cell) -> (r: Vec<usize>)
        requires
            self.wf(),
            cell != Cell::Empty,
        ensures
            r@ == legal_positions(self@, cell),
    {
        let mut unused: Vec<usize> = Vec::new();
        self.get_possibilities_collect_pos(cell, None, &mut unused)
    }

    /// Plays `cell` at `(x, y)`: rejected, with the board unchanged, unless the cell is on
    /// the board and a legal destination; otherwise the cell and its whole capture set
    /// take `cell`.
    pub fn set_cell(&mut self, x: usize, y: usize, cell: Cell) -> (r: Result<(), ()>)
        requires
            old(self).wf(),
            cell != Cell::Empty,
        ensures
            final(self).wf(),
            r is Ok <==> (x < 8 && y < 8 && is_legal(old(self)@, cell, pos_of(x as int, y as int))),
            r is Ok ==> final(self)@ == played(old(self)@, cell, pos_of(x as int, y as int)),
            r is Err ==> *final(self) == *old(self),
    {
        let ghost s = self@;
        proof {
            self.lemma_view();
        }
        if x >= 8 || y >= 8 {
            proof {
                lemma_run_implies_legal(s, cell, pos_of(x as int, y as int), 0);
            }
            return Err(());
        }
        let pos = x + y * 8;
        let mut collected: Vec<usize> = Vec::new();
        let legal = self.get_possibilities_collect_pos(cell, Some(pos), &mut collected);
        proof {
            lemma_positions_where(|p: int| is_legal(s, cell, p), 64);
            lemma_positions_where(|q: int| is_capture(s, cell, pos as int, q), 64);
            assert(collected@ == capture_positions(s, cell, pos as int));
        }
        if !contains_pos(&legal, pos) {
            return Err(());
        }
        let mut i: usize = 0;
        while i < collected.len()
            invariant
                i <= collected@.len(),
                collected@ == capture_positions(s, cell, pos as int),
                forall|j: int| 0 <= j < collected@.len() ==> #[trigger] collected@[j] < 64,
                self.cells@.len() == 64,
                forall|q: int|
                    0 <= q < 64 ==> #[trigger] self.cells@[q] == if listed_before(
                        collected@,
                        i as int,
                        q,
                    ) {
                        cell
                    } else {
                        s[q]
                    },
            decreases collected@.len() - i,
        {
            let q = collected[i];
            self.cells.set(q, cell);
            proof {
                assert forall|q2: int|
                    0 <= q2 < 64 implies (listed_before(collected@, i + 1, q2) <==> (listed_before(
                    collected@,
                    i as int,
                    q2,
                ) || q2 == q)) by {
                    if listed_before(collected@, i + 1, q2) {
                        let j = choose|j: int| 0 <= j < i + 1 && #[trigger] collected@[j] as int == q2;
                        if j < i {
                            assert(listed_before(collected@, i as int, q2));
                        }
                    }
                    if q2 == q {
                        assert(collected@[i as int] as int == q2);
                    }
                }
            }
            i = i + 1;
        }
        proof {
            assert forall|q: int| 0 <= q < 64 implies listed_before(collected@, collected@.len() as int, q)
                == is_capture(s, cell, pos as int, q) by {
                if listed_before(collected@, collected@.len() as int, q) {
                    let j = choose|j: int|
                        0 <= j < collected@.len() && #[trigger] collected@[j] as int == q;
                }
                if is_capture(s, cell, pos as int, q) {
                    assert(collected@.contains(q as usize));
                }
            }
            assert(self@ =~= played(s, cell, pos as int));
        }
        Ok(())
    }

    /// The number of Black stones and the number of White stones.
    pub fn score(&self) -> (r: (usize, usize))
        requires
            self.wf(),
        ensures
            r.0 == count_of(self@, Cell::Black, 64),
            r.1 == count_of(self@, Cell::White, 64),
    {
        proof {
            self.lemma_view();
        }
        let mut black: usize = 0;
        let mut white: usize = 0;
        let mut i: usize = 0;
        while i < 64
            invariant
                i <= 64,
                self.cells@.len() == 64,
                self@ == self.cells@,
                black == count_of(self@, Cell::Black, i as int),
                white == count_of(self@, Cell::White, i as int),
                black + white <= i,
            decreases 64 - i,
        {
            match self.cells[i] {
                Cell::Black => black = black + 1,
                Cell::White => white = white + 1,
                Cell::Empty => {},
            }
            i = i + 1;
        }
        (black, white)
    }
}

} // verus!
