//! The heuristic scorer: how good a board looks for one agent.
//!
//! A score is the sum of four terms: the generation that was reached, a bonus
//! for a head near the centre of the grid, the agent's health, and the
//! number of free cells that the head can reach.

use vstd::prelude::*;
use crate::requests::{coords, Board, BoardView, Coord, Point, Snake};
use crate::responses::Movement;
use crate::simulator::advance;

verus! {

/// `to` is one step from `from`.
pub open spec fn adjacent(from: Coord, to: Coord) -> bool {
    exists|m: Movement| #[trigger] advance(from, m) == to
}

/// The path lies on free cells and goes from each cell to one next to it.
pub open spec fn walk(b: BoardView, path: Seq<Coord>) -> bool {
    &&& path.len() >= 1
    &&& forall|k: int| 0 <= k < path.len() ==> b.free(#[trigger] path[k])
    &&& forall|k: int|
        #![trigger path[k]]
        0 <= k < path.len() - 1 ==> adjacent(path[k], path[k + 1])
}

/// The path is a walk from `from` to `to`.
pub open spec fn joins(b: BoardView, path: Seq<Coord>, from: Coord, to: Coord) -> bool {
    walk(b, path) && path[0] == from && path[path.len() - 1] == to
}

/// Some walk leads from `from` to `to`. Both ends are free cells then.
pub open spec fn reaches(b: BoardView, from: Coord, to: Coord) -> bool {
    exists|path: Seq<Coord>| #[trigger] joins(b, path, from, to)
}

/// The cells that can be reached from `from`. The fill does not wrap at the
/// edges, and it does not enter a cell on which a body segment behind a head
/// lies.
pub open spec fn region(b: BoardView, from: Coord) -> Set<Coord> {
    Set::new(|c: Coord| reaches(b, from, c))
}

/// What the fill reaches is free: it lies on the grid, and no body segment
/// behind a head lies on it.
pub proof fn lemma_region_free(b: BoardView, from: Coord, c: Coord)
    requires
        region(b, from).contains(c),
    ensures
        b.free(c),
        b.contains(c),
        !b.blocked(c),
{
    let path = choose|path: Seq<Coord>| #[trigger] joins(b, path, from, c);
    assert(b.free(path[path.len() - 1]));
}

/// The bonus for a head near the centre: a quarter of what 100 exceeds the
/// squared distance from the centre by, and nothing where it does not.
pub open spec fn centering(b: BoardView, head: Coord) -> int {
    let dx = head.x - b.width / 2;
    let dy = head.y - b.height / 2;
    let closeness = 100 - dx * dx - dy * dy;
    if closeness > 0 {
        closeness / 4
    } else {
        0
    }
}

/// The score of the board for agent `i` at a generation.
pub open spec fn score_of(b: BoardView, i: int, generation: int) -> int {
    generation + centering(b, b.snakes[i].head()) + b.snakes[i].health + region(
        b,
        b.snakes[i].head(),
    ).len()
}

/// The place of a cell in a grid that is stored row by row.
pub open spec fn cell_index(b: BoardView, c: Coord) -> int {
    c.x + c.y * b.width
}

/// The cells of the grid have places `0..area`, each cell its own.
proof fn lemma_cell_index(b: BoardView, c: Coord, d: Coord)
    requires
        b.contains(c),
        b.contains(d),
    ensures
        0 <= cell_index(b, c) < b.area(),
        cell_index(b, c) == cell_index(b, d) ==> c == d,
{
    let w = b.width;
    let h = b.height;
    assert(0 <= c.x + c.y * w < w * h) by (nonlinear_arith)
        requires
            0 <= c.x < w,
            0 <= c.y < h,
    ;
    if cell_index(b, c) == cell_index(b, d) {
        assert(c.y == d.y) by (nonlinear_arith)
            requires
                0 <= c.x < w,
                0 <= d.x < w,
                c.x + c.y * w == d.x + d.y * w,
        ;
    }
}

/// The cells of the grid.
pub open spec fn grid(b: BoardView) -> Set<Coord> {
    Set::new(|c: Coord| b.contains(c))
}

/// The cells of the grid whose place is before `n`.
spec fn grid_before(b: BoardView, n: int) -> Set<Coord> {
    Set::new(|c: Coord| b.contains(c) && cell_index(b, c) < n)
}

proof fn lemma_grid_before(b: BoardView, n: int)
    requires
        0 <= b.width,
        0 <= b.height,
        0 <= n <= b.area(),
    ensures
        grid_before(b, n).finite(),
        grid_before(b, n).len() == n,
    decreases n,
{
    if n == 0 {
        assert forall|c: Coord| !grid_before(b, 0).contains(c) by {
            if b.contains(c) {
                lemma_cell_index(b, c, c);
            }
        }
        assert(grid_before(b, 0) =~= Set::empty());
    } else {
        lemma_grid_before(b, n - 1);
        let w = b.width;
        let h = b.height;
        let m = n - 1;
        assert(w > 0) by (nonlinear_arith)
            requires
                0 <= w,
                0 <= h,
                0 < w * h,
        ;
        vstd::arithmetic::div_mod::lemma_fundamental_div_mod(m, w);
        vstd::arithmetic::div_mod::lemma_mod_pos_bound(m, w);
        vstd::arithmetic::div_mod::lemma_div_pos_is_pos(m, w);
        let x = m % w;
        let y = m / w;
        assert(y < h && m == x + y * w) by (nonlinear_arith)
            requires
                0 <= x < w,
                0 <= y,
                m == w * y + x,
                m < w * h,
        ;
        let last = Coord { x, y };
        assert(b.contains(last) && cell_index(b, last) == m);
        assert forall|c: Coord|
            grid_before(b, n).contains(c) <==> grid_before(b, m).insert(last).contains(c) by {
            if b.contains(c) && cell_index(b, c) == m {
                lemma_cell_index(b, c, last);
            }
        }
        assert(grid_before(b, n) =~= grid_before(b, m).insert(last));
    }
}

/// The grid has as many cells as its extent says.
pub proof fn lemma_grid(b: BoardView)
    requires
        0 <= b.width,
        0 <= b.height,
    ensures
        grid(b).finite(),
        grid(b).len() == b.area(),
{
    assert(0 <= b.area()) by (nonlinear_arith)
        requires
            0 <= b.width,
            0 <= b.height,
            b.area() == b.width * b.height,
    ;
    lemma_grid_before(b, b.area());
    assert forall|c: Coord| grid(b).contains(c) implies grid_before(b, b.area()).contains(c) by {
        lemma_cell_index(b, c, c);
    }
    assert(grid(b) =~= grid_before(b, b.area()));
}

/// What the fill reaches from any cell lies on the grid, so that it counts
/// no more cells than the grid has.
pub proof fn lemma_region_bounded(b: BoardView, from: Coord)
    requires
        0 <= b.width,
        0 <= b.height,
    ensures
        region(b, from).subset_of(grid(b)),
        region(b, from).finite(),
        region(b, from).len() <= b.area(),
{
    lemma_grid(b);
    assert forall|c: Coord| region(b, from).contains(c) implies grid(b).contains(c) by {
        lemma_region_free(b, from, c);
    }
    vstd::set_lib::lemma_len_subset(region(b, from), grid(b));
}

/// The score of an agent on a board on which a search can run fits a
/// machine word of 64 bits.
pub proof fn lemma_score_bounds(b: BoardView, i: int, generation: int)
    requires
        b.playable(),
        0 <= i < b.snakes.len(),
        0 <= generation <= u32::MAX,
    ensures
        0 <= score_of(b, i, generation) <= u64::MAX,
{
    let head = b.snakes[i].head();
    assert(b.snakes[i].wf());
    lemma_region_bounded(b, head);
    let dx = head.x - b.width / 2;
    let dy = head.y - b.height / 2;
    assert(0 <= dx * dx && 0 <= dy * dy) by (nonlinear_arith);
    assert(0 <= centering(b, head) <= 25);
    assert(b.area() <= 0x4000_0000_0000_0000) by (nonlinear_arith)
        requires
            0 <= b.width <= 0x7fff_ffff,
            0 <= b.height <= 0x7fff_ffff,
            b.area() == b.width * b.height,
    ;
}

/// The number of marks in a grid.
spec fn marks(taken: Seq<bool>) -> nat
    decreases taken.len(),
{
    if taken.len() == 0 {
        0
    } else {
        marks(taken.drop_last()) + if taken.last() {
            1nat
        } else {
            0nat
        }
    }
}

proof fn lemma_marks_bound(taken: Seq<bool>)
    ensures
        marks(taken) <= taken.len(),
    decreases taken.len(),
{
    if taken.len() > 0 {
        lemma_marks_bound(taken.drop_last());
    }
}

proof fn lemma_marks_none(taken: Seq<bool>)
    requires
        forall|i: int| 0 <= i < taken.len() ==> !taken[i],
    ensures
        marks(taken) == 0,
    decreases taken.len(),
{
    if taken.len() > 0 {
        lemma_marks_none(taken.drop_last());
    }
}

proof fn lemma_marks_new(taken: Seq<bool>, i: int)
    requires
        0 <= i < taken.len(),
        !taken[i],
    ensures
        marks(taken.update(i, true)) == marks(taken) + 1,
    decreases taken.len(),
{
    let after = taken.update(i, true);
    if i == taken.len() - 1 {
        assert(after.drop_last() =~= taken.drop_last());
    } else {
        lemma_marks_new(taken.drop_last(), i);
        assert(after.drop_last() =~= taken.drop_last().update(i, true));
    }
}

/// The state of a fill that is under way: the cells counted so far, the cells
/// still to look at, and the marks on the grid.
struct Fill {
    seen: Set<Coord>,
    pending: Seq<Coord>,
    taken: Seq<bool>,
}

impl Fill {
    /// `c` is the start of the fill or lies next to a counted cell.
    spec fn sourced(self, from: Coord, c: Coord) -> bool {
        c == from || exists|q: Coord| self.seen.contains(q) && #[trigger] adjacent(q, c)
    }

    /// `c` is counted, or cannot be entered, or is still to be looked at.
    spec fn settled(self, b: BoardView, c: Coord) -> bool {
        self.seen.contains(c) || !b.free(c) || self.pending.contains(c)
    }

    #[verifier::opaque]
    spec fn inv(self, b: BoardView, from: Coord) -> bool {
        &&& self.taken.len() == b.area()
        &&& self.seen.finite()
        &&& self.seen.len() <= marks(self.taken)
        &&& forall|c: Coord| #[trigger]
            self.seen.contains(c) ==> b.free(c) && self.taken[cell_index(b, c)] && reaches(
                b,
                from,
                c,
            )
        &&& forall|c: Coord|
            b.free(c) && self.taken[cell_index(b, c)] ==> #[trigger] self.seen.contains(c)
        &&& forall|k: int|
            0 <= k < self.pending.len() ==> self.sourced(from, #[trigger] self.pending[k])
        &&& forall|q: Coord, m: Movement|
            self.seen.contains(q) ==> self.settled(b, #[trigger] advance(q, m))
        &&& self.settled(b, from)
    }

    /// The fill before anything was looked at.
    spec fn begin(b: BoardView, from: Coord, taken: Seq<bool>) -> Fill {
        Fill { seen: Set::empty(), pending: seq![from], taken }
    }

    /// The fill after the last pending cell was dropped, marked or not.
    spec fn dropped(self, taken: Seq<bool>) -> Fill {
        Fill { seen: self.seen, pending: self.pending.drop_last(), taken }
    }

    /// The fill after the last pending cell was counted and its neighbours
    /// were noted.
    spec fn counted(self, taken: Seq<bool>) -> Fill {
        let c = self.pending.last();
        Fill {
            seen: self.seen.insert(c),
            pending: self.pending.drop_last().push(advance(c, Movement::Right)).push(
                advance(c, Movement::Left),
            ).push(advance(c, Movement::Up)).push(advance(c, Movement::Down)),
            taken,
        }
    }
}

proof fn lemma_fill_begin(b: BoardView, from: Coord, taken: Seq<bool>)
    requires
        taken.len() == b.area(),
        forall|i: int| 0 <= i < taken.len() ==> !taken[i],
    ensures
        Fill::begin(b, from, taken).inv(b, from),
{
    reveal(Fill::inv);
    let f = Fill::begin(b, from, taken);
    lemma_marks_none(taken);
    assert(f.pending[0] == from);
    assert forall|c: Coord| b.free(c) && f.taken[cell_index(b, c)] implies #[trigger]
        f.seen.contains(c) by {
        lemma_cell_index(b, c, c);
    }
}

/// A walk can be made one step longer.
proof fn lemma_reach_step(b: BoardView, from: Coord, via: Coord, to: Coord)
    requires
        reaches(b, from, via),
        adjacent(via, to),
        b.free(to),
    ensures
        reaches(b, from, to),
{
    let path = choose|path: Seq<Coord>| #[trigger] joins(b, path, from, via);
    let longer = path.push(to);
    assert forall|k: int| 0 <= k < longer.len() implies b.free(#[trigger] longer[k]) by {
        if k < path.len() {
            assert(longer[k] == path[k]);
        }
    }
    assert forall|k: int| #![trigger longer[k]] 0 <= k < longer.len() - 1 implies adjacent(
        longer[k],
        longer[k + 1],
    ) by {
        if k < path.len() - 1 {
            assert(longer[k] == path[k]);
            assert(longer[k + 1] == path[k + 1]);
        }
    }
    assert(joins(b, longer, from, to));
}

/// A free cell reaches itself.
proof fn lemma_reach_self(b: BoardView, from: Coord)
    requires
        b.free(from),
    ensures
        reaches(b, from, from),
{
    let path = seq![from];
    assert(joins(b, path, from, from));
}

/// Dropping a pending cell that is off the grid, marked already or blocked
/// keeps the fill in order.
proof fn lemma_fill_dropped(f: Fill, b: BoardView, from: Coord, taken: Seq<bool>)
    requires
        f.inv(b, from),
        f.pending.len() > 0,
        ({
            let c = f.pending.last();
            ||| !b.contains(c) && taken == f.taken
            ||| b.contains(c) && f.taken[cell_index(b, c)] && taken == f.taken
            ||| b.contains(c) && !f.taken[cell_index(b, c)] && b.blocked(c) && taken
                == f.taken.update(cell_index(b, c), true)
        }),
    ensures
        f.dropped(taken).inv(b, from),
        taken.len() == f.taken.len(),
        marks(taken) >= marks(f.taken),
        taken != f.taken ==> marks(taken) == marks(f.taken) + 1,
{
    reveal(Fill::inv);
    let g = f.dropped(taken);
    let c = f.pending.last();
    if taken != f.taken {
        lemma_cell_index(b, c, c);
        lemma_marks_new(f.taken, cell_index(b, c));
    }
    assert(g.seen.contains(c) || !b.free(c));
    assert forall|x: Coord| #[trigger] g.seen.contains(x) implies b.free(x) && g.taken[cell_index(
        b,
        x,
    )] && reaches(b, from, x) by {
        lemma_cell_index(b, x, x);
    }
    assert forall|x: Coord| b.free(x) && g.taken[cell_index(b, x)] implies #[trigger]
        g.seen.contains(x) by {
        lemma_cell_index(b, x, x);
        if taken != f.taken {
            lemma_cell_index(b, x, c);
        }
    }
    assert forall|k: int| 0 <= k < g.pending.len() implies g.sourced(
        from,
        #[trigger] g.pending[k],
    ) by {
        assert(g.pending[k] == f.pending[k]);
    }
    assert forall|x: Coord| f.settled(b, x) implies g.settled(b, x) by {
        if f.pending.contains(x) && x != c {
            let k = choose|k: int| 0 <= k < f.pending.len() && f.pending[k] == x;
            assert(g.pending[k] == x);
        }
    }
    assert forall|q: Coord, m: Movement| g.seen.contains(q) implies g.settled(
        b,
        #[trigger] advance(q, m),
    ) by {
        assert(f.settled(b, advance(q, m)));
    }
}

/// Counting a pending cell that is free and not marked yet, and noting its
/// four neighbours, keeps the fill in order.
proof fn lemma_fill_counted(f: Fill, b: BoardView, from: Coord, taken: Seq<bool>)
    requires
        f.inv(b, from),
        f.pending.len() > 0,
        b.free(f.pending.last()),
        !f.taken[cell_index(b, f.pending.last())],
        taken == f.taken.update(cell_index(b, f.pending.last()), true),
    ensures
        f.counted(taken).inv(b, from),
        f.counted(taken).seen.len() == f.seen.len() + 1,
        marks(taken) == marks(f.taken) + 1,
{
    reveal(Fill::inv);
    let g = f.counted(taken);
    let c = f.pending.last();
    let n = f.pending.len() - 1;
    lemma_cell_index(b, c, c);
    lemma_marks_new(f.taken, cell_index(b, c));
    assert(!f.seen.contains(c));
    assert(f.sourced(from, f.pending[n]));
    assert(reaches(b, from, c)) by {
        if c == from {
            lemma_reach_self(b, from);
        } else {
            let q = choose|q: Coord| f.seen.contains(q) && #[trigger] adjacent(q, c);
            lemma_reach_step(b, from, q, c);
        }
    }
    assert forall|x: Coord| #[trigger] g.seen.contains(x) implies b.free(x) && g.taken[cell_index(
        b,
        x,
    )] && reaches(b, from, x) by {
        lemma_cell_index(b, x, x);
    }
    assert forall|x: Coord| b.free(x) && g.taken[cell_index(b, x)] implies #[trigger]
        g.seen.contains(x) by {
        lemma_cell_index(b, x, c);
    }
    assert forall|k: int| 0 <= k < g.pending.len() implies g.sourced(
        from,
        #[trigger] g.pending[k],
    ) by {
        if k < n {
            assert(g.pending[k] == f.pending[k]);
            assert(f.sourced(from, f.pending[k]));
            if g.pending[k] != from {
                let q = choose|q: Coord| f.seen.contains(q) && #[trigger] adjacent(q, f.pending[k]);
                assert(g.seen.contains(q) && adjacent(q, g.pending[k]));
            }
        } else {
            let m = if k == n {
                Movement::Right
            } else if k == n + 1 {
                Movement::Left
            } else if k == n + 2 {
                Movement::Up
            } else {
                Movement::Down
            };
            assert(advance(c, m) == g.pending[k]);
            assert(g.seen.contains(c) && adjacent(c, g.pending[k]));
        }
    }
    assert forall|x: Coord| f.settled(b, x) implies g.settled(b, x) by {
        if f.pending.contains(x) && x != c {
            let k = choose|k: int| 0 <= k < f.pending.len() && f.pending[k] == x;
            assert(g.pending[k] == x);
        }
    }
    assert forall|q: Coord, m: Movement| g.seen.contains(q) implies g.settled(
        b,
        #[trigger] advance(q, m),
    ) by {
        if q == c {
            match m {
                Movement::Right => {
                    assert(g.pending[n] == advance(c, m));
                },
                Movement::Left => {
                    assert(g.pending[n + 1] == advance(c, m));
                },
                Movement::Up => {
                    assert(g.pending[n + 2] == advance(c, m));
                },
                Movement::Down => {
                    assert(g.pending[n + 3] == advance(c, m));
                },
            }
        } else {
            assert(f.settled(b, advance(q, m)));
        }
    }
}

/// Every cell on a walk from the start is counted once nothing is pending.
proof fn lemma_fill_walk(f: Fill, b: BoardView, from: Coord, path: Seq<Coord>, k: int)
    requires
        f.inv(b, from),
        f.pending.len() == 0,
        walk(b, path),
        path[0] == from,
        0 <= k < path.len(),
    ensures
        f.seen.contains(path[k]),
    decreases k,
{
    reveal(Fill::inv);
    if k == 0 {
        assert(f.settled(b, from));
    } else {
        lemma_fill_walk(f, b, from, path, k - 1);
        assert(adjacent(path[k - 1], path[k - 1 + 1]));
        let m = choose|m: Movement| #[trigger] advance(path[k - 1], m) == path[k];
        assert(f.settled(b, advance(path[k - 1], m)));
    }
}

/// Once nothing is pending, the counted cells are the region.
proof fn lemma_fill_done(f: Fill, b: BoardView, from: Coord)
    requires
        f.inv(b, from),
        f.pending.len() == 0,
    ensures
        f.seen == region(b, from),
        f.seen.finite(),
        f.seen.len() <= marks(f.taken),
{
    reveal(Fill::inv);
    assert forall|c: Coord| region(b, from).contains(c) implies f.seen.contains(c) by {
        let path = choose|path: Seq<Coord>| #[trigger] joins(b, path, from, c);
        lemma_fill_walk(f, b, from, path, path.len() - 1);
    }
    assert(f.seen =~= region(b, from));
}

/// Tells whether a body segment behind the head of the agent lies on `cell`.
fn covers(snake: &Snake, cell: Point) -> (hit: bool)
    ensures
        hit == snake@.covers(cell@),
{
    let mut k: usize = 1;
    while k < snake.body.len()
        invariant
            1 <= k,
            forall|m: int| 1 <= m < k && m < snake@.body.len() ==> snake@.body[m] != cell@,
        decreases snake.body@.len() - k,
    {
        if snake.body[k] == cell {
            assert(snake@.body[k as int] == cell@);
            return true;
        }
        k += 1;
    }
    false
}

/// Tells whether a body segment behind the head of any agent lies on `cell`.
fn is_blocked(board: &Board, cell: Point) -> (hit: bool)
    ensures
        hit == board@.blocked(cell@),
{
    let mut i: usize = 0;
    while i < board.snakes.len()
        invariant
            i <= board.snakes@.len(),
            forall|j: int| 0 <= j < i ==> !(#[trigger] board@.snakes[j]).covers(cell@),
        decreases board.snakes@.len() - i,
    {
        if covers(&board.snakes[i], cell) {
            assert(board@.snakes[i as int].covers(cell@));
            return true;
        }
        i += 1;
    }
    false
}

/// Counts the free cells that can be reached from `from` by steps in the four
/// directions.
pub fn free_space(board: &Board, from: Point) -> (count: usize)
    requires
        board@.wf(),
        board@.area() <= usize::MAX,
    ensures
        count == region(board@, from@).len(),
        region(board@, from@).finite(),
        count <= board@.area(),
        forall|c: Coord| #[trigger] region(board@, from@).contains(c) ==> board@.free(c),
{
    assert forall|c: Coord| #[trigger] region(board@, from@).contains(c) implies board@.free(
        c,
    ) by {
        lemma_region_free(board@, from@, c);
    }
    let width = board.width as usize;
    let height = board.height as usize;
    assert(width * height == board@.area()) by (nonlinear_arith)
        requires
            width == board@.width,
            height == board@.height,
    ;
    let cells = width * height;
    let mut taken: Vec<bool> = vec![false; cells];
    let mut stack: Vec<Point> = Vec::new();
    stack.push(from);
    let mut count: usize = 0;
    let ghost mut fill = Fill::begin(board@, from@, taken@);
    proof {
        lemma_fill_begin(board@, from@, taken@);
        lemma_marks_bound(taken@);
        assert(coords(stack@) =~= fill.pending);
    }
    while stack.len() > 0
        invariant
            board@.wf(),
            width == board@.width,
            height == board@.height,
            cells == board@.area(),
            fill.inv(board@, from@),
            taken@.len() == cells,
            fill.taken == taken@,
            fill.pending == coords(stack@),
            fill.seen.len() == count,
            count <= marks(taken@) <= cells,
        decreases cells - marks(taken@), stack@.len(),
    {
        let ghost before = fill;
        let ghost marked = marks(taken@);
        let cell = stack.pop().unwrap();
        assert(coords(stack@) =~= before.pending.drop_last());
        assert(cell@ == before.pending.last());
        if cell.x < 0 || cell.y < 0 || cell.x >= board.width || cell.y >= board.height {
            proof {
                lemma_fill_dropped(before, board@, from@, taken@);
                fill = before.dropped(taken@);
            }
        } else {
            proof {
                lemma_cell_index(board@, cell@, cell@);
            }
            assert(cell.y as usize * width == cell@.y * board@.width) by (nonlinear_arith)
                requires
                    width == board@.width,
                    0 <= cell.y,
                    cell.y as usize == cell@.y,
            ;
            let at = cell.x as usize + cell.y as usize * width;
            if taken[at] {
                proof {
                    lemma_fill_dropped(before, board@, from@, taken@);
                    fill = before.dropped(taken@);
                }
            } else {
                taken.set(at, true);
                proof {
                    lemma_marks_bound(taken@);
                    lemma_marks_new(before.taken, at as int);
                }
                assert(marks(taken@) == marked + 1);
                if is_blocked(board, cell) {
                    proof {
                        lemma_fill_dropped(before, board@, from@, taken@);
                        fill = before.dropped(taken@);
                    }
                } else {
                    proof {
                        lemma_fill_counted(before, board@, from@, taken@);
                        fill = before.counted(taken@);
                    }
                    count += 1;
                    stack.push(Point { x: cell.x + 1, y: cell.y });
                    stack.push(Point { x: cell.x - 1, y: cell.y });
                    stack.push(Point { x: cell.x, y: cell.y - 1 });
                    stack.push(Point { x: cell.x, y: cell.y + 1 });
                    assert(coords(stack@) =~= fill.pending);
                }
            }
        }
    }
    proof {
        lemma_fill_done(fill, board@, from@);
        lemma_marks_bound(taken@);
    }
    count
}

/// The bonus for a head near the centre of the grid.
fn centre_bonus(board: &Board, head: Point) -> (bonus: u64)
    requires
        board@.wf(),
    ensures
        bonus == centering(board@, head@),
        bonus <= 25,
{
    let dx: i64 = head.x as i64 - (board.width / 2) as i64;
    let dy: i64 = head.y as i64 - (board.height / 2) as i64;
    if -10 <= dx && dx <= 10 && -10 <= dy && dy <= 10 {
        assert(0 <= dx * dx <= 100 && 0 <= dy * dy <= 100) by (nonlinear_arith)
            requires
                -10 <= dx <= 10,
                -10 <= dy <= 10,
        ;
        let closeness: i64 = 100 - dx * dx - dy * dy;
        if closeness > 0 {
            (closeness / 4) as u64
        } else {
            0
        }
    } else {
        assert(100 - dx * dx - dy * dy <= 0) by (nonlinear_arith)
            requires
                !(-10 <= dx <= 10 && -10 <= dy <= 10),
        ;
        0
    }
}

/// Scores a board for the agent at place `agent`, reached at `generation`.
pub fn score(board: &Board, agent: usize, generation: u32) -> (total: u64)
    requires
        board@.playable(),
        agent < board.snakes@.len(),
    ensures
        total == score_of(board@, agent as int, generation as int),
{
    assert(board@.snakes[agent as int].wf());
    let snake = &board.snakes[agent];
    let head = snake.body[0];
    let room = free_space(board, head);
    assert(board@.area() <= 0x4000_0000_0000_0000) by (nonlinear_arith)
        requires
            0 <= board@.width <= 0x7fff_ffff,
            0 <= board@.height <= 0x7fff_ffff,
            board@.area() == board@.width * board@.height,
    ;
    generation as u64 + centre_bonus(board, head) + snake.health as u64 + room as u64
}

} // verus!
