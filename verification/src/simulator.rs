//! The turn simulator: from a board and one direction per agent to the board
//! of the next turn.
//!
//! All agents move at once. An agent starves when its health runs out or its
//! head leaves the grid. An agent that did not starve dies when its head lies
//! on a body segment behind the head of an agent that did not starve (its own
//! body included), or when it meets head to head an agent that did not starve
//! and is at least as healthy. Whoever is left eats the food under its head.

use vstd::prelude::*;
use crate::requests::{coords, snake_views, Board, BoardView, Coord, Point, Snake, SnakeView};
use crate::responses::Movement;

verus! {

/// The cell one step from `from` in direction `dir`.
pub open spec fn advance(from: Coord, dir: Movement) -> Coord {
    Coord { x: from.x + dir.spec_to_offset().x, y: from.y + dir.spec_to_offset().y }
}

/// The directions fit the board: one for each agent.
pub open spec fn assigned(b: BoardView, dirs: Seq<Movement>) -> bool {
    dirs.len() == b.snakes.len()
}

/// Where the head of agent `i` lies after the move.
pub open spec fn next_head(b: BoardView, dirs: Seq<Movement>, i: int) -> Coord {
    advance(b.snakes[i].head(), dirs[i])
}

/// What agent `i` leaves behind its new head: its old body, without the tail
/// cell unless its health is 100.
pub open spec fn trail(b: BoardView, i: int) -> Seq<Coord> {
    if b.snakes[i].health == 100 {
        b.snakes[i].body
    } else {
        b.snakes[i].body.drop_last()
    }
}

/// The body of agent `i` after the move.
pub open spec fn next_body(b: BoardView, dirs: Seq<Movement>, i: int) -> Seq<Coord> {
    seq![next_head(b, dirs, i)] + trail(b, i)
}

/// Agent `i` has no health left after the move, or its head has left the grid.
pub open spec fn starved(b: BoardView, dirs: Seq<Movement>, i: int) -> bool {
    b.snakes[i].health - 1 <= 0 || !b.contains(next_head(b, dirs, i))
}

/// The new head of agent `i` lies on a segment behind the new head of agent `j`.
pub open spec fn runs_into(b: BoardView, dirs: Seq<Movement>, i: int, j: int) -> bool {
    trail(b, j).contains(next_head(b, dirs, i))
}

/// Agents `i` and `j` are two agents whose new heads lie on one cell, and `j`
/// is at least as healthy as `i`.
pub open spec fn loses_to(b: BoardView, dirs: Seq<Movement>, i: int, j: int) -> bool {
    &&& i != j
    &&& next_head(b, dirs, j) == next_head(b, dirs, i)
    &&& b.snakes[j].health >= b.snakes[i].health
}

/// Agent `j` did not starve, and agent `i` runs into it or loses to it.
pub open spec fn killed_by(b: BoardView, dirs: Seq<Movement>, i: int, j: int) -> bool {
    &&& 0 <= j < b.snakes.len()
    &&& !starved(b, dirs, j)
    &&& (runs_into(b, dirs, i, j) || loses_to(b, dirs, i, j))
}

/// Agent `i` is not on the next board.
pub open spec fn dies(b: BoardView, dirs: Seq<Movement>, i: int) -> bool {
    starved(b, dirs, i) || exists|j: int| killed_by(b, dirs, i, j)
}

/// Agent `i` as it stands on the next board, given that it is alive.
pub open spec fn survivor(b: BoardView, dirs: Seq<Movement>, i: int) -> SnakeView {
    SnakeView {
        id: b.snakes[i].id,
        name: b.snakes[i].name,
        health: if b.food.contains(next_head(b, dirs, i)) {
            100
        } else {
            b.snakes[i].health - 1
        },
        body: next_body(b, dirs, i),
        shout: b.snakes[i].shout,
    }
}

/// The survivors among the first `n` agents, in their old order.
pub open spec fn survivors(b: BoardView, dirs: Seq<Movement>, n: int) -> Seq<SnakeView>
    decreases n,
{
    if n <= 0 {
        Seq::empty()
    } else if dies(b, dirs, n - 1) {
        survivors(b, dirs, n - 1)
    } else {
        survivors(b, dirs, n - 1).push(survivor(b, dirs, n - 1))
    }
}

/// A surviving agent is `alive`.
pub open spec fn alive(b: BoardView, dirs: Seq<Movement>, i: int) -> bool {
    0 <= i < b.snakes.len() && !dies(b, dirs, i)
}

/// The head of some survivor lies on `c`.
pub open spec fn eaten(b: BoardView, dirs: Seq<Movement>, c: Coord) -> bool {
    exists|i: int| alive(b, dirs, i) && next_head(b, dirs, i) == c
}

/// What is left of the first `n` food cells, in their old order.
pub open spec fn leftovers(b: BoardView, dirs: Seq<Movement>, n: int) -> Seq<Coord>
    decreases n,
{
    if n <= 0 {
        Seq::empty()
    } else if eaten(b, dirs, b.food[n - 1]) {
        leftovers(b, dirs, n - 1)
    } else {
        leftovers(b, dirs, n - 1).push(b.food[n - 1])
    }
}

/// The board of the next turn.
pub open spec fn step(b: BoardView, dirs: Seq<Movement>) -> BoardView {
    BoardView {
        height: b.height,
        width: b.width,
        food: leftovers(b, dirs, b.food.len() as int),
        snakes: survivors(b, dirs, b.snakes.len() as int),
    }
}

/// The number of survivors among the first `i` agents: the place that agent
/// `i` takes on the next board, if it is alive.
pub open spec fn place(b: BoardView, dirs: Seq<Movement>, i: int) -> int {
    survivors(b, dirs, i).len() as int
}

/// Agent `i` is alive, and `s` is what it looks like at place `k` of the next
/// board.
pub open spec fn stands_at(
    b: BoardView,
    dirs: Seq<Movement>,
    i: int,
    k: int,
    s: SnakeView,
) -> bool {
    &&& alive(b, dirs, i)
    &&& place(b, dirs, i) == k
    &&& survivor(b, dirs, i) == s
}

/// What stands at place `k` of the next board is one of the first `n` agents.
pub open spec fn has_origin(
    b: BoardView,
    dirs: Seq<Movement>,
    n: int,
    k: int,
    s: SnakeView,
) -> bool {
    exists|i: int| i < n && #[trigger] stands_at(b, dirs, i, k, s)
}

/// The survivors keep their order: an agent that is alive stands on the next
/// board at its place, as the rules shape it, and nobody else stands there.
pub proof fn lemma_survivor_place(b: BoardView, dirs: Seq<Movement>, n: int)
    requires
        0 <= n <= b.snakes.len(),
    ensures
        survivors(b, dirs, n).len() <= n,
        forall|i: int|
            0 <= i < n && !dies(b, dirs, i) ==> 0 <= #[trigger] place(b, dirs, i) < survivors(
                b,
                dirs,
                n,
            ).len() && survivors(b, dirs, n)[place(b, dirs, i)] == survivor(b, dirs, i),
        forall|k: int|
            0 <= k < survivors(b, dirs, n).len() ==> #[trigger] has_origin(
                b,
                dirs,
                n,
                k,
                survivors(b, dirs, n)[k],
            ),
    decreases n,
{
    if n > 0 {
        lemma_survivor_place(b, dirs, n - 1);
        let before = survivors(b, dirs, n - 1);
        let now = survivors(b, dirs, n);
        assert forall|k: int| 0 <= k < now.len() implies #[trigger] has_origin(
            b,
            dirs,
            n,
            k,
            now[k],
        ) by {
            if k < before.len() {
                assert(has_origin(b, dirs, n - 1, k, before[k]));
                let i = choose|i: int| i < n - 1 && #[trigger] stands_at(b, dirs, i, k, before[k]);
                assert(stands_at(b, dirs, i, k, now[k]));
            } else {
                assert(stands_at(b, dirs, n - 1, k, now[k]));
            }
        }
    }
}

/// A well-formed board stays well formed, and the heads of all survivors lie
/// on the grid.
pub proof fn lemma_step_wf(b: BoardView, dirs: Seq<Movement>)
    requires
        b.wf(),
        assigned(b, dirs),
    ensures
        step(b, dirs).wf(),
        forall|k: int|
            0 <= k < step(b, dirs).snakes.len() ==> step(b, dirs).contains(
                (#[trigger] step(b, dirs).snakes[k]).head(),
            ),
{
    let n = b.snakes.len() as int;
    let next = step(b, dirs);
    lemma_survivor_place(b, dirs, n);
    assert forall|k: int| 0 <= k < next.snakes.len() implies (#[trigger] next.snakes[k]).wf()
        && next.contains(next.snakes[k].head()) by {
        assert(has_origin(b, dirs, n, k, next.snakes[k]));
        let i = choose|i: int| i < n && #[trigger] stands_at(b, dirs, i, k, next.snakes[k]);
        assert(b.snakes[i].wf());
        assert(!starved(b, dirs, i));
        assert(survivor(b, dirs, i).body[0] == next_head(b, dirs, i));
    }
}

/// A board on which a search can run is followed by one.
pub proof fn lemma_step_playable(b: BoardView, dirs: Seq<Movement>)
    requires
        b.playable(),
        assigned(b, dirs),
    ensures
        step(b, dirs).playable(),
{
    lemma_step_wf(b, dirs);
}

/// The next board depends on nothing but the board and the directions: two
/// boards with one model, moved by the same directions, have one next board.
pub proof fn lemma_same_inputs_same_board(
    a: Board,
    b: Board,
    first: Seq<Movement>,
    second: Seq<Movement>,
)
    requires
        a@ == b@,
        first == second,
    ensures
        step(a@, first) == step(b@, second),
{
}

/// Two agents that did not starve and meet head to head with equal health
/// both die.
pub proof fn lemma_head_on_tie(b: BoardView, dirs: Seq<Movement>, i: int, j: int)
    requires
        0 <= i < b.snakes.len(),
        0 <= j < b.snakes.len(),
        i != j,
        !starved(b, dirs, i),
        !starved(b, dirs, j),
        next_head(b, dirs, i) == next_head(b, dirs, j),
        b.snakes[i].health == b.snakes[j].health,
    ensures
        dies(b, dirs, i),
        dies(b, dirs, j),
{
    assert(killed_by(b, dirs, i, j));
    assert(killed_by(b, dirs, j, i));
}

/// Of two agents that did not starve and meet head to head, the one with
/// strictly less health dies, and the meeting does not kill the other.
pub proof fn lemma_head_on_weaker(b: BoardView, dirs: Seq<Movement>, i: int, j: int)
    requires
        0 <= i < b.snakes.len(),
        0 <= j < b.snakes.len(),
        i != j,
        !starved(b, dirs, i),
        !starved(b, dirs, j),
        next_head(b, dirs, i) == next_head(b, dirs, j),
        b.snakes[i].health > b.snakes[j].health,
    ensures
        dies(b, dirs, j),
        !loses_to(b, dirs, i, j),
{
    assert(killed_by(b, dirs, j, i));
}

/// An agent that did not starve survives when its head lies on no body
/// segment of an agent that did not starve, and every other such agent whose
/// head lies on the same cell has strictly less health.
pub proof fn lemma_head_on_stronger(b: BoardView, dirs: Seq<Movement>, i: int)
    requires
        0 <= i < b.snakes.len(),
        !starved(b, dirs, i),
        forall|j: int|
            0 <= j < b.snakes.len() && !starved(b, dirs, j) ==> !#[trigger] runs_into(
                b,
                dirs,
                i,
                j,
            ),
        forall|j: int|
            0 <= j < b.snakes.len() && j != i && !starved(b, dirs, j) && #[trigger] next_head(
                b,
                dirs,
                j,
            ) == next_head(b, dirs, i) ==> b.snakes[j].health < b.snakes[i].health,
    ensures
        !dies(b, dirs, i),
{
    assert forall|j: int| !killed_by(b, dirs, i, j) by {
        if 0 <= j < b.snakes.len() && !starved(b, dirs, j) {
            assert(!runs_into(b, dirs, i, j));
            if j != i && next_head(b, dirs, j) == next_head(b, dirs, i) {
                assert(b.snakes[j].health < b.snakes[i].health);
            }
        }
    }
}

/// An agent whose head leaves the grid is not on the next board, whatever
/// the others do.
pub proof fn lemma_off_grid_dies(b: BoardView, dirs: Seq<Movement>, i: int)
    requires
        0 <= i < b.snakes.len(),
        !b.contains(next_head(b, dirs, i)),
    ensures
        dies(b, dirs, i),
{
}

/// No two survivors share a head cell, so no two of them eat the same food.
pub proof fn lemma_survivor_heads_differ(b: BoardView, dirs: Seq<Movement>, i: int, j: int)
    requires
        alive(b, dirs, i),
        alive(b, dirs, j),
        i != j,
    ensures
        next_head(b, dirs, i) != next_head(b, dirs, j),
{
    if next_head(b, dirs, i) == next_head(b, dirs, j) {
        if b.snakes[j].health >= b.snakes[i].health {
            assert(killed_by(b, dirs, i, j));
        } else {
            assert(killed_by(b, dirs, j, i));
        }
    }
}

/// The food that is left is the old food that lies under no survivor's head,
/// and it stays in its old order.
pub proof fn lemma_leftovers(b: BoardView, dirs: Seq<Movement>, n: int)
    requires
        0 <= n <= b.food.len(),
    ensures
        forall|c: Coord| #[trigger]
            leftovers(b, dirs, n).contains(c) <==> b.food.take(n).contains(c) && !eaten(b, dirs, c),
    decreases n,
{
    if n > 0 {
        lemma_leftovers(b, dirs, n - 1);
        let before = leftovers(b, dirs, n - 1);
        let now = leftovers(b, dirs, n);
        let last = b.food[n - 1];
        let old_food = b.food.take(n - 1);
        let food = b.food.take(n);
        assert forall|c: Coord| #[trigger]
            now.contains(c) <==> food.contains(c) && !eaten(b, dirs, c) by {
            if now.contains(c) {
                let k = choose|k: int| 0 <= k < now.len() && now[k] == c;
                if k < before.len() {
                    assert(before.contains(c));
                    let m = choose|m: int| 0 <= m < old_food.len() && old_food[m] == c;
                    assert(food[m] == c);
                } else {
                    assert(c == last);
                    assert(food[n - 1] == c);
                }
            }
            if food.contains(c) && !eaten(b, dirs, c) {
                let m = choose|m: int| 0 <= m < food.len() && food[m] == c;
                if m < n - 1 {
                    assert(old_food[m] == c);
                    assert(before.contains(c));
                    let k = choose|k: int| 0 <= k < before.len() && before[k] == c;
                    assert(now[k] == c);
                } else {
                    assert(now[now.len() - 1] == c);
                }
            }
        }
    }
}

/// The new head of agent `i`, or `None` where it has left the grid.
fn moved_head(board: &Board, dirs: &Vec<Movement>, i: usize) -> (head: Option<Point>)
    requires
        board@.wf(),
        assigned(board@, dirs@),
        i < board.snakes@.len(),
    ensures
        head is Some <==> board@.contains(next_head(board@, dirs@, i as int)),
        head matches Some(p) ==> p@ == next_head(board@, dirs@, i as int),
{
    assert(board@.snakes[i as int].wf());
    let old = board.snakes[i].body[0];
    let offset = dirs[i].to_offset();
    let x: i64 = old.x as i64 + offset.x as i64;
    let y: i64 = old.y as i64 + offset.y as i64;
    if 0 <= x && x < board.width as i64 && 0 <= y && y < board.height as i64 {
        Some(Point { x: x as i32, y: y as i32 })
    } else {
        None
    }
}

/// Tells whether `cell` is one of the first `n` of `cells`.
fn among(cells: &Vec<Point>, n: usize, cell: Point) -> (found: bool)
    requires
        n <= cells@.len(),
    ensures
        found == coords(cells@).take(n as int).contains(cell@),
{
    let ghost view = coords(cells@).take(n as int);
    let mut k: usize = 0;
    while k < n
        invariant
            k <= n <= cells@.len(),
            view == coords(cells@).take(n as int),
            forall|m: int| 0 <= m < k ==> view[m] != cell@,
        decreases n - k,
    {
        if cells[k] == cell {
            assert(view[k as int] == cell@);
            return true;
        }
        k += 1;
    }
    false
}

/// The number of cells that agent `i` leaves behind its new head.
fn trail_len(board: &Board, i: usize) -> (n: usize)
    requires
        board@.wf(),
        i < board.snakes@.len(),
    ensures
        n <= board.snakes@[i as int].body@.len(),
        trail(board@, i as int) == coords(board.snakes@[i as int].body@).take(n as int),
{
    assert(board@.snakes[i as int].wf());
    let snake = &board.snakes[i];
    let n = if snake.health == 100 {
        snake.body.len()
    } else {
        snake.body.len() - 1
    };
    assert(trail(board@, i as int) =~= coords(snake.body@).take(n as int));
    n
}

/// What the first pass of a turn finds for each agent: whether it starved,
/// and where the head of one that did not starve lies.
struct Moved {
    starved: Vec<bool>,
    heads: Vec<Point>,
}

impl Moved {
    /// The record tells of the first `n` agents what the rules say.
    spec fn tells(self, b: BoardView, dirs: Seq<Movement>, n: int) -> bool {
        &&& self.starved@.len() == n
        &&& self.heads@.len() == n
        &&& forall|i: int|
            0 <= i < n ==> #[trigger] self.starved@[i] == starved(b, dirs, i)
        &&& forall|i: int|
            0 <= i < n && !starved(b, dirs, i) ==> (#[trigger] self.heads@[i])@ == next_head(
                b,
                dirs,
                i,
            )
    }
}

/// Moves every agent and finds those that starve.
fn move_all(board: &Board, dirs: &Vec<Movement>) -> (moved: Moved)
    requires
        board@.wf(),
        assigned(board@, dirs@),
    ensures
        moved.tells(board@, dirs@, board.snakes@.len() as int),
{
    let mut moved = Moved { starved: Vec::new(), heads: Vec::new() };
    let mut i: usize = 0;
    while i < board.snakes.len()
        invariant
            i <= board.snakes@.len(),
            board@.wf(),
            assigned(board@, dirs@),
            moved.tells(board@, dirs@, i as int),
        decreases board.snakes@.len() - i,
    {
        assert(board@.snakes[i as int].wf());
        let old = board.snakes[i].body[0];
        match moved_head(board, dirs, i) {
            Some(head) => {
                moved.starved.push(board.snakes[i].health <= 1);
                moved.heads.push(head);
            },
            None => {
                moved.starved.push(true);
                moved.heads.push(old);
            },
        }
        i += 1;
    }
    moved
}

/// Tells whether agent `i`, which did not starve, is killed by agent `j`.
fn is_killed_by(
    board: &Board,
    dirs: &Vec<Movement>,
    moved: &Moved,
    i: usize,
    j: usize,
) -> (killed: bool)
    requires
        board@.wf(),
        assigned(board@, dirs@),
        moved.tells(board@, dirs@, board.snakes@.len() as int),
        i < board.snakes@.len(),
        j < board.snakes@.len(),
        !starved(board@, dirs@, i as int),
    ensures
        killed == killed_by(board@, dirs@, i as int, j as int),
{
    if moved.starved[j] {
        return false;
    }
    let head = moved.heads[i];
    let n = trail_len(board, j);
    if among(&board.snakes[j].body, n, head) {
        return true;
    }
    i != j && moved.heads[j] == head && board.snakes[j].health >= board.snakes[i].health
}

/// Tells whether agent `i` is missing from the next board.
fn is_dead(board: &Board, dirs: &Vec<Movement>, moved: &Moved, i: usize) -> (dead: bool)
    requires
        board@.wf(),
        assigned(board@, dirs@),
        moved.tells(board@, dirs@, board.snakes@.len() as int),
        i < board.snakes@.len(),
    ensures
        dead == dies(board@, dirs@, i as int),
{
    if moved.starved[i] {
        return true;
    }
    let mut j: usize = 0;
    while j < board.snakes.len()
        invariant
            j <= board.snakes@.len(),
            i < board.snakes@.len(),
            board@.wf(),
            assigned(board@, dirs@),
            moved.tells(board@, dirs@, board.snakes@.len() as int),
            !starved(board@, dirs@, i as int),
            forall|m: int| 0 <= m < j ==> !killed_by(board@, dirs@, i as int, m),
        decreases board.snakes@.len() - j,
    {
        if is_killed_by(board, dirs, moved, i, j) {
            return true;
        }
        j += 1;
    }
    false
}

/// Finds for every agent whether it is missing from the next board.
fn find_dead(board: &Board, dirs: &Vec<Movement>, moved: &Moved) -> (dead: Vec<bool>)
    requires
        board@.wf(),
        assigned(board@, dirs@),
        moved.tells(board@, dirs@, board.snakes@.len() as int),
    ensures
        dead@.len() == board.snakes@.len(),
        forall|i: int| 0 <= i < dead@.len() ==> #[trigger] dead@[i] == dies(board@, dirs@, i),
{
    let mut dead: Vec<bool> = Vec::new();
    let mut i: usize = 0;
    while i < board.snakes.len()
        invariant
            i <= board.snakes@.len(),
            board@.wf(),
            assigned(board@, dirs@),
            moved.tells(board@, dirs@, board.snakes@.len() as int),
            dead@.len() == i,
            forall|m: int| 0 <= m < i ==> #[trigger] dead@[m] == dies(board@, dirs@, m),
        decreases board.snakes@.len() - i,
    {
        dead.push(is_dead(board, dirs, moved, i));
        i += 1;
    }
    dead
}

/// Agent `i`, which is alive, as it stands on the next board.
fn grown(board: &Board, dirs: &Vec<Movement>, i: usize, head: Point) -> (snake: Snake)
    requires
        board@.wf(),
        assigned(board@, dirs@),
        i < board.snakes@.len(),
        !starved(board@, dirs@, i as int),
        head@ == next_head(board@, dirs@, i as int),
    ensures
        snake@ == survivor(board@, dirs@, i as int),
{
    let old = &board.snakes[i];
    let n = trail_len(board, i);
    let mut body: Vec<Point> = Vec::new();
    body.push(head);
    let mut k: usize = 0;
    while k < n
        invariant
            k <= n <= old.body@.len(),
            body@ == seq![head] + old.body@.take(k as int),
        decreases n - k,
    {
        body.push(old.body[k]);
        k += 1;
    }
    assert(coords(body@) =~= next_body(board@, dirs@, i as int));
    let fed = among(&board.food, board.food.len(), head);
    assert(coords(board.food@).take(board.food@.len() as int) =~= board@.food);
    let health: i32 = if fed {
        100
    } else {
        old.health - 1
    };
    let shout = match &old.shout {
        Some(text) => Some(text.clone()),
        None => None,
    };
    Snake { id: old.id.clone(), name: old.name.clone(), health, body, shout }
}

/// Tells whether the head of some survivor lies on `cell`.
fn is_eaten(
    board: &Board,
    dirs: &Vec<Movement>,
    moved: &Moved,
    dead: &Vec<bool>,
    cell: Point,
) -> (gone: bool)
    requires
        board@.wf(),
        assigned(board@, dirs@),
        moved.tells(board@, dirs@, board.snakes@.len() as int),
        dead@.len() == board.snakes@.len(),
        forall|i: int| 0 <= i < dead@.len() ==> #[trigger] dead@[i] == dies(board@, dirs@, i),
    ensures
        gone == eaten(board@, dirs@, cell@),
{
    let mut i: usize = 0;
    while i < board.snakes.len()
        invariant
            i <= board.snakes@.len(),
            moved.tells(board@, dirs@, board.snakes@.len() as int),
            dead@.len() == board.snakes@.len(),
            forall|m: int| 0 <= m < dead@.len() ==> #[trigger] dead@[m] == dies(board@, dirs@, m),
            forall|m: int|
                0 <= m < i ==> !(alive(board@, dirs@, m) && next_head(board@, dirs@, m) == cell@),
        decreases board.snakes@.len() - i,
    {
        if !dead[i] && moved.heads[i] == cell {
            assert(alive(board@, dirs@, i as int));
            return true;
        }
        i += 1;
    }
    false
}

/// Simulates one turn: every agent moves in its direction, the agents that
/// starve or collide leave the board, and the others eat what lies under
/// their heads.
pub fn simulate(board: &Board, dirs: &Vec<Movement>) -> (next: Board)
    requires
        board@.wf(),
        assigned(board@, dirs@),
    ensures
        next@ == step(board@, dirs@),
        next@.wf(),
{
    proof {
        lemma_step_wf(board@, dirs@);
    }
    let moved = move_all(board, dirs);
    let dead = find_dead(board, dirs, &moved);
    let mut snakes: Vec<Snake> = Vec::new();
    let mut i: usize = 0;
    while i < board.snakes.len()
        invariant
            i <= board.snakes@.len(),
            board@.wf(),
            assigned(board@, dirs@),
            moved.tells(board@, dirs@, board.snakes@.len() as int),
            dead@.len() == board.snakes@.len(),
            forall|m: int| 0 <= m < dead@.len() ==> #[trigger] dead@[m] == dies(board@, dirs@, m),
            snake_views(snakes@) == survivors(board@, dirs@, i as int),
        decreases board.snakes@.len() - i,
    {
        if !dead[i] {
            let ghost before = snake_views(snakes@);
            snakes.push(grown(board, dirs, i, moved.heads[i]));
            assert(snake_views(snakes@) =~= before.push(survivor(board@, dirs@, i as int)));
        }
        i += 1;
    }
    let mut food: Vec<Point> = Vec::new();
    let mut k: usize = 0;
    while k < board.food.len()
        invariant
            k <= board.food@.len(),
            board@.wf(),
            assigned(board@, dirs@),
            moved.tells(board@, dirs@, board.snakes@.len() as int),
            dead@.len() == board.snakes@.len(),
            forall|m: int| 0 <= m < dead@.len() ==> #[trigger] dead@[m] == dies(board@, dirs@, m),
            coords(food@) == leftovers(board@, dirs@, k as int),
        decreases board.food@.len() - k,
    {
        if !is_eaten(board, dirs, &moved, &dead, board.food[k]) {
            let ghost before = coords(food@);
            food.push(board.food[k]);
            assert(coords(food@) =~= before.push(board@.food[k as int]));
        }
        k += 1;
    }
    Board { height: board.height, width: board.width, food, snakes }
}

} // verus!
