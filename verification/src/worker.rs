//! The exploration worker: one search along a path of its own.
//!
//! A worker is a state machine. Fresh, it goes to the root of its game.
//! Extending, it adds up to [`EXPLORE_DEPTH`] nodes below the end of its
//! path, one for each simulated turn that its agent survives. Scoring, it
//! scores the board at the end of its path and hands the score back along
//! the path. It is stale once its path no longer lies in the tree or a node
//! on it has become historic, and starts afresh then. It has terminated once
//! its game has no entry in the registry or its agent cannot be followed.
//!
//! Whoever runs a worker calls [`thread_work`] again and again, one step at
//! a time, and lets other workers take their steps in between.

use vstd::prelude::*;
use rand::rngs::StdRng;
use rand::seq::SliceRandom;
use rand::Rng;
use crate::registry::{
    lemma_place, lemma_registry_grows_refl, lemma_registry_grows_trans, lemma_with_tree, Registry,
    RegistryView,
};
use crate::requests::{Board, BoardView, Game, Point};
use crate::responses::Movement;
use crate::scorer::{lemma_score_bounds, score, score_of};
use crate::simulator::{lemma_step_playable, simulate, step};
use crate::tree::{
    lemma_backed, lemma_claimed, lemma_grows_trans, lemma_noted, Claim, Tree, TreeView,
};

verus! {

/// How many nodes a worker adds before it scores.
pub const EXPLORE_DEPTH: u32 = 5;

/// `StdRng` of the `rand` crate: a generator that computes its numbers
/// from the seed it was made with and never asks the system for more.
/// Nothing is known of what it holds.
#[verifier::external_type_specification]
#[verifier::external_body]
pub struct ExStdRng(rand::rngs::StdRng);

/// Draws a truth value with `Rng::gen` of the `rand` crate: the sign of the
/// next 32 bits of the generator. Nothing is claimed of the value.
#[verifier::external_body]
fn flip(rng: &mut StdRng) -> (coin: bool) {
    rng.gen()
}

/// Draws a direction with `SliceRandom::choose` of the `rand` crate, which
/// hands out an element of a slice that is not empty, at a place that it
/// draws without bias. The claim is that the direction drawn is one of
/// `options`.
#[verifier::external_body]
fn draw(rng: &mut StdRng, options: &Vec<Movement>) -> (dir: Movement)
    requires
        options@.len() > 0,
    ensures
        options@.contains(dir),
{
    *options.choose(rng).unwrap()
}

/// The place of the first agent on the board with this identifier.
pub open spec fn position(b: BoardView, id: Seq<char>) -> Option<int> {
    if exists|i: int| is_first(b, id, i) {
        Some(choose|i: int| is_first(b, id, i))
    } else {
        None
    }
}

/// Agent `i` has the identifier, and no agent before it has.
pub open spec fn is_first(b: BoardView, id: Seq<char>, i: int) -> bool {
    &&& 0 <= i < b.snakes.len()
    &&& b.snakes[i].id == id
    &&& forall|j: int| 0 <= j < i ==> (#[trigger] b.snakes[j]).id != id
}

/// Finds the agent with an identifier. Agents leave the board as they die,
/// so an agent is found again by its identifier, not by its place.
pub fn find_snake(board: &Board, id: &String) -> (found: Option<usize>)
    ensures
        found == match position(board@, id@) {
            Some(i) => Some(i as usize),
            None => None,
        },
        found matches Some(i) ==> i < board.snakes@.len() && position(board@, id@) == Some(
            i as int,
        ),
{
    let mut i: usize = 0;
    while i < board.snakes.len()
        invariant
            i <= board.snakes@.len(),
            forall|j: int| 0 <= j < i ==> (#[trigger] board@.snakes[j]).id != id@,
        decreases board.snakes@.len() - i,
    {
        if board.snakes[i].id == *id {
            proof {
                assert(is_first(board@, id@, i as int));
                let p = choose|p: int| is_first(board@, id@, p);
                if p < i {
                    assert(board@.snakes[p].id != id@);
                } else if i < p {
                    assert(board@.snakes[i as int].id != id@);
                }
            }
            return Some(i);
        }
        i += 1;
    }
    proof {
        assert forall|p: int| !is_first(board@, id@, p) by {
            if 0 <= p < board@.snakes.len() {
                assert(board@.snakes[p].id != id@);
            }
        }
    }
    None
}

/// The direction in which agent `i` moved last, read off its head and the
/// segment behind it: the direction whose unit step leads from the one to
/// the other, and Right where both lie on one cell. There is none where the
/// agent has no segment behind its head, or the two cells are further apart.
pub open spec fn heading(b: BoardView, i: int) -> Option<Movement> {
    let body = b.snakes[i].body;
    let dx = body[0].x - body[1].x;
    let dy = body[0].y - body[1].y;
    if body.len() >= 2 && -1 <= dx <= 1 && -1 <= dy <= 1 {
        Movement::spec_checked_from_offset(Point { x: dx as i32, y: dy as i32 })
    } else {
        None
    }
}

/// The direction in which agent `agent` moved last.
pub fn last_direction(board: &Board, agent: usize) -> (last: Option<Movement>)
    requires
        agent < board.snakes@.len(),
    ensures
        last == heading(board@, agent as int),
{
    let body = &board.snakes[agent].body;
    if body.len() < 2 {
        return None;
    }
    let head = body[0];
    let neck = body[1];
    let dx: i64 = head.x as i64 - neck.x as i64;
    let dy: i64 = head.y as i64 - neck.y as i64;
    if -1 <= dx && dx <= 1 && -1 <= dy && dy <= 1 {
        Movement::checked_from_offset(head - neck)
    } else {
        None
    }
}

/// Agent `i` has not moved yet: its head lies on the segment behind it. The
/// direction in which it moved last counts as Right then.
pub open spec fn at_rest(b: BoardView, i: int) -> bool {
    b.snakes[i].body.len() >= 2 && b.snakes[i].body[0] == b.snakes[i].body[1]
}

/// Tells whether agent `agent` has not moved yet.
pub fn is_at_rest(board: &Board, agent: usize) -> (still: bool)
    requires
        agent < board.snakes@.len(),
    ensures
        still == at_rest(board@, agent as int),
        still ==> heading(board@, agent as int) == Some(Movement::Right),
{
    let body = &board.snakes[agent].body;
    body.len() >= 2 && body[0] == body[1]
}

/// The direction to try next: the one drawn where the coin says so and the
/// last one where it does not, but never the reverse of the last one, in
/// whose place the last one is kept.
pub open spec fn chosen(coin: bool, pick: Movement, last: Movement) -> Movement {
    let dir = if coin {
        pick
    } else {
        last
    };
    if dir == last.spec_opposite() {
        last
    } else {
        dir
    }
}

/// Chooses the direction to try next.
pub fn choose_direction(coin: bool, pick: Movement, last: Movement) -> (dir: Movement)
    ensures
        dir == chosen(coin, pick, last),
        dir != last.spec_opposite(),
{
    let dir = if coin {
        pick
    } else {
        last
    };
    if dir == last.opposite() {
        last
    } else {
        dir
    }
}

/// One direction for each of `n` agents: `dir` for agent `me`, and for every
/// other agent what was drawn for it.
pub open spec fn assignment(rivals: Seq<Movement>, me: int, dir: Movement, n: int) -> Seq<
    Movement,
> {
    Seq::new(n as nat, |j: int| if j == me { dir } else { rivals[j] })
}

/// Gives every agent its direction.
pub fn assign(rivals: &Vec<Movement>, me: usize, dir: Movement, n: usize) -> (dirs: Vec<Movement>)
    requires
        n <= rivals@.len(),
    ensures
        dirs@ == assignment(rivals@, me as int, dir, n as int),
{
    let mut dirs: Vec<Movement> = Vec::new();
    let mut j: usize = 0;
    while j < n
        invariant
            j <= n <= rivals@.len(),
            dirs@ == assignment(rivals@, me as int, dir, j as int),
        decreases n - j,
    {
        dirs.push(if j == me { dir } else { rivals[j] });
        assert(dirs@ =~= assignment(rivals@, me as int, dir, j + 1));
        j += 1;
    }
    dirs
}

/// Some node on the path is historic.
pub open spec fn superseded(t: TreeView, path: Seq<usize>) -> bool {
    exists|k: int| 0 <= k < path.len() && t.nodes[#[trigger] path[k] as int].historic
}

/// Tells whether some node on the path is historic.
pub fn is_superseded(tree: &Tree, path: &Vec<usize>) -> (stale: bool)
    requires
        tree@.chain(path@),
    ensures
        stale == superseded(tree@, path@),
{
    let mut k: usize = 0;
    while k < path.len()
        invariant
            k <= path@.len(),
            tree@.chain(path@),
            forall|j: int| 0 <= j < k ==> !tree@.nodes[#[trigger] path@[j] as int].historic,
        decreases path@.len() - k,
    {
        assert(tree@.has(path@[k as int] as int));
        if tree.is_historic(path[k]) {
            return true;
        }
        k += 1;
    }
    false
}

/// Where a worker stands.
#[derive(Clone, Copy, Debug, PartialEq, Eq, Structural)]
pub enum Phase {
    /// Not at a root yet.
    Fresh,
    /// Adding nodes below the end of its path.
    Extending,
    /// About to score the end of its path.
    Scoring,
    /// Its path has been superseded.
    Stale,
    /// Done for good.
    Terminated,
}

/// The mathematical model of a [`Worker`].
pub struct WorkerView {
    pub game: Seq<char>,
    pub snake_id: Seq<char>,
    pub phase: Phase,
    /// The path from the root at which the worker started to the node it
    /// reached.
    pub steps: Seq<usize>,
    /// How many nodes were tried since the last scoring.
    pub depth: int,
}

impl WorkerView {
    /// The worker in another phase.
    pub open spec fn to(self, phase: Phase) -> WorkerView {
        WorkerView { phase, ..self }
    }

    /// The game has an entry, and the path lies in its tree and holds no
    /// historic node.
    pub open spec fn attached(self, r: RegistryView) -> bool {
        &&& r.holds(self.game)
        &&& r.tree(self.game).chain(self.steps)
        &&& !superseded(r.tree(self.game), self.steps)
    }

    /// The node at the end of the path.
    pub open spec fn tip(self) -> int {
        self.steps[self.steps.len() - 1] as int
    }

    /// How many directions a step may ask for: one for each agent on the
    /// board at the end of the path.
    pub open spec fn lineup(self, r: RegistryView) -> int {
        if self.phase == Phase::Extending && self.attached(r) {
            r.tree(self.game).nodes[self.tip()].board.snakes.len() as int
        } else {
            0
        }
    }

    /// The step of a worker that is extending.
    pub open spec fn extended(
        self,
        r: RegistryView,
        coin: bool,
        pick: Movement,
        rivals: Seq<Movement>,
    ) -> (WorkerView, RegistryView) {
        let t = r.tree(self.game);
        let node = t.nodes[self.tip()];
        if !r.holds(self.game) {
            (self.to(Phase::Terminated), r)
        } else if !self.attached(r) {
            (self.to(Phase::Stale), r)
        } else if node.score == 0 || self.depth >= EXPLORE_DEPTH || node.generation >= u32::MAX {
            (self.to(Phase::Scoring), r)
        } else {
            match position(node.board, self.snake_id) {
                None => (self.to(Phase::Terminated), r),
                Some(me) => match heading(node.board, me) {
                    None => (self.to(Phase::Terminated), r),
                    Some(last) => {
                        let dir = chosen(coin, pick, last);
                        let dirs = assignment(rivals, me, dir, node.board.snakes.len() as int);
                        let board = step(node.board, dirs);
                        let counted = t.noted(self.steps);
                        if t.child(self.tip(), dir) is Some {
                            (self, r)
                        } else if position(board, self.snake_id) is None {
                            (
                                WorkerView {
                                    phase: Phase::Scoring,
                                    depth: self.depth + 1,
                                    ..self
                                },
                                r.with_tree(r.place(self.game), counted),
                            )
                        } else {
                            (
                                WorkerView {
                                    steps: self.steps.push(t.nodes.len() as usize),
                                    depth: self.depth + 1,
                                    ..self
                                },
                                r.with_tree(
                                    r.place(self.game),
                                    counted.claimed(self.tip(), dir, board),
                                ),
                            )
                        }
                    },
                },
            }
        }
    }

    /// The step of a worker that is scoring.
    pub open spec fn settled(self, r: RegistryView) -> (WorkerView, RegistryView) {
        let t = r.tree(self.game);
        let node = t.nodes[self.tip()];
        if !r.holds(self.game) {
            (self.to(Phase::Terminated), r)
        } else if !self.attached(r) {
            (self.to(Phase::Stale), r)
        } else {
            match position(node.board, self.snake_id) {
                None => (self.to(Phase::Terminated), r),
                Some(me) => (
                    WorkerView { phase: Phase::Extending, depth: 0, ..self },
                    r.with_tree(
                        r.place(self.game),
                        t.backed(self.steps, score_of(node.board, me, node.generation)),
                    ),
                ),
            }
        }
    }

    /// One step of the worker: what becomes of it and of the registry, given
    /// what was drawn.
    pub open spec fn next(
        self,
        r: RegistryView,
        coin: bool,
        pick: Movement,
        rivals: Seq<Movement>,
    ) -> (WorkerView, RegistryView) {
        match self.phase {
            Phase::Terminated => (self, r),
            Phase::Stale => (WorkerView { phase: Phase::Fresh, steps: Seq::empty(), ..self }, r),
            Phase::Fresh => if r.holds(self.game) {
                (
                    WorkerView {
                        phase: Phase::Extending,
                        steps: seq![r.tree(self.game).root as usize],
                        depth: 0,
                        ..self
                    },
                    r,
                )
            } else {
                (self.to(Phase::Terminated), r)
            },
            Phase::Extending => self.extended(r, coin, pick, rivals),
            Phase::Scoring => self.settled(r),
        }
    }
}

/// A worker that searches the futures of one agent in one game.
pub struct Worker {
    game: Game,
    snake_id: String,
    phase: Phase,
    steps: Vec<usize>,
    depth: u32,
}

impl View for Worker {
    type V = WorkerView;

    closed spec fn view(&self) -> WorkerView {
        WorkerView {
            game: self.game@,
            snake_id: self.snake_id@,
            phase: self.phase,
            steps: self.steps@,
            depth: self.depth as int,
        }
    }
}

impl Worker {
    /// A fresh worker for the agent `snake_id` in `game`.
    pub fn new(game: Game, snake_id: String) -> (worker: Worker)
        ensures
            worker@ == (WorkerView {
                game: game@,
                snake_id: snake_id@,
                phase: Phase::Fresh,
                steps: Seq::empty(),
                depth: 0,
            }),
    {
        Worker { game, snake_id, phase: Phase::Fresh, steps: Vec::new(), depth: 0 }
    }

    pub fn phase(&self) -> (phase: Phase)
        ensures
            phase == self@.phase,
    {
        self.phase
    }

    /// The path from the root at which the worker started to the node it
    /// reached.
    pub fn steps(&self) -> (steps: &Vec<usize>)
        ensures
            steps@ == self@.steps,
    {
        &self.steps
    }

    /// Tells whether the path lies in the tree and holds no historic node.
    fn holds_on(&self, tree: &Tree) -> (ok: bool)
        requires
            tree@.wf(),
        ensures
            ok == (tree@.chain(self@.steps) && !superseded(tree@, self@.steps)),
    {
        tree.is_chain(&self.steps) && !is_superseded(tree, &self.steps)
    }

    /// How many directions the next step may ask for.
    pub fn lineup(&self, registry: &Registry) -> (n: usize)
        requires
            registry@.wf(),
        ensures
            n == self@.lineup(registry@),
    {
        match self.phase {
            Phase::Extending => match registry.tree(&self.game) {
                Some(tree) => {
                    if self.holds_on(tree) {
                        let tip = self.steps[self.steps.len() - 1];
                        assert(tree@.has(self@.steps[self@.steps.len() - 1] as int));
                        tree.board(tip).snakes.len()
                    } else {
                        0
                    }
                },
                None => 0,
            },
            _ => 0,
        }
    }

    /// Takes one step, given what was drawn: a coin and a direction for the
    /// worker's own agent, and a direction for each agent on the board.
    pub fn advance(
        &mut self,
        registry: &mut Registry,
        coin: bool,
        pick: Movement,
        rivals: &Vec<Movement>,
    ) -> (phase: Phase)
        requires
            old(registry)@.wf(),
            rivals@.len() >= old(self)@.lineup(old(registry)@),
        ensures
            (final(self)@, final(registry)@) == old(self)@.next(
                old(registry)@,
                coin,
                pick,
                rivals@,
            ),
            final(registry)@.wf(),
            final(registry)@.grows_from(old(registry)@),
            phase == final(self)@.phase,
    {
        proof {
            lemma_registry_grows_refl(registry@);
        }
        match self.phase {
            Phase::Terminated => {},
            Phase::Stale => {
                self.steps.clear();
                self.phase = Phase::Fresh;
            },
            Phase::Fresh => {
                match crate::registry::restart(registry, &self.game, &mut self.steps) {
                    Some(_) => {
                        self.depth = 0;
                        self.phase = Phase::Extending;
                    },
                    None => {
                        self.phase = Phase::Terminated;
                    },
                }
            },
            Phase::Extending => {
                self.extend(registry, coin, pick, rivals);
            },
            Phase::Scoring => {
                self.settle(registry);
            },
        }
        self.phase
    }

    /// The step of a worker that is extending.
    fn extend(
        &mut self,
        registry: &mut Registry,
        coin: bool,
        pick: Movement,
        rivals: &Vec<Movement>,
    )
        requires
            old(self)@.phase == Phase::Extending,
            old(registry)@.wf(),
            rivals@.len() >= old(self)@.lineup(old(registry)@),
        ensures
            (final(self)@, final(registry)@) == old(self)@.extended(
                old(registry)@,
                coin,
                pick,
                rivals@,
            ),
            final(registry)@.wf(),
            final(registry)@.grows_from(old(registry)@),
    {
        let ghost w = self@;
        let ghost r = registry@;
        proof {
            lemma_registry_grows_refl(r);
        }
        let at = match registry.find(&self.game) {
            Some(at) => at,
            None => {
                self.phase = Phase::Terminated;
                return ;
            },
        };
        proof {
            lemma_place(r, w.game, at as int);
        }
        let ghost t = r.tree(w.game);
        assert(t.wf());
        if !self.holds_on(registry.tree_at(at)) {
            self.phase = Phase::Stale;
            return ;
        }
        let tip = self.steps[self.steps.len() - 1];
        assert(t.has(w.steps[w.steps.len() - 1] as int));
        assert(t.node_wf(tip as int));
        let tree = registry.tree_at(at);
        if tree.score(tip) == 0 || self.depth >= EXPLORE_DEPTH || tree.generation(tip) == u32::MAX {
            self.phase = Phase::Scoring;
            return ;
        }
        let board = tree.board(tip);
        let me = match find_snake(board, &self.snake_id) {
            Some(me) => me,
            None => {
                self.phase = Phase::Terminated;
                return ;
            },
        };
        let last = match last_direction(board, me) {
            Some(last) => last,
            None => {
                self.phase = Phase::Terminated;
                return ;
            },
        };
        let dir = choose_direction(coin, pick, last);
        if tree.child(tip, dir).is_some() {
            return ;
        }
        let dirs = assign(rivals, me, dir, board.snakes.len());
        let next = simulate(board, &dirs);
        let alive = find_snake(&next, &self.snake_id).is_some();
        self.depth = self.depth + 1;
        registry.count_future(at, &self.steps);
        let ghost counted = t.noted(w.steps);
        if !alive {
            self.phase = Phase::Scoring;
            return ;
        }
        proof {
            assert(next@.area() == t.nodes[tip as int].board.area());
            assert(counted.child(tip as int, dir) == t.child(tip as int, dir));
        }
        let ghost mid = registry@;
        let claim = registry.claim(at, tip, dir, next);
        let ghost grown = counted.claimed(tip as int, dir, next@);
        if let Claim::Installed(child) = claim {
            self.steps.push(child);
        }
        proof {
            assert(registry@.sessions =~= r.with_tree(at as int, grown).sessions);
            crate::registry::lemma_registry_grows_trans(r, mid, registry@);
        }
    }

    /// The step of a worker that is scoring.
    fn settle(&mut self, registry: &mut Registry)
        requires
            old(self)@.phase == Phase::Scoring,
            old(registry)@.wf(),
        ensures
            (final(self)@, final(registry)@) == old(self)@.settled(old(registry)@),
            final(registry)@.wf(),
            final(registry)@.grows_from(old(registry)@),
    {
        let ghost w = self@;
        let ghost r = registry@;
        proof {
            lemma_registry_grows_refl(r);
        }
        let at = match registry.find(&self.game) {
            Some(at) => at,
            None => {
                self.phase = Phase::Terminated;
                return ;
            },
        };
        proof {
            lemma_place(r, w.game, at as int);
        }
        let ghost t = r.tree(w.game);
        assert(t.wf());
        if !self.holds_on(registry.tree_at(at)) {
            self.phase = Phase::Stale;
            return ;
        }
        let tip = self.steps[self.steps.len() - 1];
        assert(t.has(w.steps[w.steps.len() - 1] as int));
        assert(t.node_wf(tip as int));
        let tree = registry.tree_at(at);
        let board = tree.board(tip);
        let me = match find_snake(board, &self.snake_id) {
            Some(me) => me,
            None => {
                self.phase = Phase::Terminated;
                return ;
            },
        };
        let found = score(board, me, tree.generation(tip));
        registry.backpropagate(at, &self.steps, found);
        self.depth = 0;
        self.phase = Phase::Extending;
    }
}

/// A step of a worker, whatever is drawn for it, keeps the registry well
/// formed and lets it grow, and adds one node at most.
pub proof fn lemma_next(
    w: WorkerView,
    r: RegistryView,
    coin: bool,
    pick: Movement,
    rivals: Seq<Movement>,
    n: int,
)
    requires
        r.wf(),
        0 <= n,
        r.room(n + 1),
    ensures
        w.next(r, coin, pick, rivals).1.wf(),
        w.next(r, coin, pick, rivals).1.grows_from(r),
        w.next(r, coin, pick, rivals).1.room(n),
{
    let after = w.next(r, coin, pick, rivals).1;
    lemma_registry_grows_refl(r);
    if after != r {
        assert(r.holds(w.game) && w.attached(r));
        let at = r.place(w.game);
        assert(r.is_at(w.game, at));
        let t = r.tree(w.game);
        assert(t.wf());
        let tip = w.tip();
        assert(t.has(w.steps[w.steps.len() - 1] as int));
        assert(t.node_wf(tip));
        let node = t.nodes[tip];
        let me = position(node.board, w.snake_id)->0;
        assert(is_first(node.board, w.snake_id, me));
        if w.phase == Phase::Extending {
            let last = heading(node.board, me)->0;
            let dir = chosen(coin, pick, last);
            let dirs = assignment(rivals, me, dir, node.board.snakes.len() as int);
            let board = step(node.board, dirs);
            let counted = t.noted(w.steps);
            lemma_noted(t, w.steps);
            lemma_step_playable(node.board, dirs);
            if position(board, w.snake_id) is None {
                lemma_with_tree(r, at, counted);
            } else {
                let grown = counted.claimed(tip, dir, board);
                assert(r.sessions[at].tree.nodes.len() + (n + 1) <= usize::MAX);
                lemma_claimed(counted, tip, dir, board);
                lemma_grows_trans(t, counted, grown);
                lemma_with_tree(r, at, grown);
            }
        } else {
            lemma_score_bounds(node.board, me, node.generation);
            let found = score_of(node.board, me, node.generation);
            lemma_backed(t, w.steps, found);
            lemma_with_tree(r, at, t.backed(w.steps, found));
        }
    }
    assert forall|i: int| 0 <= i < after.sessions.len() implies (
    #[trigger] after.sessions[i]).tree.nodes.len() + n <= usize::MAX by {
        assert(r.sessions[i].tree.nodes.len() + (n + 1) <= usize::MAX);
    }
}

/// One entry of a schedule: which worker takes a step, and what is drawn
/// for it.
pub struct Draw {
    pub who: int,
    pub coin: bool,
    pub pick: Movement,
    pub rivals: Seq<Movement>,
}

/// What becomes of a set of workers and of the registry when the workers
/// take their steps one after the other as a schedule says. An entry that
/// names no worker does nothing.
pub open spec fn run(workers: Seq<WorkerView>, r: RegistryView, schedule: Seq<Draw>) -> (
    Seq<WorkerView>,
    RegistryView,
)
    decreases schedule.len(),
{
    if schedule.len() == 0 {
        (workers, r)
    } else {
        let (before, mid) = run(workers, r, schedule.drop_last());
        let draw = schedule.last();
        if 0 <= draw.who < before.len() {
            let (worker, after) = before[draw.who].next(mid, draw.coin, draw.pick, draw.rivals);
            (before.update(draw.who, worker), after)
        } else {
            (before, mid)
        }
    }
}

/// However many workers take however many steps in whatever order, the
/// registry stays well formed and only grows: in every tree each slot that
/// named a child names the same child, no score has fallen, every child is
/// one generation below its parent, and what was historic is historic.
pub proof fn lemma_run(workers: Seq<WorkerView>, r: RegistryView, schedule: Seq<Draw>)
    requires
        r.wf(),
        r.room(schedule.len() as int),
    ensures
        run(workers, r, schedule).1.wf(),
        run(workers, r, schedule).1.grows_from(r),
        run(workers, r, schedule).0.len() == workers.len(),
{
    lemma_run_room(workers, r, schedule, 0);
}

proof fn lemma_run_room(workers: Seq<WorkerView>, r: RegistryView, schedule: Seq<Draw>, n: int)
    requires
        r.wf(),
        0 <= n,
        r.room(schedule.len() + n),
    ensures
        run(workers, r, schedule).1.wf(),
        run(workers, r, schedule).1.grows_from(r),
        run(workers, r, schedule).1.room(n),
        run(workers, r, schedule).0.len() == workers.len(),
    decreases schedule.len(),
{
    if schedule.len() == 0 {
        lemma_registry_grows_refl(r);
    } else {
        let rest = schedule.drop_last();
        lemma_run_room(workers, r, rest, n + 1);
        let (before, mid) = run(workers, r, rest);
        let draw = schedule.last();
        if 0 <= draw.who < before.len() {
            lemma_next(before[draw.who], mid, draw.coin, draw.pick, draw.rivals, n);
            let after = before[draw.who].next(mid, draw.coin, draw.pick, draw.rivals).1;
            lemma_registry_grows_trans(r, mid, after);
        } else {
            assert forall|i: int| 0 <= i < mid.sessions.len() implies (
            #[trigger] mid.sessions[i]).tree.nodes.len() + n <= usize::MAX by {
                assert(mid.sessions[i].tree.nodes.len() + (n + 1) <= usize::MAX);
            }
        }
    }
}

/// Takes one step of a worker with what the generator draws: a
/// coin, a direction for the worker's agent and one for every agent on the
/// board. Returns `None` once the worker has terminated.
pub fn thread_work(worker: &mut Worker, registry: &mut Registry, rng: &mut StdRng) -> (going:
    Option<()>)
    requires
        old(registry)@.wf(),
    ensures
        exists|coin: bool, pick: Movement, rivals: Seq<Movement>|
            (final(worker)@, final(registry)@) == #[trigger] old(worker)@.next(
                old(registry)@,
                coin,
                pick,
                rivals,
            ),
        final(registry)@.wf(),
        final(registry)@.grows_from(old(registry)@),
        going is None <==> final(worker)@.phase == Phase::Terminated,
{
    let mut options: Vec<Movement> = Vec::new();
    options.push(Movement::Right);
    options.push(Movement::Left);
    options.push(Movement::Up);
    options.push(Movement::Down);
    let coin = flip(rng);
    let pick = draw(rng, &options);
    let n = worker.lineup(registry);
    let mut rivals: Vec<Movement> = Vec::new();
    while rivals.len() < n
        invariant
            options@.len() == 4,
            rivals@.len() <= n,
        decreases n - rivals@.len(),
    {
        rivals.push(draw(rng, &options));
    }
    match worker.advance(registry, coin, pick, &rivals) {
        Phase::Terminated => None,
        _ => Some(()),
    }
}

} // verus!
