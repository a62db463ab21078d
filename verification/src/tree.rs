//! The search tree: simulated futures of one game, kept in an arena.
//!
//! A node is named by its place in the arena. Each node has one slot per
//! direction; a slot is empty or names the child that was reached by moving
//! in that direction. Nodes are never taken out, a slot that names a child
//! names it for good, a score only rises and a node that has become historic
//! stays so.

use vstd::prelude::*;
use crate::requests::{Board, BoardView};
use crate::responses::Movement;

verus! {

/// The mathematical model of a [`SnekStep`].
pub struct StepView {
    /// The depth in turns, counted from the root of its turn, which has 1.
    pub generation: int,
    /// The node belongs to a turn that has been superseded.
    pub historic: bool,
    /// The best score found so far at or below the node.
    pub score: int,
    /// How many simulations passed through the node.
    pub children: int,
    pub board: BoardView,
    /// One slot per direction, in the fixed order of the directions.
    pub dirs: Seq<Option<usize>>,
    /// The node whose slot names this one, if there is one.
    pub parent: Option<int>,
}

impl StepView {
    /// A node that nothing has been done with yet.
    pub open spec fn fresh(generation: int, board: BoardView) -> StepView {
        StepView {
            generation,
            historic: false,
            score: 0,
            children: 0,
            board,
            dirs: seq![None, None, None, None],
            parent: None,
        }
    }

    /// What can become of a node in time: its generation, board and parent
    /// stay, its score and its counter do not fall, it stays historic once it
    /// is, and a slot that names a child keeps naming it.
    pub open spec fn grows_from(self, was: StepView) -> bool {
        &&& self.generation == was.generation
        &&& self.board == was.board
        &&& self.parent == was.parent
        &&& self.score >= was.score
        &&& self.children >= was.children
        &&& was.historic ==> self.historic
        &&& self.dirs.len() == was.dirs.len()
        &&& forall|k: int|
            0 <= k < was.dirs.len() && (#[trigger] was.dirs[k]) is Some ==> self.dirs[k]
                == was.dirs[k]
    }
}

/// One simulated state of the game with what the search knows of it.
pub struct SnekStep {
    generation: u32,
    historic: bool,
    score: u64,
    children: u32,
    board: Board,
    dirs: [Option<usize>; 4],
    parent: Ghost<Option<int>>,
}

impl View for SnekStep {
    type V = StepView;

    closed spec fn view(&self) -> StepView {
        StepView {
            generation: self.generation as int,
            historic: self.historic,
            score: self.score as int,
            children: self.children as int,
            board: self.board@,
            dirs: self.dirs@,
            parent: self.parent@,
        }
    }
}

impl SnekStep {
    /// A node for `board` at `generation`, with no score, no children and
    /// four empty slots.
    pub fn new(generation: u32, board: Board) -> (step: SnekStep)
        ensures
            step@ == StepView::fresh(generation as int, board@),
    {
        let step = SnekStep {
            generation,
            historic: false,
            score: 0,
            children: 0,
            board,
            dirs: [None, None, None, None],
            parent: Ghost(None),
        };
        assert(step.dirs@ =~= seq![None, None, None, None]);
        step
    }
}

/// The mathematical model of a [`Tree`].
pub struct TreeView {
    pub nodes: Seq<StepView>,
    /// The node that stands for the current turn.
    pub root: int,
}

impl TreeView {
    /// `i` names a node.
    pub open spec fn has(self, i: int) -> bool {
        0 <= i < self.nodes.len()
    }

    /// What the slot of node `i` for direction `dir` holds.
    pub open spec fn child(self, i: int, dir: Movement) -> Option<usize> {
        self.nodes[i].dirs[dir.spec_to_int() as int]
    }

    /// Some slot of node `i` names node `c`.
    pub open spec fn is_child(self, i: int, c: int) -> bool {
        exists|dir: Movement| #[trigger] self.child(i, dir) == Some(c as usize)
    }

    /// Node `c` in a slot of node `i` came later, is one generation deeper,
    /// knows its parent and has no better score than it.
    pub open spec fn edge_wf(self, i: int, c: int) -> bool {
        &&& i < c < self.nodes.len()
        &&& self.nodes[c].generation == self.nodes[i].generation + 1
        &&& self.nodes[c].parent == Some(i)
        &&& self.nodes[c].score <= self.nodes[i].score
    }

    pub open spec fn node_wf(self, i: int) -> bool {
        let n = self.nodes[i];
        &&& n.dirs.len() == 4
        &&& 1 <= n.generation <= u32::MAX
        &&& n.parent is None <==> n.generation == 1
        &&& 0 <= n.score <= u64::MAX
        &&& 0 <= n.children <= u32::MAX
        &&& n.board.playable()
        &&& forall|dir: Movement| #[trigger] self.slot_wf(i, dir)
    }

    /// The slot of node `i` for `dir` is empty or names a child in order.
    pub open spec fn slot_wf(self, i: int, dir: Movement) -> bool {
        self.child(i, dir) matches Some(c) ==> self.edge_wf(i, c as int)
    }

    /// The tree is well formed: its root is a node without a parent, and
    /// every node is in order with its children.
    pub open spec fn wf(self) -> bool {
        &&& self.has(self.root)
        &&& self.nodes[self.root].parent is None
        &&& forall|i: int| self.has(i) ==> #[trigger] self.node_wf(i)
    }

    /// What can become of a tree in time: nodes are added, and each node
    /// that was there grows.
    pub open spec fn grows_from(self, was: TreeView) -> bool {
        &&& was.nodes.len() <= self.nodes.len()
        &&& forall|i: int| was.has(i) ==> (#[trigger] self.nodes[i]).grows_from(was.nodes[i])
    }

    /// The path goes down the tree from a node without a parent, each node a
    /// child of the one before.
    pub open spec fn chain(self, path: Seq<usize>) -> bool {
        &&& path.len() >= 1
        &&& forall|k: int| 0 <= k < path.len() ==> self.has(#[trigger] path[k] as int)
        &&& self.nodes[path[0] as int].parent is None
        &&& forall|k: int|
            #![trigger path[k]]
            0 <= k < path.len() - 1 ==> self.is_child(path[k] as int, path[k + 1] as int)
    }

    /// A tree of one node: the root of a turn, which starts with score 1.
    pub open spec fn seed(board: BoardView) -> TreeView {
        TreeView { nodes: seq![StepView { score: 1, ..StepView::fresh(1, board) }], root: 0 }
    }

    /// The tree after a new turn began on `board`: the old root is historic,
    /// and a new root stands at the end of the arena.
    pub open spec fn rerooted(self, board: BoardView) -> TreeView {
        TreeView {
            nodes: self.nodes.update(
                self.root,
                StepView { historic: true, ..self.nodes[self.root] },
            ).push(StepView { score: 1, ..StepView::fresh(1, board) }),
            root: self.nodes.len() as int,
        }
    }

    /// The tree after node `i` became historic.
    pub open spec fn retired(self, i: int) -> TreeView {
        TreeView {
            nodes: self.nodes.update(i, StepView { historic: true, ..self.nodes[i] }),
            root: self.root,
        }
    }

    /// The tree after a claim of the slot of `parent` for `dir`: where the
    /// slot names a child already nothing has changed, else a new node for
    /// `board` stands at the end of the arena and the slot names it.
    pub open spec fn claimed(self, parent: int, dir: Movement, board: BoardView) -> TreeView {
        if self.child(parent, dir) is Some {
            self
        } else {
            let p = self.nodes[parent];
            let slot = dir.spec_to_int() as int;
            TreeView {
                nodes: self.nodes.update(
                    parent,
                    StepView { dirs: p.dirs.update(slot, Some(self.nodes.len() as usize)), ..p },
                ).push(
                    StepView { parent: Some(parent), ..StepView::fresh(p.generation + 1, board) },
                ),
                root: self.root,
            }
        }
    }

    /// The tree after `score` was handed back along the path: every node on
    /// it has the better of its old score and `score`.
    pub open spec fn backed(self, path: Seq<usize>, score: int) -> TreeView {
        TreeView {
            nodes: Seq::new(
                self.nodes.len(),
                |i: int|
                    if path.contains(i as usize) && self.nodes[i].score < score {
                        StepView { score, ..self.nodes[i] }
                    } else {
                        self.nodes[i]
                    },
            ),
            root: self.root,
        }
    }

    /// The tree after one more simulation was counted at every node of the
    /// path. A counter that has reached the largest number it can hold stays.
    pub open spec fn noted(self, path: Seq<usize>) -> TreeView {
        TreeView {
            nodes: Seq::new(
                self.nodes.len(),
                |i: int|
                    if path.contains(i as usize) && self.nodes[i].children < u32::MAX {
                        StepView { children: self.nodes[i].children + 1, ..self.nodes[i] }
                    } else {
                        self.nodes[i]
                    },
            ),
            root: self.root,
        }
    }

    /// The score in the slot of node `i` for `dir`; an empty slot counts 0.
    pub open spec fn slot_score(self, i: int, dir: Movement) -> int {
        match self.child(i, dir) {
            Some(c) => self.nodes[c as int].score,
            None => 0,
        }
    }

    /// `dir` with `score` is the best move at node `i`. Where no slot names a
    /// child it is Right with score 0. Else `dir` is a slot that names a
    /// child, `score` is the score of that child, no child has a better
    /// score, and every child in a slot before `dir` has a worse one.
    pub open spec fn is_best(self, i: int, dir: Movement, score: int) -> bool {
        if forall|any: Movement| (#[trigger] self.child(i, any)) is None {
            dir == Movement::Right && score == 0
        } else {
            &&& self.child(i, dir) is Some
            &&& self.slot_score(i, dir) == score
            &&& forall|other: Movement|
                (#[trigger] self.child(i, other)) is Some ==> self.slot_score(i, other) <= score
            &&& forall|other: Movement|
                (#[trigger] self.child(i, other)) is Some && other.spec_to_int()
                    < dir.spec_to_int() ==> self.slot_score(i, other) < score
        }
    }
}

/// A tree grows from itself.
pub proof fn lemma_grows_refl(t: TreeView)
    ensures
        t.grows_from(t),
{
}

/// Growing is transitive: what holds between one state of the tree and the
/// next holds between any state and any later one.
pub proof fn lemma_grows_trans(a: TreeView, b: TreeView, c: TreeView)
    requires
        b.grows_from(a),
        c.grows_from(b),
    ensures
        c.grows_from(a),
{
    assert forall|i: int| a.has(i) implies (#[trigger] c.nodes[i]).grows_from(a.nodes[i]) by {
        assert(b.nodes[i].grows_from(a.nodes[i]));
        assert(c.nodes[i].grows_from(b.nodes[i]));
        let x = a.nodes[i];
        let y = b.nodes[i];
        let z = c.nodes[i];
        assert forall|k: int|
            0 <= k < x.dirs.len() && (#[trigger] x.dirs[k]) is Some implies z.dirs[k]
            == x.dirs[k] by {
            assert(y.dirs[k] == x.dirs[k]);
            assert(y.dirs[k] is Some);
        }
    }
}

/// A slot holds one child for good: in a tree that grew, a slot that named a
/// child names the same child.
pub proof fn lemma_slot_keeps_its_child(was: TreeView, now: TreeView, i: int, dir: Movement)
    requires
        now.grows_from(was),
        was.has(i),
        was.nodes[i].dirs.len() == 4,
        was.child(i, dir) is Some,
    ensures
        now.child(i, dir) == was.child(i, dir),
{
    assert(now.nodes[i].grows_from(was.nodes[i]));
    assert(was.nodes[i].dirs[dir.spec_to_int() as int] is Some);
}

/// A score never falls: in a tree that grew, every node has at least the
/// score it had.
pub proof fn lemma_score_never_falls(was: TreeView, now: TreeView, i: int)
    requires
        now.grows_from(was),
        was.has(i),
    ensures
        now.nodes[i].score >= was.nodes[i].score,
{
    assert(now.nodes[i].grows_from(was.nodes[i]));
}

/// Historic is for good: in a tree that grew, a node that was historic is
/// historic.
pub proof fn lemma_historic_stays(was: TreeView, now: TreeView, i: int)
    requires
        now.grows_from(was),
        was.has(i),
        was.nodes[i].historic,
    ensures
        now.nodes[i].historic,
{
    assert(now.nodes[i].grows_from(was.nodes[i]));
}

/// For every parent and child, the child is one generation deeper.
pub proof fn lemma_generation(t: TreeView, i: int, dir: Movement)
    requires
        t.wf(),
        t.has(i),
        t.child(i, dir) is Some,
    ensures
        t.has(t.child(i, dir)->0 as int),
        t.nodes[t.child(i, dir)->0 as int].generation == t.nodes[i].generation + 1,
{
    assert(t.node_wf(i));
    assert(t.slot_wf(i, dir));
}

impl TreeView {
    /// Node `i` stands on the path at place `k` or later.
    pub open spec fn on_tail(path: Seq<usize>, k: int, i: int) -> bool {
        exists|j: int| k <= j < path.len() && #[trigger] path[j] == i
    }

    /// The tree after `score` was handed back along the path from its end
    /// down to place `k`.
    pub open spec fn backed_from(self, path: Seq<usize>, k: int, score: int) -> TreeView {
        TreeView {
            nodes: Seq::new(
                self.nodes.len(),
                |i: int|
                    if TreeView::on_tail(path, k, i) && self.nodes[i].score < score {
                        StepView { score, ..self.nodes[i] }
                    } else {
                        self.nodes[i]
                    },
            ),
            root: self.root,
        }
    }

    /// The tree after a simulation was counted along the path from its end
    /// down to place `k`.
    pub open spec fn noted_from(self, path: Seq<usize>, k: int) -> TreeView {
        TreeView {
            nodes: Seq::new(
                self.nodes.len(),
                |i: int|
                    if TreeView::on_tail(path, k, i) && self.nodes[i].children < u32::MAX {
                        StepView { children: self.nodes[i].children + 1, ..self.nodes[i] }
                    } else {
                        self.nodes[i]
                    },
            ),
            root: self.root,
        }
    }
}

/// The best move at a node is one move only: whoever asks gets the same
/// direction and the same score.
pub proof fn lemma_best_is_one(t: TreeView, i: int, a: (Movement, int), b: (Movement, int))
    requires
        t.is_best(i, a.0, a.1),
        t.is_best(i, b.0, b.1),
    ensures
        a == b,
{
    if !(forall|any: Movement| (#[trigger] t.child(i, any)) is None) {
        assert(t.child(i, a.0) is Some);
        assert(t.child(i, b.0) is Some);
        assert(a.1 == b.1);
        if a.0.spec_to_int() < b.0.spec_to_int() {
            assert(t.slot_score(i, a.0) < b.1);
        } else if b.0.spec_to_int() < a.0.spec_to_int() {
            assert(t.slot_score(i, b.0) < a.1);
        }
    }
}

/// The best move at a node with a child is never an empty slot, also where
/// no child has a score yet.
pub proof fn lemma_best_is_a_child(t: TreeView, i: int, held: Movement, dir: Movement, score: int)
    requires
        t.child(i, held) is Some,
        t.is_best(i, dir, score),
    ensures
        t.child(i, dir) is Some,
        score == t.slot_score(i, dir),
        score >= t.slot_score(i, held),
{
}

/// Down a chain the places in the arena rise and the scores do not.
pub proof fn lemma_chain_order(t: TreeView, path: Seq<usize>, j: int, k: int)
    requires
        t.wf(),
        t.chain(path),
        0 <= j <= k < path.len(),
    ensures
        j < k ==> path[j] < path[k],
        t.nodes[path[j] as int].score >= t.nodes[path[k] as int].score,
        t.nodes[path[k] as int].generation == t.nodes[path[j] as int].generation + (k - j),
    decreases k - j,
{
    if j < k {
        lemma_chain_order(t, path, j, k - 1);
        let a = path[k - 1] as int;
        assert(t.is_child(a, path[k - 1 + 1] as int));
        let dir = choose|dir: Movement| #[trigger] t.child(a, dir) == Some(path[k] as int as usize);
        assert(t.node_wf(a));
        assert(t.slot_wf(a, dir));
    }
}

/// A tree of one fresh root is well formed.
pub proof fn lemma_seed_wf(board: BoardView)
    requires
        board.playable(),
    ensures
        TreeView::seed(board).wf(),
{
    let t = TreeView::seed(board);
    assert forall|i: int| t.has(i) implies #[trigger] t.node_wf(i) by {
        assert(i == 0);
    }
}

/// A new turn keeps the tree well formed and lets it grow.
pub proof fn lemma_rerooted(t: TreeView, board: BoardView)
    requires
        t.wf(),
        board.playable(),
    ensures
        t.rerooted(board).wf(),
        t.rerooted(board).grows_from(t),
        t.rerooted(board).nodes[t.root].historic,
{
    let u = t.rerooted(board);
    assert forall|i: int| u.has(i) implies #[trigger] u.node_wf(i) by {
        if i < t.nodes.len() {
            assert(t.node_wf(i));
            assert forall|dir: Movement| #[trigger] u.slot_wf(i, dir) by {
                assert(u.child(i, dir) == t.child(i, dir));
                assert(t.slot_wf(i, dir));
            }
        }
    }
}

/// Making a node historic keeps the tree well formed and lets it grow.
pub proof fn lemma_retired(t: TreeView, n: int)
    requires
        t.wf(),
        t.has(n),
    ensures
        t.retired(n).wf(),
        t.retired(n).grows_from(t),
{
    let u = t.retired(n);
    assert forall|i: int| u.has(i) implies #[trigger] u.node_wf(i) by {
        assert(t.node_wf(i));
        assert forall|dir: Movement| #[trigger] u.slot_wf(i, dir) by {
            assert(u.child(i, dir) == t.child(i, dir));
            assert(t.slot_wf(i, dir));
        }
    }
}

/// A claim keeps the tree well formed and lets it grow. A slot that named a
/// child before the claim names the same child after it.
pub proof fn lemma_claimed(t: TreeView, parent: int, dir: Movement, board: BoardView)
    requires
        t.wf(),
        t.has(parent),
        t.nodes[parent].generation < u32::MAX,
        t.nodes.len() < usize::MAX,
        board.playable(),
    ensures
        t.claimed(parent, dir, board).wf(),
        t.claimed(parent, dir, board).grows_from(t),
        t.child(parent, dir) is Some ==> t.claimed(parent, dir, board) == t,
        t.child(parent, dir) is None ==> t.claimed(parent, dir, board).child(parent, dir) == Some(
            t.nodes.len() as usize,
        ),
{
    let u = t.claimed(parent, dir, board);
    assert(t.node_wf(parent));
    if t.child(parent, dir) is None {
        let fresh = t.nodes.len() as int;
        let slot = dir.spec_to_int() as int;
        assert forall|i: int| u.has(i) implies #[trigger] u.node_wf(i) by {
            if i < fresh {
                assert(t.node_wf(i));
                assert forall|other: Movement| #[trigger] u.slot_wf(i, other) by {
                    if i == parent && other == dir {
                    } else {
                        assert(u.child(i, other) == t.child(i, other));
                        assert(t.slot_wf(i, other));
                    }
                }
            }
        }
        assert forall|i: int| t.has(i) implies (#[trigger] u.nodes[i]).grows_from(t.nodes[i]) by {
            assert(t.node_wf(i));
        }
    }
}

/// Handing a score back along a chain keeps the tree well formed and lets
/// it grow: whatever the order in which scores are handed back, every node
/// has at least the score of each of its children.
pub proof fn lemma_backed(t: TreeView, path: Seq<usize>, score: int)
    requires
        t.wf(),
        t.chain(path),
        0 <= score <= u64::MAX,
    ensures
        t.backed(path, score).wf(),
        t.backed(path, score).grows_from(t),
        forall|k: int|
            0 <= k < path.len() ==> t.backed(path, score).nodes[#[trigger] path[k] as int].score
                >= score,
{
    let u = t.backed(path, score);
    assert forall|i: int| u.has(i) implies #[trigger] u.node_wf(i) by {
        assert(t.node_wf(i));
        assert forall|dir: Movement| #[trigger] u.slot_wf(i, dir) by {
            assert(u.child(i, dir) == t.child(i, dir));
            assert(t.slot_wf(i, dir));
            let c = t.child(i, dir)->0 as int;
            if t.child(i, dir) is Some && path.contains(c as usize) && !path.contains(i as usize) {
                let k = choose|k: int| 0 <= k < path.len() && path[k] == c as usize;
                if k > 0 {
                    assert(t.is_child(path[k - 1] as int, path[k - 1 + 1] as int));
                    let a = path[k - 1] as int;
                    let up = choose|up: Movement| #[trigger] t.child(a, up) == Some(c as usize);
                    assert(t.has(a));
                    assert(t.node_wf(a));
                    assert(t.slot_wf(a, up));
                    assert(t.edge_wf(a, c));
                    assert(t.edge_wf(i, c));
                    assert(a == i);
                    assert(path.contains(path[k - 1]));
                } else {
                    assert(t.nodes[c].parent is None);
                }
            }
        }
    }
    assert forall|k: int| 0 <= k < path.len() implies u.nodes[#[trigger] path[k] as int].score
        >= score by {
        assert(path.contains(path[k]));
        assert(t.has(path[k] as int));
    }
}

/// Counting a simulation along a path keeps the tree well formed and lets
/// it grow.
pub proof fn lemma_noted(t: TreeView, path: Seq<usize>)
    requires
        t.wf(),
    ensures
        t.noted(path).wf(),
        t.noted(path).grows_from(t),
{
    let u = t.noted(path);
    assert forall|i: int| u.has(i) implies #[trigger] u.node_wf(i) by {
        assert(t.node_wf(i));
        assert forall|dir: Movement| #[trigger] u.slot_wf(i, dir) by {
            assert(u.child(i, dir) == t.child(i, dir));
            assert(t.slot_wf(i, dir));
        }
    }
}

/// A chain of a tree is a chain of every tree that grows from it.
pub proof fn lemma_chain_stays(was: TreeView, now: TreeView, path: Seq<usize>)
    requires
        was.wf(),
        was.chain(path),
        now.grows_from(was),
    ensures
        now.chain(path),
{
    assert forall|k: int| 0 <= k < path.len() implies now.has(#[trigger] path[k] as int) by {
        assert(was.has(path[k] as int));
    }
    assert(now.nodes[path[0] as int].grows_from(was.nodes[path[0] as int]));
    assert forall|k: int| #![trigger path[k]] 0 <= k < path.len() - 1 implies now.is_child(
        path[k] as int,
        path[k + 1] as int,
    ) by {
        let a = path[k] as int;
        assert(was.has(a));
        assert(was.is_child(a, path[k + 1] as int));
        let dir = choose|dir: Movement| #[trigger]
            was.child(a, dir) == Some(path[k + 1] as int as usize);
        assert(was.node_wf(a));
        lemma_slot_keeps_its_child(was, now, a, dir);
        assert(now.child(a, dir) == Some(path[k + 1] as int as usize));
    }
}

/// What a claim of a slot comes to.
#[derive(Clone, Copy, Debug, PartialEq, Eq, Structural)]
pub enum Claim {
    /// The slot was empty; it now names this new node.
    Installed(usize),
    /// The slot named this child already; nothing was changed.
    Taken(usize),
}

/// The search tree of one game.
pub struct Tree {
    nodes: Vec<SnekStep>,
    root: usize,
}

impl View for Tree {
    type V = TreeView;

    closed spec fn view(&self) -> TreeView {
        TreeView {
            nodes: Seq::new(self.nodes@.len(), |i: int| self.nodes@[i]@),
            root: self.root as int,
        }
    }
}

impl Tree {
    /// The tree of a game whose first turn stands on `board`.
    pub fn new(board: Board) -> (tree: Tree)
        requires
            board@.playable(),
        ensures
            tree@ == TreeView::seed(board@),
            tree@.wf(),
    {
        let mut step = SnekStep::new(1, board);
        step.score = 1;
        let mut nodes: Vec<SnekStep> = Vec::new();
        nodes.push(step);
        let tree = Tree { nodes, root: 0 };
        proof {
            assert(tree@.nodes =~= TreeView::seed(board@).nodes);
            lemma_seed_wf(board@);
        }
        tree
    }

    /// The number of nodes.
    pub fn len(&self) -> (len: usize)
        ensures
            len == self@.nodes.len(),
    {
        self.nodes.len()
    }

    /// The node that stands for the current turn.
    pub fn root(&self) -> (root: usize)
        ensures
            root == self@.root,
    {
        self.root
    }

    pub fn generation(&self, i: usize) -> (generation: u32)
        requires
            self@.has(i as int),
        ensures
            generation == self@.nodes[i as int].generation,
    {
        self.nodes[i].generation
    }

    pub fn score(&self, i: usize) -> (score: u64)
        requires
            self@.has(i as int),
        ensures
            score == self@.nodes[i as int].score,
    {
        self.nodes[i].score
    }

    /// How many simulations passed through node `i`.
    pub fn children(&self, i: usize) -> (children: u32)
        requires
            self@.has(i as int),
        ensures
            children == self@.nodes[i as int].children,
    {
        self.nodes[i].children
    }

    pub fn is_historic(&self, i: usize) -> (historic: bool)
        requires
            self@.has(i as int),
        ensures
            historic == self@.nodes[i as int].historic,
    {
        self.nodes[i].historic
    }

    pub fn board(&self, i: usize) -> (board: &Board)
        requires
            self@.has(i as int),
        ensures
            board@ == self@.nodes[i as int].board,
    {
        &self.nodes[i].board
    }

    /// What the slot of node `i` for `dir` holds.
    pub fn child(&self, i: usize, dir: Movement) -> (child: Option<usize>)
        requires
            self@.has(i as int),
        ensures
            child == self@.child(i as int, dir),
    {
        self.nodes[i].dirs[dir.to_int()]
    }

    /// Begins a new turn on `board`: the old root becomes historic, and a
    /// new root is added, whose place is returned.
    pub fn replace_root(&mut self, board: Board) -> (root: usize)
        requires
            old(self)@.wf(),
            board@.playable(),
        ensures
            final(self)@ == old(self)@.rerooted(board@),
            final(self)@.wf(),
            final(self)@.grows_from(old(self)@),
            root == final(self)@.root,
    {
        let ghost before = self@;
        let mut step = SnekStep::new(1, board);
        step.score = 1;
        let at = self.root;
        self.nodes[at].historic = true;
        self.root = self.nodes.len();
        self.nodes.push(step);
        proof {
            assert(self@.nodes =~= before.rerooted(board@).nodes);
            lemma_rerooted(before, board@);
        }
        self.root
    }

    /// Makes node `i` historic.
    pub fn mark_historic(&mut self, i: usize)
        requires
            old(self)@.wf(),
            old(self)@.has(i as int),
        ensures
            final(self)@ == old(self)@.retired(i as int),
            final(self)@.wf(),
            final(self)@.grows_from(old(self)@),
    {
        let ghost before = self@;
        self.nodes[i].historic = true;
        proof {
            assert(self@.nodes =~= before.retired(i as int).nodes);
            lemma_retired(before, i as int);
        }
    }

    /// Claims the slot of `parent` for `dir`. Where the slot is empty, a
    /// node for `board` is added one generation below `parent` and the slot
    /// names it. Where the slot names a child, the tree stays as it is and
    /// `board` is dropped.
    pub fn claim(&mut self, parent: usize, dir: Movement, board: Board) -> (claim: Claim)
        requires
            old(self)@.wf(),
            old(self)@.has(parent as int),
            old(self)@.nodes[parent as int].generation < u32::MAX,
            board@.playable(),
        ensures
            final(self)@ == old(self)@.claimed(parent as int, dir, board@),
            final(self)@.wf(),
            final(self)@.grows_from(old(self)@),
            match old(self)@.child(parent as int, dir) {
                Some(c) => claim == Claim::Taken(c),
                None => claim == Claim::Installed(old(self)@.nodes.len() as usize),
            },
    {
        let ghost before = self@;
        if let Some(c) = self.nodes[parent].dirs[dir.to_int()] {
            proof {
                lemma_grows_refl(before);
            }
            return Claim::Taken(c);
        }
        let fresh = self.nodes.len();
        let mut step = SnekStep::new(self.nodes[parent].generation + 1, board);
        step.parent = Ghost(Some(parent as int));
        self.nodes[parent].dirs[dir.to_int()] = Some(fresh);
        self.nodes.push(step);
        let grown = self.nodes.len();
        proof {
            assert(grown == before.nodes.len() + 1);
            assert(self@.nodes =~= before.claimed(parent as int, dir, board@).nodes);
            lemma_claimed(before, parent as int, dir, board@);
        }
        Claim::Installed(fresh)
    }

    /// Tells whether the path is a chain of the tree.
    pub fn is_chain(&self, path: &Vec<usize>) -> (ok: bool)
        requires
            self@.wf(),
        ensures
            ok == self@.chain(path@),
    {
        if path.len() == 0 {
            return false;
        }
        if path[0] >= self.nodes.len() {
            assert(!self@.has(path@[0] as int));
            return false;
        }
        assert(self@.node_wf(path@[0] as int));
        if self.nodes[path[0]].generation != 1 {
            return false;
        }
        let mut k: usize = 1;
        while k < path.len()
            invariant
                1 <= k <= path@.len(),
                self@.wf(),
                self@.chain(path@.take(k as int)),
            decreases path@.len() - k,
        {
            let ghost head = path@.take(k as int);
            let ghost next = path@.take(k + 1);
            if path[k] >= self.nodes.len() {
                assert(!self@.has(path@[k as int] as int));
                return false;
            }
            let up = path[k - 1];
            assert(self@.has(head[k - 1] as int));
            let down = Some(path[k]);
            let linked = self.child(up, Movement::Right) == down || self.child(up, Movement::Left)
                == down || self.child(up, Movement::Up) == down || self.child(up, Movement::Down)
                == down;
            if !linked {
                assert(!self@.is_child(path@[k - 1] as int, path@[k - 1 + 1] as int)) by {
                    assert forall|dir: Movement| #[trigger]
                        self@.child(up as int, dir) != Some(path@[k as int] as int as usize) by {
                        match dir {
                            Movement::Right => {},
                            Movement::Left => {},
                            Movement::Up => {},
                            Movement::Down => {},
                        }
                    }
                }
                return false;
            }
            proof {
                let dir = if self@.child(up as int, Movement::Right) == down {
                    Movement::Right
                } else if self@.child(up as int, Movement::Left) == down {
                    Movement::Left
                } else if self@.child(up as int, Movement::Up) == down {
                    Movement::Up
                } else {
                    Movement::Down
                };
                assert(self@.child(up as int, dir) == Some(path@[k as int] as int as usize));
                assert(self@.is_child(up as int, path@[k as int] as int));
                assert forall|j: int| 0 <= j < next.len() implies self@.has(
                    #[trigger] next[j] as int,
                ) by {
                    if j < k {
                        assert(head[j] == next[j]);
                    }
                }
                assert forall|j: int|
                    #![trigger next[j]]
                    0 <= j < next.len() - 1 implies self@.is_child(
                    next[j] as int,
                    next[j + 1] as int,
                ) by {
                    if j < k - 1 {
                        assert(head[j] == next[j]);
                        assert(head[j + 1] == next[j + 1]);
                    }
                }
                assert(head[0] == next[0]);
            }
            k += 1;
        }
        assert(path@.take(k as int) =~= path@);
        true
    }

    /// Hands `score` back along the path, from its end to its start: every
    /// node on the path gets the better of its old score and `score`. The
    /// walk ends at the first node that has as much already, since the
    /// nodes above it have no less.
    pub fn backpropagate(&mut self, path: &Vec<usize>, score: u64)
        requires
            old(self)@.wf(),
            old(self)@.chain(path@),
        ensures
            final(self)@ == old(self)@.backed(path@, score as int),
            final(self)@.wf(),
            final(self)@.grows_from(old(self)@),
    {
        let ghost before = self@;
        let total = self.nodes.len();
        let mut k: usize = path.len();
        let mut rising = true;
        proof {
            assert(self@.nodes =~= before.backed_from(path@, k as int, score as int).nodes);
        }
        while rising && k > 0
            invariant
                k <= path@.len(),
                before.wf(),
                before.chain(path@),
                self@ == before.backed_from(path@, k as int, score as int),
                self.nodes@.len() == total == before.nodes.len(),
                !rising ==> k > 0 && before.nodes[path@[k - 1] as int].score >= score,
            decreases k, (if rising { 1int } else { 0int }),
        {
            let at = path[k - 1];
            proof {
                assert(before.has(path@[k - 1] as int));
                assert forall|j: int| k <= j < path@.len() implies #[trigger] path@[j] != at by {
                    lemma_chain_order(before, path@, k - 1, j);
                }
                assert(!TreeView::on_tail(path@, k as int, at as int));
                assert(self@.nodes[at as int] == before.nodes[at as int]);
            }
            let ghost mid = self@;
            if self.nodes[at].score < score {
                self.nodes[at].score = score;
                proof {
                    assert(self@.nodes =~= mid.nodes.update(
                        at as int,
                        StepView { score: score as int, ..mid.nodes[at as int] },
                    ));
                    let now = before.backed_from(path@, k - 1, score as int);
                    assert forall|i: int| 0 <= i < now.nodes.len() implies self@.nodes[i]
                        == now.nodes[i] by {
                        if i == at {
                            assert(path@[k - 1] == i);
                            assert(TreeView::on_tail(path@, k - 1, i));
                        } else if TreeView::on_tail(path@, k - 1, i) {
                            let j = choose|j: int|
                                k - 1 <= j < path@.len() && #[trigger] path@[j] == i;
                            assert(TreeView::on_tail(path@, k as int, i));
                        } else if TreeView::on_tail(path@, k as int, i) {
                            let j = choose|j: int| k <= j < path@.len() && #[trigger] path@[j] == i;
                            assert(TreeView::on_tail(path@, k - 1, i));
                        }
                    }
                    assert(self@.nodes =~= now.nodes);
                }
                k -= 1;
            } else {
                rising = false;
            }
        }
        proof {
            let now = before.backed(path@, score as int);
            assert forall|i: int| 0 <= i < now.nodes.len() implies self@.nodes[i]
                == now.nodes[i] by {
                if path@.contains(i as usize) {
                    let j = choose|j: int| 0 <= j < path@.len() && path@[j] == i as usize;
                    if j >= k {
                        assert(TreeView::on_tail(path@, k as int, i));
                    } else {
                        lemma_chain_order(before, path@, j, k - 1);
                        if TreeView::on_tail(path@, k as int, i) {
                            let m = choose|m: int| k <= m < path@.len() && #[trigger] path@[m] == i;
                            lemma_chain_order(before, path@, j, m);
                        }
                    }
                } else if TreeView::on_tail(path@, k as int, i) {
                    let m = choose|m: int| k <= m < path@.len() && #[trigger] path@[m] == i;
                    assert(path@[m] == i as usize);
                }
            }
            assert(self@.nodes =~= now.nodes);
            lemma_backed(before, path@, score as int);
        }
    }

    /// Counts one more simulation at every node of the path.
    pub fn count_future(&mut self, path: &Vec<usize>)
        requires
            old(self)@.wf(),
            old(self)@.chain(path@),
        ensures
            final(self)@ == old(self)@.noted(path@),
            final(self)@.wf(),
            final(self)@.grows_from(old(self)@),
    {
        let ghost before = self@;
        let total = self.nodes.len();
        let mut k: usize = path.len();
        proof {
            assert(self@.nodes =~= before.noted_from(path@, k as int).nodes);
        }
        while k > 0
            invariant
                k <= path@.len(),
                before.wf(),
                before.chain(path@),
                self@ == before.noted_from(path@, k as int),
                self.nodes@.len() == total == before.nodes.len(),
            decreases k,
        {
            let at = path[k - 1];
            proof {
                assert(before.has(path@[k - 1] as int));
                assert(before.node_wf(at as int));
                assert forall|j: int| k <= j < path@.len() implies #[trigger] path@[j] != at by {
                    lemma_chain_order(before, path@, k - 1, j);
                }
                assert(!TreeView::on_tail(path@, k as int, at as int));
                assert(self@.nodes[at as int] == before.nodes[at as int]);
            }
            let ghost mid = self@;
            if self.nodes[at].children < u32::MAX {
                self.nodes[at].children = self.nodes[at].children + 1;
                proof {
                    assert(self@.nodes =~= mid.nodes.update(
                        at as int,
                        StepView {
                            children: mid.nodes[at as int].children + 1,
                            ..mid.nodes[at as int]
                        },
                    ));
                }
            }
            proof {
                let now = before.noted_from(path@, k - 1);
                assert forall|i: int| 0 <= i < now.nodes.len() implies self@.nodes[i]
                    == now.nodes[i] by {
                    if i == at {
                        assert(path@[k - 1] == i);
                        assert(TreeView::on_tail(path@, k - 1, i));
                    } else if TreeView::on_tail(path@, k - 1, i) {
                        let j = choose|j: int| k - 1 <= j < path@.len() && #[trigger] path@[j] == i;
                        assert(TreeView::on_tail(path@, k as int, i));
                    } else if TreeView::on_tail(path@, k as int, i) {
                        let j = choose|j: int| k <= j < path@.len() && #[trigger] path@[j] == i;
                        assert(TreeView::on_tail(path@, k - 1, i));
                    }
                }
                assert(self@.nodes =~= now.nodes);
            }
            k -= 1;
        }
        proof {
            let now = before.noted(path@);
            assert forall|i: int| 0 <= i < now.nodes.len() implies self@.nodes[i]
                == now.nodes[i] by {
                if path@.contains(i as usize) {
                    let j = choose|j: int| 0 <= j < path@.len() && path@[j] == i as usize;
                    assert(TreeView::on_tail(path@, 0, i));
                } else if TreeView::on_tail(path@, 0, i) {
                    let m = choose|m: int| 0 <= m < path@.len() && #[trigger] path@[m] == i;
                    assert(path@[m] == i as usize);
                }
            }
            assert(self@.nodes =~= now.nodes);
            lemma_noted(before, path@);
        }
    }

    /// The move selector: the direction to take at node `i` and the score
    /// of the child in its slot. The slots are read in the fixed order;
    /// the first child is taken, and after it each child whose score is
    /// strictly better than the best before it. Where no slot names a child
    /// the answer is Right with score 0.
    pub fn best_move(&self, i: usize) -> (best: (Movement, u64))
        requires
            self@.wf(),
            self@.has(i as int),
        ensures
            self@.is_best(i as int, best.0, best.1 as int),
    {
        let mut found = false;
        let mut best_dir = Movement::Right;
        let mut best_score: u64 = 0;
        let mut k: usize = 0;
        while k < 4
            invariant
                k <= 4,
                self@.wf(),
                self@.has(i as int),
                !found ==> best_dir == Movement::Right && best_score == 0,
                !found ==> forall|other: Movement|
                    other.spec_to_int() < k ==> (#[trigger] self@.child(i as int, other)) is None,
                found ==> best_dir.spec_to_int() < k && self@.child(i as int, best_dir) is Some
                    && self@.slot_score(i as int, best_dir) == best_score,
                found ==> forall|other: Movement|
                    (#[trigger] self@.child(i as int, other)) is Some && other.spec_to_int() < k
                        ==> self@.slot_score(i as int, other) <= best_score,
                found ==> forall|other: Movement|
                    (#[trigger] self@.child(i as int, other)) is Some && other.spec_to_int()
                        < best_dir.spec_to_int() ==> self@.slot_score(i as int, other)
                        < best_score,
            decreases 4 - k,
        {
            let dir = Movement::from_int(k);
            assert(self@.node_wf(i as int));
            assert(self@.slot_wf(i as int, dir));
            let ghost was_found = found;
            let ghost was_dir = best_dir;
            let ghost was_score = best_score;
            if let Some(c) = self.child(i, dir) {
                let score = self.nodes[c].score;
                if !found || best_score < score {
                    found = true;
                    best_score = score;
                    best_dir = dir;
                }
            }
            proof {
                assert forall|other: Movement| other.spec_to_int() == k implies other == dir by {}
                if found {
                    assert forall|other: Movement|
                        (#[trigger] self@.child(i as int, other)) is Some && other.spec_to_int()
                            < best_dir.spec_to_int() implies self@.slot_score(i as int, other)
                        < best_score by {
                        if best_dir == dir && was_found {
                            assert(self@.slot_score(i as int, other) <= was_score);
                        }
                    }
                }
            }
            k += 1;
        }
        proof {
            if found {
                assert(self@.child(i as int, best_dir) is Some);
            }
        }
        (best_dir, best_score)
    }
}

} // verus!
