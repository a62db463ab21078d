//! The session registry: the search tree of every game that is running.

use vstd::prelude::*;
use crate::requests::{Board, BoardView, Game, Turn};
use crate::responses::Movement;
use crate::tree::{lemma_grows_refl, lemma_grows_trans, Claim, Tree, TreeView};

verus! {

/// The mathematical model of one entry: a game and its tree.
pub struct SessionView {
    pub game: Seq<char>,
    pub tree: TreeView,
}

/// The mathematical model of a [`Registry`]: its entries in the order in
/// which the games began.
pub struct RegistryView {
    pub sessions: Seq<SessionView>,
}

impl RegistryView {
    /// Entry `i` is the entry of `game`.
    pub open spec fn is_at(self, game: Seq<char>, i: int) -> bool {
        0 <= i < self.sessions.len() && self.sessions[i].game == game
    }

    /// The game has an entry.
    pub open spec fn holds(self, game: Seq<char>) -> bool {
        exists|i: int| self.is_at(game, i)
    }

    /// The place of the entry of a game that has one.
    pub open spec fn place(self, game: Seq<char>) -> int {
        choose|i: int| self.is_at(game, i)
    }

    /// The tree of a game that has an entry.
    pub open spec fn tree(self, game: Seq<char>) -> TreeView {
        self.sessions[self.place(game)].tree
    }

    /// No game has two entries, and every tree is well formed.
    pub open spec fn wf(self) -> bool {
        &&& forall|i: int, j: int|
            0 <= i < j < self.sessions.len() ==> (#[trigger] self.sessions[i]).game
                != (#[trigger] self.sessions[j]).game
        &&& forall|i: int| 0 <= i < self.sessions.len() ==> (#[trigger] self.sessions[i]).tree.wf()
    }

    /// The registry with another tree for the entry at place `i`.
    pub open spec fn with_tree(self, i: int, tree: TreeView) -> RegistryView {
        RegistryView {
            sessions: self.sessions.update(i, SessionView { game: self.sessions[i].game, tree }),
        }
    }

    /// The registry after a turn of `game` began on `board`: the tree of a
    /// game that is known gets a new root, and a game that is not known gets
    /// an entry with a tree of one root.
    pub open spec fn prepared(self, game: Seq<char>, board: BoardView) -> RegistryView {
        if self.holds(game) {
            self.with_tree(self.place(game), self.tree(game).rerooted(board))
        } else {
            RegistryView {
                sessions: self.sessions.push(SessionView { game, tree: TreeView::seed(board) }),
            }
        }
    }

    /// The registry after `game` ended: its entry is gone.
    pub open spec fn ended(self, game: Seq<char>) -> RegistryView {
        if self.holds(game) {
            RegistryView { sessions: self.sessions.remove(self.place(game)) }
        } else {
            self
        }
    }

    /// Every tree has room for `n` more nodes.
    pub open spec fn room(self, n: int) -> bool {
        forall|i: int|
            0 <= i < self.sessions.len() ==> (#[trigger] self.sessions[i]).tree.nodes.len() + n
                <= usize::MAX
    }

    /// What can become of a registry while its games go on: the entries
    /// stay, and each tree grows.
    pub open spec fn grows_from(self, was: RegistryView) -> bool {
        &&& self.sessions.len() == was.sessions.len()
        &&& forall|i: int|
            0 <= i < was.sessions.len() ==> (#[trigger] self.sessions[i]).game
                == was.sessions[i].game && self.sessions[i].tree.grows_from(was.sessions[i].tree)
    }
}

/// In a well-formed registry the entry of a game stands at one place only.
pub proof fn lemma_place(r: RegistryView, game: Seq<char>, i: int)
    requires
        r.wf(),
        r.is_at(game, i),
    ensures
        r.holds(game),
        r.place(game) == i,
        r.tree(game) == r.sessions[i].tree,
{
    let p = r.place(game);
    assert(r.is_at(game, p));
    if p < i {
        assert(r.sessions[p].game != r.sessions[i].game);
    } else if i < p {
        assert(r.sessions[i].game != r.sessions[p].game);
    }
}

/// A registry grows from itself.
pub proof fn lemma_registry_grows_refl(r: RegistryView)
    ensures
        r.grows_from(r),
{
    assert forall|i: int| 0 <= i < r.sessions.len() implies (#[trigger] r.sessions[i]).game
        == r.sessions[i].game && r.sessions[i].tree.grows_from(r.sessions[i].tree) by {
        lemma_grows_refl(r.sessions[i].tree);
    }
}

/// A registry in which one tree has grown into a well-formed tree is well
/// formed and has grown.
pub proof fn lemma_with_tree(r: RegistryView, i: int, tree: TreeView)
    requires
        r.wf(),
        0 <= i < r.sessions.len(),
        tree.wf(),
        tree.grows_from(r.sessions[i].tree),
    ensures
        r.with_tree(i, tree).wf(),
        r.with_tree(i, tree).grows_from(r),
{
    let u = r.with_tree(i, tree);
    assert forall|a: int, b: int| 0 <= a < b < u.sessions.len() implies (
    #[trigger] u.sessions[a]).game != (#[trigger] u.sessions[b]).game by {
        assert(r.sessions[a].game != r.sessions[b].game);
    }
    assert forall|a: int| 0 <= a < u.sessions.len() implies (
    #[trigger] u.sessions[a]).tree.wf() by {
        if a != i {
            assert(r.sessions[a].tree.wf());
        }
    }
    assert forall|a: int| 0 <= a < r.sessions.len() implies (#[trigger] u.sessions[a]).game
        == r.sessions[a].game && u.sessions[a].tree.grows_from(r.sessions[a].tree) by {
        lemma_grows_refl(r.sessions[a].tree);
    }
}

/// Growing is transitive for registries as it is for trees.
pub proof fn lemma_registry_grows_trans(a: RegistryView, b: RegistryView, c: RegistryView)
    requires
        b.grows_from(a),
        c.grows_from(b),
    ensures
        c.grows_from(a),
{
    assert forall|i: int| 0 <= i < a.sessions.len() implies (#[trigger] c.sessions[i]).game
        == a.sessions[i].game && c.sessions[i].tree.grows_from(a.sessions[i].tree) by {
        assert(b.sessions[i].game == a.sessions[i].game);
        lemma_grows_trans(a.sessions[i].tree, b.sessions[i].tree, c.sessions[i].tree);
    }
}

/// A path in the tree of a game stays a path in it while the registry grows,
/// whoever makes it grow.
pub proof fn lemma_path_stays(
    was: RegistryView,
    now: RegistryView,
    game: Seq<char>,
    path: Seq<usize>,
)
    requires
        was.wf(),
        now.wf(),
        now.grows_from(was),
        was.holds(game),
        was.tree(game).chain(path),
    ensures
        now.holds(game),
        now.tree(game).chain(path),
{
    let at = was.place(game);
    assert(was.is_at(game, at));
    assert(now.sessions[at].game == was.sessions[at].game);
    assert(now.is_at(game, at));
    lemma_place(now, game, at);
    assert(was.sessions[at].tree.wf());
    crate::tree::lemma_chain_stays(was.sessions[at].tree, now.sessions[at].tree, path);
}

/// One entry: a game and its tree.
pub struct Session {
    game: Game,
    tree: Tree,
}

impl View for Session {
    type V = SessionView;

    closed spec fn view(&self) -> SessionView {
        SessionView { game: self.game@, tree: self.tree@ }
    }
}

/// The trees of the games that are running, by game.
pub struct Registry {
    sessions: Vec<Session>,
}

impl View for Registry {
    type V = RegistryView;

    closed spec fn view(&self) -> RegistryView {
        RegistryView { sessions: Seq::new(self.sessions@.len(), |i: int| self.sessions@[i]@) }
    }
}

impl Registry {
    /// A registry without games.
    pub fn new() -> (registry: Registry)
        ensures
            registry@.sessions.len() == 0,
            registry@.wf(),
    {
        Registry { sessions: Vec::new() }
    }

    /// The place of the entry of `game`, if it has one.
    pub fn find(&self, game: &Game) -> (found: Option<usize>)
        requires
            self@.wf(),
        ensures
            found is Some <==> self@.holds(game@),
            found matches Some(i) ==> self@.place(game@) == i && self@.is_at(game@, i as int),
    {
        let mut i: usize = 0;
        while i < self.sessions.len()
            invariant
                i <= self.sessions@.len(),
                self@.wf(),
                forall|j: int| 0 <= j < i ==> !self@.is_at(game@, j),
            decreases self.sessions@.len() - i,
        {
            if self.sessions[i].game.id == game.id {
                proof {
                    assert(self@.is_at(game@, i as int));
                    lemma_place(self@, game@, i as int);
                }
                return Some(i);
            }
            i += 1;
        }
        None
    }

    /// The tree of `game`, if it has an entry.
    pub fn tree(&self, game: &Game) -> (tree: Option<&Tree>)
        requires
            self@.wf(),
        ensures
            tree is Some <==> self@.holds(game@),
            tree matches Some(t) ==> t@ == self@.tree(game@) && t@.wf(),
    {
        match self.find(game) {
            Some(i) => {
                assert(self@.sessions[i as int].tree.wf());
                Some(&self.sessions[i].tree)
            },
            None => None,
        }
    }

    /// The tree of the entry at place `at`.
    pub fn tree_at(&self, at: usize) -> (tree: &Tree)
        requires
            at < self@.sessions.len(),
        ensures
            tree@ == self@.sessions[at as int].tree,
    {
        &self.sessions[at].tree
    }

    /// Counts one more simulation at every node of a path of the tree at
    /// place `at`.
    pub fn count_future(&mut self, at: usize, path: &Vec<usize>)
        requires
            old(self)@.wf(),
            at < old(self)@.sessions.len(),
            old(self)@.sessions[at as int].tree.chain(path@),
        ensures
            final(self)@ == old(self)@.with_tree(
                at as int,
                old(self)@.sessions[at as int].tree.noted(path@),
            ),
            final(self)@.wf(),
            final(self)@.grows_from(old(self)@),
    {
        let ghost before = self@;
        assert(before.sessions[at as int].tree.wf());
        self.sessions[at].tree.count_future(path);
        proof {
            let tree = before.sessions[at as int].tree.noted(path@);
            assert(self@.sessions =~= before.with_tree(at as int, tree).sessions);
            lemma_with_tree(before, at as int, tree);
        }
    }

    /// Claims a slot in the tree at place `at`.
    pub fn claim(&mut self, at: usize, parent: usize, dir: Movement, board: Board) -> (claim: Claim)
        requires
            old(self)@.wf(),
            at < old(self)@.sessions.len(),
            old(self)@.sessions[at as int].tree.has(parent as int),
            old(self)@.sessions[at as int].tree.nodes[parent as int].generation < u32::MAX,
            board@.playable(),
        ensures
            final(self)@ == old(self)@.with_tree(
                at as int,
                old(self)@.sessions[at as int].tree.claimed(parent as int, dir, board@),
            ),
            final(self)@.wf(),
            final(self)@.grows_from(old(self)@),
            match old(self)@.sessions[at as int].tree.child(parent as int, dir) {
                Some(c) => claim == Claim::Taken(c),
                None => claim == Claim::Installed(
                    old(self)@.sessions[at as int].tree.nodes.len() as usize,
                ),
            },
    {
        let ghost before = self@;
        assert(before.sessions[at as int].tree.wf());
        let claim = self.sessions[at].tree.claim(parent, dir, board);
        proof {
            let tree = before.sessions[at as int].tree.claimed(parent as int, dir, board@);
            assert(self@.sessions =~= before.with_tree(at as int, tree).sessions);
            lemma_with_tree(before, at as int, tree);
        }
        claim
    }

    /// Hands a score back along a path of the tree at place `at`.
    pub fn backpropagate(&mut self, at: usize, path: &Vec<usize>, score: u64)
        requires
            old(self)@.wf(),
            at < old(self)@.sessions.len(),
            old(self)@.sessions[at as int].tree.chain(path@),
        ensures
            final(self)@ == old(self)@.with_tree(
                at as int,
                old(self)@.sessions[at as int].tree.backed(path@, score as int),
            ),
            final(self)@.wf(),
            final(self)@.grows_from(old(self)@),
    {
        let ghost before = self@;
        assert(before.sessions[at as int].tree.wf());
        self.sessions[at].tree.backpropagate(path, score);
        proof {
            let tree = before.sessions[at as int].tree.backed(path@, score as int);
            assert(self@.sessions =~= before.with_tree(at as int, tree).sessions);
            lemma_with_tree(before, at as int, tree);
        }
    }

    /// Begins a turn: the board of the turn becomes the root of the tree of
    /// its game, and what was the root before becomes historic. The place of
    /// the new root in the tree is returned.
    pub fn prepare_data(&mut self, turn: &Turn) -> (root: usize)
        requires
            old(self)@.wf(),
            turn.board@.playable(),
        ensures
            final(self)@ == old(self)@.prepared(turn.game@, turn.board@),
            final(self)@.wf(),
            final(self)@.holds(turn.game@),
            final(self)@.tree(turn.game@).root == root,
            old(self)@.holds(turn.game@) ==> final(self)@.grows_from(old(self)@),
    {
        let ghost before = self@;
        let board = turn.board.duplicate();
        match self.find(&turn.game) {
            Some(i) => {
                assert(before.sessions[i as int].tree.wf());
                let root = self.sessions[i].tree.replace_root(board);
                proof {
                    let after = before.prepared(turn.game@, turn.board@);
                    assert(self@.sessions =~= after.sessions);
                    assert(self@.is_at(turn.game@, i as int));
                    assert forall|a: int, b: int| 0 <= a < b < self@.sessions.len() implies (
                    #[trigger] self@.sessions[a]).game != (#[trigger] self@.sessions[b]).game by {
                        assert(before.sessions[a].game != before.sessions[b].game);
                    }
                    assert forall|a: int| 0 <= a < self@.sessions.len() implies (
                    #[trigger] self@.sessions[a]).tree.wf() by {
                        assert(before.sessions[a].tree.wf());
                    }
                    lemma_place(self@, turn.game@, i as int);
                    assert forall|a: int| 0 <= a < before.sessions.len() implies (
                    #[trigger] self@.sessions[a]).game == before.sessions[a].game
                        && self@.sessions[a].tree.grows_from(before.sessions[a].tree) by {
                        lemma_grows_refl(before.sessions[a].tree);
                    }
                }
                root
            },
            None => {
                let tree = Tree::new(board);
                let game = Game { id: turn.game.id.clone() };
                self.sessions.push(Session { game, tree });
                proof {
                    let after = before.prepared(turn.game@, turn.board@);
                    let last = before.sessions.len() as int;
                    assert(self@.sessions =~= after.sessions);
                    assert(self@.is_at(turn.game@, last));
                    assert forall|a: int, b: int| 0 <= a < b < self@.sessions.len() implies (
                    #[trigger] self@.sessions[a]).game != (#[trigger] self@.sessions[b]).game by {
                        if b == last {
                            assert(!before.is_at(turn.game@, a));
                        } else {
                            assert(before.sessions[a].game != before.sessions[b].game);
                        }
                    }
                    assert forall|a: int| 0 <= a < self@.sessions.len() implies (
                    #[trigger] self@.sessions[a]).tree.wf() by {
                        if a < last {
                            assert(before.sessions[a].tree.wf());
                        }
                    }
                    lemma_place(self@, turn.game@, last);
                }
                0
            },
        }
    }

    /// Ends a game: its entry leaves the registry, and its tree is handed
    /// out with its root made historic.
    pub fn end(&mut self, game: &Game) -> (tree: Option<Tree>)
        requires
            old(self)@.wf(),
        ensures
            final(self)@ == old(self)@.ended(game@),
            final(self)@.wf(),
            !final(self)@.holds(game@),
            tree is Some <==> old(self)@.holds(game@),
            tree matches Some(t) ==> t@ == old(self)@.tree(game@).retired(
                old(self)@.tree(game@).root,
            ) && t@.wf(),
    {
        let ghost before = self@;
        match self.find(game) {
            Some(i) => {
                assert(before.sessions[i as int].tree.wf());
                let mut session = self.sessions.remove(i);
                let root = session.tree.root();
                session.tree.mark_historic(root);
                proof {
                    assert(self@.sessions =~= before.ended(game@).sessions);
                    assert forall|a: int, b: int| 0 <= a < b < self@.sessions.len() implies (
                    #[trigger] self@.sessions[a]).game != (#[trigger] self@.sessions[b]).game by {
                        let x = if a < i { a } else { a + 1 };
                        let y = if b < i { b } else { b + 1 };
                        assert(before.sessions[x].game != before.sessions[y].game);
                    }
                    assert forall|a: int| 0 <= a < self@.sessions.len() implies (
                    #[trigger] self@.sessions[a]).tree.wf() by {
                        let x = if a < i { a } else { a + 1 };
                        assert(before.sessions[x].tree.wf());
                    }
                    assert forall|a: int| !self@.is_at(game@, a) by {
                        if 0 <= a < self@.sessions.len() {
                            let x = if a < i { a } else { a + 1 };
                            if x < i {
                                assert(before.sessions[x].game != before.sessions[i as int].game);
                            } else {
                                assert(before.sessions[i as int].game != before.sessions[x].game);
                            }
                        }
                    }
                }
                Some(session.tree)
            },
            None => None,
        }
    }

    /// The move selector for `game`: the best direction at the root of its
    /// tree and the score of that direction. For a game without an entry the
    /// answer is Right with score 0.
    pub fn best_move(&self, game: &Game) -> (best: (Movement, u64))
        requires
            self@.wf(),
        ensures
            self@.holds(game@) ==> self@.tree(game@).is_best(
                self@.tree(game@).root,
                best.0,
                best.1 as int,
            ),
            !self@.holds(game@) ==> best == (Movement::Right, 0u64),
    {
        match self.tree(game) {
            Some(tree) => tree.best_move(tree.root()),
            None => (Movement::Right, 0),
        }
    }
}

/// Puts a worker back at the root of its game: the path becomes the root
/// alone, and the root is returned. For a game without an entry the path
/// stays as it is and nothing is returned.
pub fn restart(registry: &Registry, game: &Game, steps: &mut Vec<usize>) -> (start: Option<usize>)
    requires
        registry@.wf(),
    ensures
        start is Some <==> registry@.holds(game@),
        start matches Some(root) ==> root == registry@.tree(game@).root && final(steps)@ == seq![
            root,
        ],
        start is None ==> final(steps)@ == old(steps)@,
{
    match registry.tree(game) {
        Some(tree) => {
            let root = tree.root();
            steps.clear();
            steps.push(root);
            Some(root)
        },
        None => None,
    }
}

} // verus!
