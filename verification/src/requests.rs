//! The world model: grid positions, agents and board snapshots.

use vstd::prelude::*;
use vstd::std_specs::ops::AddSpecImpl;
use vstd::std_specs::ops::SubSpecImpl;

verus! {

/// A cell of the unbounded integer grid, the mathematical model of a [`Point`].
pub struct Coord {
    pub x: int,
    pub y: int,
}

/// A grid position. Bounds belong to the board, not to the position.
#[derive(Clone, Copy, Debug, PartialEq, Eq, Structural)]
pub struct Point {
    pub x: i32,
    pub y: i32,
}

impl View for Point {
    type V = Coord;

    open spec fn view(&self) -> Coord {
        Coord { x: self.x as int, y: self.y as int }
    }
}

impl Point {
    /// Both coordinates of the componentwise sum fit the machine integer.
    pub open spec fn can_add(self, other: Point) -> bool {
        &&& i32::MIN <= self.x + other.x <= i32::MAX
        &&& i32::MIN <= self.y + other.y <= i32::MAX
    }

    /// Both coordinates of the componentwise difference fit the machine integer.
    pub open spec fn can_sub(self, other: Point) -> bool {
        &&& i32::MIN <= self.x - other.x <= i32::MAX
        &&& i32::MIN <= self.y - other.y <= i32::MAX
    }
}

impl core::ops::Add for Point {
    type Output = Point;

    /// Componentwise sum.
    fn add(self, other: Point) -> (sum: Point) {
        Point { x: self.x + other.x, y: self.y + other.y }
    }
}

impl AddSpecImpl for Point {
    open spec fn obeys_add_spec() -> bool {
        true
    }

    open spec fn add_req(self, other: Point) -> bool {
        self.can_add(other)
    }

    open spec fn add_spec(self, other: Point) -> Point {
        Point { x: (self.x + other.x) as i32, y: (self.y + other.y) as i32 }
    }
}

impl core::ops::Sub for Point {
    type Output = Point;

    /// Componentwise difference.
    fn sub(self, other: Point) -> (diff: Point) {
        Point { x: self.x - other.x, y: self.y - other.y }
    }
}

impl SubSpecImpl for Point {
    open spec fn obeys_sub_spec() -> bool {
        true
    }

    open spec fn sub_req(self, other: Point) -> bool {
        self.can_sub(other)
    }

    open spec fn sub_spec(self, other: Point) -> Point {
        Point { x: (self.x - other.x) as i32, y: (self.y - other.y) as i32 }
    }
}

/// The identifier of a running game.
#[derive(Clone, Debug, PartialEq, Eq, Hash)]
pub struct Game {
    pub id: String,
}

impl View for Game {
    type V = Seq<char>;

    open spec fn view(&self) -> Seq<char> {
        self.id@
    }
}

/// The mathematical model of a [`Snake`].
pub struct SnakeView {
    pub id: Seq<char>,
    pub name: Seq<char>,
    pub health: int,
    /// Head first, tail last. A cell may occur more than once.
    pub body: Seq<Coord>,
    pub shout: Option<Seq<char>>,
}

impl SnakeView {
    /// The agent has a head, and its health lies in `0..=100`.
    pub open spec fn wf(self) -> bool {
        &&& self.body.len() >= 1
        &&& 0 <= self.health <= 100
    }

    pub open spec fn head(self) -> Coord {
        self.body[0]
    }

    /// Some segment behind the head lies on `c`.
    pub open spec fn covers(self, c: Coord) -> bool {
        exists|k: int| 1 <= k < self.body.len() && self.body[k] == c
    }
}

/// An agent: identity, health, and its body from head to tail.
#[derive(Clone, Debug, PartialEq, Eq)]
pub struct Snake {
    pub id: String,
    pub name: String,
    pub health: i32,
    pub body: Vec<Point>,
    pub shout: Option<String>,
}

/// The cells that a sequence of positions stands for.
pub open spec fn coords(points: Seq<Point>) -> Seq<Coord> {
    Seq::new(points.len(), |i: int| points[i]@)
}

impl View for Snake {
    type V = SnakeView;

    open spec fn view(&self) -> SnakeView {
        SnakeView {
            id: self.id@,
            name: self.name@,
            health: self.health as int,
            body: coords(self.body@),
            shout: match self.shout {
                Some(text) => Some(text@),
                None => None,
            },
        }
    }
}

impl Snake {
    /// Tells whether the agent is well formed.
    pub fn is_wf(&self) -> (ok: bool)
        ensures
            ok == self@.wf(),
    {
        self.body.len() >= 1 && 0 <= self.health && self.health <= 100
    }

    /// A copy with the same view.
    pub fn duplicate(&self) -> (copy: Snake)
        ensures
            copy@ == self@,
    {
        let mut body: Vec<Point> = Vec::new();
        let mut k: usize = 0;
        while k < self.body.len()
            invariant
                k <= self.body.len(),
                body@ == self.body@.take(k as int),
            decreases self.body.len() - k,
        {
            body.push(self.body[k]);
            k += 1;
        }
        assert(body@ == self.body@);
        let shout = match &self.shout {
            Some(text) => Some(text.clone()),
            None => None,
        };
        Snake { id: self.id.clone(), name: self.name.clone(), health: self.health, body, shout }
    }
}

/// The mathematical model of a [`Board`].
pub struct BoardView {
    pub height: int,
    pub width: int,
    pub food: Seq<Coord>,
    pub snakes: Seq<SnakeView>,
}

impl BoardView {
    /// The cell lies on the grid.
    pub open spec fn contains(self, c: Coord) -> bool {
        0 <= c.x < self.width && 0 <= c.y < self.height
    }

    /// The extent is not negative and every agent is well formed.
    pub open spec fn wf(self) -> bool {
        &&& 0 <= self.width
        &&& 0 <= self.height
        &&& forall|i: int| 0 <= i < self.snakes.len() ==> (#[trigger] self.snakes[i]).wf()
    }

    /// Some agent's body, its head left out, lies on `c`.
    pub open spec fn blocked(self, c: Coord) -> bool {
        exists|i: int| 0 <= i < self.snakes.len() && (#[trigger] self.snakes[i]).covers(c)
    }

    /// The cell lies on the grid and no body segment behind a head lies on it.
    pub open spec fn free(self, c: Coord) -> bool {
        self.contains(c) && !self.blocked(c)
    }

    /// The number of cells of the grid.
    pub open spec fn area(self) -> int {
        self.width * self.height
    }

    /// A search can run on the board: it is well formed, its extent fits
    /// the machine's integers, and its cells can be numbered by a machine
    /// word.
    pub open spec fn playable(self) -> bool {
        &&& self.wf()
        &&& self.width <= i32::MAX
        &&& self.height <= i32::MAX
        &&& self.area() <= usize::MAX
    }
}

/// A snapshot of one turn: the grid's extent, the food and the live agents.
#[derive(Clone, Debug, PartialEq, Eq)]
pub struct Board {
    pub height: i32,
    pub width: i32,
    pub food: Vec<Point>,
    pub snakes: Vec<Snake>,
}

/// The models of a sequence of agents.
pub open spec fn snake_views(snakes: Seq<Snake>) -> Seq<SnakeView> {
    Seq::new(snakes.len(), |i: int| snakes[i]@)
}

impl View for Board {
    type V = BoardView;

    open spec fn view(&self) -> BoardView {
        BoardView {
            height: self.height as int,
            width: self.width as int,
            food: coords(self.food@),
            snakes: snake_views(self.snakes@),
        }
    }
}

impl Board {
    /// Tells whether the board is well formed.
    pub fn is_wf(&self) -> (ok: bool)
        ensures
            ok == self@.wf(),
    {
        if self.width < 0 || self.height < 0 {
            return false;
        }
        let mut i: usize = 0;
        while i < self.snakes.len()
            invariant
                i <= self.snakes.len(),
                forall|j: int| 0 <= j < i ==> (#[trigger] self@.snakes[j]).wf(),
            decreases self.snakes.len() - i,
        {
            if !self.snakes[i].is_wf() {
                assert(!self@.snakes[i as int].wf());
                return false;
            }
            i += 1;
        }
        true
    }

    /// Tells whether a search can run on the board.
    pub fn is_playable(&self) -> (ok: bool)
        ensures
            ok == self@.playable(),
    {
        if !self.is_wf() {
            return false;
        }
        let width = self.width as u64;
        let height = self.height as u64;
        assert(width * height == self@.area() && width * height <= 0x3fff_ffff_0000_0001) by (
            nonlinear_arith)
            requires
                width == self@.width,
                height == self@.height,
                self@.area() == self@.width * self@.height,
                0 <= width <= 0x7fff_ffff,
                0 <= height <= 0x7fff_ffff,
        ;
        width * height <= usize::MAX as u64
    }

    /// A copy with the same view.
    pub fn duplicate(&self) -> (copy: Board)
        ensures
            copy@ == self@,
    {
        let mut food: Vec<Point> = Vec::new();
        let mut k: usize = 0;
        while k < self.food.len()
            invariant
                k <= self.food.len(),
                food@ == self.food@.take(k as int),
            decreases self.food.len() - k,
        {
            food.push(self.food[k]);
            k += 1;
        }
        assert(food@ == self.food@);
        let mut snakes: Vec<Snake> = Vec::new();
        let mut i: usize = 0;
        while i < self.snakes.len()
            invariant
                i <= self.snakes.len(),
                snakes@.len() == i,
                forall|j: int| 0 <= j < i ==> (#[trigger] snakes@[j])@ == self.snakes@[j]@,
            decreases self.snakes.len() - i,
        {
            snakes.push(self.snakes[i].duplicate());
            i += 1;
        }
        assert(snake_views(snakes@) =~= snake_views(self.snakes@));
        Board { height: self.height, width: self.width, food, snakes }
    }
}

/// What a turn notification carries.
#[derive(Clone, Debug, PartialEq, Eq)]
pub struct Turn {
    pub game: Game,
    pub turn: u32,
    pub board: Board,
    pub you: Snake,
}

} // verus!
