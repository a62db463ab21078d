//! What the engine answers: a direction to move in, and the cosmetic record
//! sent once when a game starts.

use vstd::prelude::*;
use crate::requests::Point;

verus! {

/// How the head of the snake is drawn.
#[derive(Clone, Copy, Debug, PartialEq, Eq, Structural)]
pub enum HeadType {
    Regular,
    Beluga,
    Bendr,
    Dead,
    Evil,
    Fang,
    Pixel,
    Safe,
    Silly,
    SandWorm,
    Shades,
    Smile,
    Tongue,
}

/// How the tail of the snake is drawn.
#[derive(Clone, Copy, Debug, PartialEq, Eq, Structural)]
pub enum TailType {
    Regular,
    BlockBum,
    Bolt,
    Curled,
    FatRattle,
    Freckled,
    Hook,
    Pixel,
    RoundBum,
    Sharp,
    Skinny,
    SmallRattle,
}

/// The mathematical model of a [`Start`].
pub struct StartView {
    pub color: Seq<char>,
    pub head_type: HeadType,
    pub tail_type: TailType,
}

/// The answer to the start of a game: a colour and two styles.
#[derive(Debug, PartialEq, Eq)]
pub struct Start {
    color: String,
    head_type: HeadType,
    tail_type: TailType,
}

impl View for Start {
    type V = StartView;

    closed spec fn view(&self) -> StartView {
        StartView { color: self.color@, head_type: self.head_type, tail_type: self.tail_type }
    }
}

impl Start {
    pub fn new(color: String, head_type: HeadType, tail_type: TailType) -> (start: Start)
        ensures
            start@ == (StartView { color: color@, head_type, tail_type }),
    {
        Start { color, head_type, tail_type }
    }

    /// The looks that the engine asks for when a game starts.
    pub fn livery() -> (start: Start)
        ensures
            start@ == (StartView {
                color: "#FF0080"@,
                head_type: HeadType::Safe,
                tail_type: TailType::BlockBum,
            }),
    {
        Start::new("#FF0080".to_owned(), HeadType::Safe, TailType::BlockBum)
    }

    pub fn color(&self) -> (color: &String)
        ensures
            color@ == self@.color,
    {
        &self.color
    }

    pub fn head_type(&self) -> (head_type: HeadType)
        ensures
            head_type == self@.head_type,
    {
        self.head_type
    }

    pub fn tail_type(&self) -> (tail_type: TailType)
        ensures
            tail_type == self@.tail_type,
    {
        self.tail_type
    }
}

/// One of the four directions an agent can move in.
#[derive(Clone, Copy, Debug, PartialEq, Eq, Structural)]
pub enum Movement {
    Right,
    Left,
    Up,
    Down,
}

impl Movement {
    /// The four directions in their fixed order.
    pub const ALL: [Movement; 4] = [Movement::Right, Movement::Left, Movement::Up, Movement::Down];

    pub open spec fn spec_opposite(self) -> Movement {
        match self {
            Movement::Right => Movement::Left,
            Movement::Left => Movement::Right,
            Movement::Up => Movement::Down,
            Movement::Down => Movement::Up,
        }
    }

    /// The place of the direction in the fixed order Right, Left, Up, Down.
    pub open spec fn spec_to_int(self) -> usize {
        match self {
            Movement::Right => 0,
            Movement::Left => 1,
            Movement::Up => 2,
            Movement::Down => 3,
        }
    }

    /// The unit step of the direction. `y` grows downwards.
    pub open spec fn spec_to_offset(self) -> Point {
        match self {
            Movement::Right => Point { x: 1i32, y: 0i32 },
            Movement::Left => Point { x: -1i32, y: 0i32 },
            Movement::Up => Point { x: 0i32, y: -1i32 },
            Movement::Down => Point { x: 0i32, y: 1i32 },
        }
    }

    /// The direction at a place of the fixed order.
    pub open spec fn spec_from_int(index: usize) -> Movement {
        if index == 0 {
            Movement::Right
        } else if index == 1 {
            Movement::Left
        } else if index == 2 {
            Movement::Up
        } else {
            Movement::Down
        }
    }

    /// The offset is no movement at all.
    pub open spec fn is_origin(offset: Point) -> bool {
        offset.x == 0 && offset.y == 0
    }

    /// The offset is the unit step of some direction.
    pub open spec fn is_unit(offset: Point) -> bool {
        exists|m: Movement| #[trigger] m.spec_to_offset() == offset
    }

    /// The direction that an offset between head and neck stands for: the one
    /// whose unit step it is, Right where nothing has moved yet, and none
    /// where the offset is anything else.
    pub open spec fn spec_checked_from_offset(offset: Point) -> Option<Movement> {
        if offset == Movement::Right.spec_to_offset() {
            Some(Movement::Right)
        } else if offset == Movement::Left.spec_to_offset() {
            Some(Movement::Left)
        } else if offset == Movement::Up.spec_to_offset() {
            Some(Movement::Up)
        } else if offset == Movement::Down.spec_to_offset() {
            Some(Movement::Down)
        } else if Movement::is_origin(offset) {
            Some(Movement::Right)
        } else {
            None
        }
    }

    /// The direction of an offset that stands for one.
    pub open spec fn spec_from_offset(offset: Point) -> Movement {
        match Movement::spec_checked_from_offset(offset) {
            Some(m) => m,
            None => Movement::Right,
        }
    }

    #[verifier::when_used_as_spec(spec_opposite)]
    pub fn opposite(self) -> (back: Movement)
        ensures
            back == self.spec_opposite(),
    {
        match self {
            Movement::Right => Movement::Left,
            Movement::Left => Movement::Right,
            Movement::Up => Movement::Down,
            Movement::Down => Movement::Up,
        }
    }

    #[verifier::when_used_as_spec(spec_to_int)]
    pub fn to_int(self) -> (index: usize)
        ensures
            index == self.spec_to_int(),
    {
        match self {
            Movement::Right => 0,
            Movement::Left => 1,
            Movement::Up => 2,
            Movement::Down => 3,
        }
    }

    #[verifier::when_used_as_spec(spec_to_offset)]
    pub fn to_offset(self) -> (offset: Point)
        ensures
            offset == self.spec_to_offset(),
    {
        match self {
            Movement::Right => Point { x: 1, y: 0 },
            Movement::Left => Point { x: -1, y: 0 },
            Movement::Up => Point { x: 0, y: -1 },
            Movement::Down => Point { x: 0, y: 1 },
        }
    }

    /// The direction at place `index` of the fixed order.
    #[verifier::when_used_as_spec(spec_from_int)]
    pub fn from_int(index: usize) -> (m: Movement)
        requires
            index < 4,
        ensures
            m == Movement::spec_from_int(index),
            m.spec_to_int() == index,
    {
        if index == 0 {
            Movement::Right
        } else if index == 1 {
            Movement::Left
        } else if index == 2 {
            Movement::Up
        } else {
            Movement::Down
        }
    }

    /// The direction of an offset, or `None` where the offset is neither a unit
    /// step nor the origin.
    #[verifier::when_used_as_spec(spec_checked_from_offset)]
    pub fn checked_from_offset(offset: Point) -> (found: Option<Movement>)
        ensures
            found == Movement::spec_checked_from_offset(offset),
            found is Some <==> Movement::is_unit(offset) || Movement::is_origin(offset),
    {
        proof {
            if Movement::spec_checked_from_offset(offset) is None {
                assert forall|m: Movement| m.spec_to_offset() != offset by {}
            } else if !Movement::is_origin(offset) {
                let m = Movement::spec_checked_from_offset(offset)->0;
                assert(m.spec_to_offset() == offset);
            }
        }
        if offset.x == 1 && offset.y == 0 {
            Some(Movement::Right)
        } else if offset.x == -1 && offset.y == 0 {
            Some(Movement::Left)
        } else if offset.x == 0 && offset.y == -1 {
            Some(Movement::Up)
        } else if offset.x == 0 && offset.y == 1 {
            Some(Movement::Down)
        } else if offset.x == 0 && offset.y == 0 {
            Some(Movement::Right)
        } else {
            None
        }
    }

    /// The direction of an offset between head and neck. Where nothing has
    /// moved yet the answer is Right.
    #[verifier::when_used_as_spec(spec_from_offset)]
    pub fn from_offset(offset: Point) -> (m: Movement)
        requires
            Movement::is_unit(offset) || Movement::is_origin(offset),
        ensures
            m == Movement::spec_from_offset(offset),
            Movement::is_origin(offset) ==> m == Movement::Right,
            !Movement::is_origin(offset) ==> m.spec_to_offset() == offset,
    {
        match Movement::checked_from_offset(offset) {
            Some(m) => m,
            None => Movement::Right,
        }
    }
}

/// Turning back twice gives the direction one started with, the opposite is
/// never the direction itself, and its unit step is the negated one.
pub proof fn lemma_opposite(m: Movement)
    ensures
        m.spec_opposite().spec_opposite() == m,
        m.spec_opposite() != m,
        m.spec_opposite().spec_to_offset().x == -m.spec_to_offset().x,
        m.spec_opposite().spec_to_offset().y == -m.spec_to_offset().y,
{
}

/// What the engine broadcasts with every move.
pub const EVIL_SHOUT: &'static str = "\x1b[1;1H\x1b[2J\x1b[30;40m";

/// The mathematical model of a [`Move`].
pub struct MoveView {
    pub movement: Movement,
    pub shout: Seq<char>,
}

/// The answer to a move request: a direction and a text to broadcast.
#[derive(Debug, PartialEq, Eq)]
pub struct Move {
    movement: Movement,
    shout: String,
}

impl View for Move {
    type V = MoveView;

    closed spec fn view(&self) -> MoveView {
        MoveView { movement: self.movement, shout: self.shout@ }
    }
}

impl Move {
    pub fn new(movement: Movement, shout: String) -> (answer: Move)
        ensures
            answer@ == (MoveView { movement, shout: shout@ }),
    {
        Move { movement, shout }
    }

    /// The answer with which the engine moves in a direction: the direction,
    /// and a broadcast that clears the terminal of whoever prints it and
    /// turns its colours black.
    pub fn shouting(movement: Movement) -> (answer: Move)
        ensures
            answer@ == (MoveView { movement, shout: EVIL_SHOUT@ }),
    {
        Move::new(movement, EVIL_SHOUT.to_owned())
    }

    pub fn movement(&self) -> (movement: Movement)
        ensures
            movement == self@.movement,
    {
        self.movement
    }

    pub fn shout(&self) -> (shout: &String)
        ensures
            shout@ == self@.shout,
    {
        &self.shout
    }
}

} // verus!
