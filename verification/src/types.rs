//! The values shared by the game server and its clients.
use vstd::prelude::*;

verus! {

/// The direction in which a snake heads.
#[derive(Debug, Clone, Copy, PartialEq, Eq, Hash, Structural)]
pub enum Direction {
    Up,
    Down,
    Left,
    Right,
}

/// A cell of the board.
#[derive(Debug, Clone, Copy, PartialEq, Eq, Hash, Default, Structural)]
pub struct Position {
    pub x: i32,
    pub y: i32,
}

/// A snake: its cells from head to tail, where it heads, whether it is alive and its score.
#[derive(Debug, Clone, PartialEq)]
pub struct Snake {
    pub id: usize,
    pub body: Vec<Position>,
    pub direction: Direction,
    pub alive: bool,
    pub score: u32,
}

/// A piece of food lying on the board.
#[derive(Debug, Clone, Copy, PartialEq, Eq, Structural)]
pub struct Food {
    pub position: Position,
}

/// What a room shows its players after each tick.
#[derive(Debug, Clone, PartialEq)]
pub struct GameState {
    pub room_id: String,
    pub snakes: Vec<Snake>,
    pub foods: Vec<Food>,
    pub game_started: bool,
    pub game_over: bool,
}

/// The messages exchanged between a client and the server.
#[derive(Debug, Clone, PartialEq)]
pub enum GameMessage {
    PlayerInput(Direction),
    Ready,
    GameState(GameState),
    MatchingStatus { current: usize, required: usize },
    GameOver { rankings: Vec<(usize, u32)> },
}

/// A snake as a mathematical value: its body is a sequence of cells, head first.
pub struct SnakeView {
    pub id: usize,
    pub body: Seq<Position>,
    pub direction: Direction,
    pub alive: bool,
    pub score: u32,
}

impl View for Snake {
    type V = SnakeView;

    open spec fn view(&self) -> SnakeView {
        SnakeView {
            id: self.id,
            body: self.body@,
            direction: self.direction,
            alive: self.alive,
            score: self.score,
        }
    }
}

/// `p` lies on a square board of side `size`.
pub open spec fn on_square_board(p: Position, size: int) -> bool {
    0 <= p.x < size && 0 <= p.y < size
}

impl Position {
    /// The cell at `x`, `y`.
    pub fn new(x: i32, y: i32) -> (p: Self)
        ensures
            p.x == x,
            p.y == y,
    {
        Self { x, y }
    }

    /// The cell lies on a square board of side `map_size`.
    pub fn is_in_bounds(&self, map_size: i32) -> (r: bool)
        ensures
            r == on_square_board(*self, map_size as int),
    {
        self.x >= 0 && self.x < map_size && self.y >= 0 && self.y < map_size
    }
}

/// `p` is one of the cells of `cells`.
pub fn position_listed(cells: &Vec<Position>, p: Position) -> (r: bool)
    ensures
        r == cells@.contains(p),
{
    let mut i: usize = 0;
    while i < cells.len()
        invariant
            i <= cells.len(),
            forall|j: int| 0 <= j < i ==> cells@[j] != p,
        decreases cells.len() - i,
    {
        if cells[i] == p {
            return true;
        }
        i = i + 1;
    }
    false
}

/// The same snake, its body copied.
pub fn copy_snake(s: &Snake) -> (r: Snake)
    ensures
        r@ == s@,
{
    let mut body: Vec<Position> = Vec::new();
    let mut i: usize = 0;
    while i < s.body.len()
        invariant
            i <= s.body.len(),
            body@ == s.body@.take(i as int),
        decreases s.body.len() - i,
    {
        body.push(s.body[i]);
        i = i + 1;
        assert(body@ =~= s.body@.take(i as int));
    }
    assert(body@ =~= s.body@);
    Snake { id: s.id, body, direction: s.direction, alive: s.alive, score: s.score }
}

impl GameState {
    /// The same state, its snakes and food copied.
    pub fn clone_state(&self) -> (r: GameState)
        ensures
            r.room_id@ == self.room_id@,
            r.snakes@.map_values(|s: Snake| s@) == self.snakes@.map_values(|s: Snake| s@),
            r.foods@ == self.foods@,
            r.game_started == self.game_started,
            r.game_over == self.game_over,
    {
        let mut snakes: Vec<Snake> = Vec::new();
        let mut i: usize = 0;
        while i < self.snakes.len()
            invariant
                i <= self.snakes.len(),
                snakes@.len() == i,
                forall|k: int| 0 <= k < i ==> (#[trigger] snakes@[k])@ == self.snakes@[k]@,
            decreases self.snakes.len() - i,
        {
            snakes.push(copy_snake(&self.snakes[i]));
            i = i + 1;
        }
        assert(snakes@.map_values(|s: Snake| s@) =~= self.snakes@.map_values(|s: Snake| s@));
        let foods = self.foods.clone();
        assert(foods@ =~= self.foods@);
        GameState {
            room_id: self.room_id.clone(),
            snakes,
            foods,
            game_started: self.game_started,
            game_over: self.game_over,
        }
    }
}

impl Snake {
    /// The first cell of the body, if it has one.
    pub fn head(&self) -> (h: Option<&Position>)
        ensures
            h == (if self.body@.len() > 0 {
                Some(&self.body@[0])
            } else {
                None
            }),
    {
        if self.body.len() == 0 {
            None
        } else {
            Some(&self.body[0])
        }
    }

    /// The head lies on another cell of the same body.
    pub fn hits_self(&self) -> (r: bool)
        ensures
            r == (self.body@.len() > 0 && self.body@.subrange(1, self.body@.len() as int).contains(
                self.body@[0],
            )),
    {
        if self.body.len() == 0 {
            return false;
        }
        let head = self.body[0];
        let mut i: usize = 1;
        while i < self.body.len()
            invariant
                1 <= i <= self.body.len(),
                head == self.body@[0],
                forall|j: int| 1 <= j < i ==> self.body@[j] != head,
            decreases self.body.len() - i,
        {
            if self.body[i] == head {
                assert(self.body@.subrange(1, self.body@.len() as int)[i - 1] == head);
                return true;
            }
            i = i + 1;
        }
        assert forall|k: int| 0 <= k < self.body@.len() - 1 implies self.body@.subrange(
            1,
            self.body@.len() as int,
        )[k] != head by {
            assert(self.body@.subrange(1, self.body@.len() as int)[k] == self.body@[k + 1]);
        }
        false
    }

    /// The head of this snake lies on the body of a different snake.
    pub fn hits_other(&self, other: &Snake) -> (r: bool)
        ensures
            r == (self.id != other.id && self.body@.len() > 0 && other.body@.contains(
                self.body@[0],
            )),
    {
        if self.id == other.id {
            return false;
        }
        if self.body.len() == 0 {
            return false;
        }
        position_listed(&other.body, self.body[0])
    }
}

} // verus!
