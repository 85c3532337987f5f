//! The board and the rules by which snakes move, eat and die, stated as mathematics.
use vstd::prelude::*;
use crate::types::{Direction, Food, Position, Snake, SnakeView};

verus! {

/// Width of the board, in cells.
pub const MAP_WIDTH: i32 = 20;

/// Height of the board, in cells.
pub const MAP_HEIGHT: i32 = 20;

/// Snakes start this many cells away from every edge of the board.
pub const START_MARGIN: i32 = 3;

/// Players a room waits for before its game can start.
pub const REQUIRED_PLAYERS: usize = 2;

/// Pieces of food a running game keeps on the board.
pub const FOOD_TARGET: usize = 3;

/// Random draws of a start cell before the free start cells are listed.
pub const MAX_START_ATTEMPTS: u32 = 100;

/// Random draws a refill of food makes at most.
pub const MAX_FOOD_ATTEMPTS: u32 = 100;

/// `p` lies on the board.
pub open spec fn on_board(p: Position) -> bool {
    0 <= p.x < MAP_WIDTH && 0 <= p.y < MAP_HEIGHT
}

/// `p` lies where a new snake's head may be placed.
pub open spec fn in_start_area(p: Position) -> bool {
    START_MARGIN <= p.x < MAP_WIDTH - START_MARGIN && START_MARGIN <= p.y < MAP_HEIGHT
        - START_MARGIN
}

/// The cell next to `p` in direction `d`.
pub open spec fn stepped(p: Position, d: Direction) -> Position {
    match d {
        Direction::Up => Position { x: p.x, y: (p.y - 1) as i32 },
        Direction::Down => Position { x: p.x, y: (p.y + 1) as i32 },
        Direction::Left => Position { x: (p.x - 1) as i32, y: p.y },
        Direction::Right => Position { x: (p.x + 1) as i32, y: p.y },
    }
}

/// `a` and `b` point in opposite directions.
pub open spec fn opposite(a: Direction, b: Direction) -> bool {
    ||| (a == Direction::Up && b == Direction::Down)
    ||| (a == Direction::Down && b == Direction::Up)
    ||| (a == Direction::Left && b == Direction::Right)
    ||| (a == Direction::Right && b == Direction::Left)
}

/// The snakes of a vector, as values.
pub open spec fn views(s: Seq<Snake>) -> Seq<SnakeView> {
    s.map_values(|x: Snake| x@)
}

/// The cells of all the snakes, snake after snake, each from head to tail.
pub open spec fn cells(snakes: Seq<SnakeView>) -> Seq<Position>
    decreases snakes.len(),
{
    if snakes.len() == 0 {
        Seq::empty()
    } else {
        cells(snakes.drop_last()) + snakes.last().body
    }
}

/// Some snake has a cell at `p`.
pub open spec fn occupies(snakes: Seq<SnakeView>, p: Position) -> bool {
    exists|i: int, j: int|
        0 <= i < snakes.len() && 0 <= j < snakes[i].body.len() && #[trigger] snakes[i].body[j] == p
}

/// A start cell that no snake occupies exists.
pub open spec fn free_start_cell(snakes: Seq<SnakeView>) -> bool {
    exists|p: Position| in_start_area(p) && !occupies(snakes, p)
}

/// The body of a snake whose head starts at `p`: three cells, heading right.
pub open spec fn start_body(p: Position) -> Seq<Position> {
    seq![p, Position { x: (p.x - 1) as i32, y: p.y }, Position { x: (p.x - 2) as i32, y: p.y }]
}

/// A snake as it enters the game: alive, heading right, without points.
pub open spec fn fresh_snake(id: usize, p: Position) -> SnakeView {
    SnakeView { id, body: start_body(p), direction: Direction::Right, alive: true, score: 0 }
}

/// `i` is the first index of a piece of food at `p`.
pub open spec fn is_first_food(foods: Seq<Food>, p: Position, i: int) -> bool {
    &&& 0 <= i < foods.len()
    &&& foods[i].position == p
    &&& forall|j: int| 0 <= j < i ==> foods[j].position != p
}

/// The index of the first piece of food at `p`, if there is one.
pub open spec fn food_index(foods: Seq<Food>, p: Position) -> Option<int> {
    if exists|i: int| is_first_food(foods, p, i) {
        Some(choose|i: int| is_first_food(foods, p, i))
    } else {
        None
    }
}

/// One tick for one snake. A live snake steps ahead; it dies where that step leaves the board
/// or lands on a cell in `occupied`. Otherwise it eats the first piece of food on its new head,
/// growing by one cell and scoring a point, or moves on without growing.
pub open spec fn advance_snake(s: SnakeView, occupied: Seq<Position>, foods: Seq<Food>) -> (
    SnakeView,
    Seq<Food>,
) {
    if !s.alive {
        (s, foods)
    } else {
        let nh = stepped(s.body[0], s.direction);
        if !on_board(nh) || occupied.contains(nh) {
            (
                SnakeView {
                    id: s.id,
                    body: s.body,
                    direction: s.direction,
                    alive: false,
                    score: s.score,
                },
                foods,
            )
        } else {
            match food_index(foods, nh) {
                Some(i) => (
                    SnakeView {
                        id: s.id,
                        body: seq![nh] + s.body,
                        direction: s.direction,
                        alive: true,
                        score: (s.score + 1) as u32,
                    },
                    foods.remove(i),
                ),
                None => (
                    SnakeView {
                        id: s.id,
                        body: (seq![nh] + s.body).drop_last(),
                        direction: s.direction,
                        alive: true,
                        score: s.score,
                    },
                    foods,
                ),
            }
        }
    }
}

/// One tick for all the snakes, in order; each finds the food that those before it left.
pub open spec fn advance_all(snakes: Seq<SnakeView>, occupied: Seq<Position>, foods: Seq<Food>) -> (
    Seq<SnakeView>,
    Seq<Food>,
)
    decreases snakes.len(),
{
    if snakes.len() == 0 {
        (Seq::empty(), foods)
    } else {
        let prev = advance_all(snakes.drop_last(), occupied, foods);
        let last = advance_snake(snakes.last(), occupied, prev.1);
        (prev.0.push(last.0), last.1)
    }
}

/// The number of live snakes.
pub open spec fn alive_count(snakes: Seq<SnakeView>) -> nat
    decreases snakes.len(),
{
    if snakes.len() == 0 {
        0
    } else {
        alive_count(snakes.drop_last()) + (if snakes.last().alive {
            1nat
        } else {
            0nat
        })
    }
}

/// Some piece of food lies at `p`.
pub open spec fn food_at(foods: Seq<Food>, p: Position) -> bool {
    exists|i: int| 0 <= i < foods.len() && (#[trigger] foods[i]).position == p
}

/// The food after a draw of cell `p`: a piece is added at `p` when no cell of `occupied` and
/// no piece of food lies there.
pub open spec fn place(foods: Seq<Food>, occupied: Seq<Position>, p: Position) -> Seq<Food> {
    if !occupied.contains(p) && !food_at(foods, p) {
        foods.push(Food { position: p })
    } else {
        foods
    }
}

/// The food after the draws `draws`, placed in order.
pub open spec fn place_all(foods: Seq<Food>, occupied: Seq<Position>, draws: Seq<Position>) -> Seq<Food>
    decreases draws.len(),
{
    if draws.len() == 0 {
        foods
    } else {
        place(place_all(foods, occupied, draws.drop_last()), occupied, draws.last())
    }
}

/// A random number asked for from the range `low..high`, and the number that came back.
pub struct Draw {
    pub low: i32,
    pub high: i32,
    pub value: i32,
}

/// `d` was asked for from exactly `low..high`, and came back in that range.
pub open spec fn drawn_from(d: Draw, low: int, high: int) -> bool {
    d.low == low && d.high == high && low <= d.value < high
}

/// The cell whose column and row were drawn as `d`.
pub open spec fn drawn_cell(d: (Draw, Draw)) -> Position {
    Position { x: d.0.value, y: d.1.value }
}

/// The cells drawn as `draws`, in order.
pub open spec fn drawn_cells(draws: Seq<(Draw, Draw)>) -> Seq<Position> {
    draws.map_values(|d: (Draw, Draw)| drawn_cell(d))
}

/// A refill from `before` to `after` made by the random draws `draws`: at most
/// `MAX_FOOD_ATTEMPTS` of them, each a column drawn from `0..MAP_WIDTH` and a row drawn from
/// `0..MAP_HEIGHT`, each made while fewer than `target` pieces lay on the board; `after` is the
/// food those cells place, in order; and the refill stops only once `target` pieces lie on the
/// board or every draw is spent.
pub open spec fn refill_run(
    before: Seq<Food>,
    after: Seq<Food>,
    occupied: Seq<Position>,
    target: nat,
    draws: Seq<(Draw, Draw)>,
) -> bool {
    &&& draws.len() <= MAX_FOOD_ATTEMPTS
    &&& forall|i: int|
        0 <= i < draws.len() ==> drawn_from((#[trigger] draws[i]).0, 0, MAP_WIDTH as int) && drawn_from(
            draws[i].1,
            0,
            MAP_HEIGHT as int,
        )
    &&& forall|i: int|
        0 <= i < draws.len() ==> place_all(before, occupied, #[trigger] drawn_cells(draws).take(i)).len()
            < target
    &&& after == place_all(before, occupied, drawn_cells(draws))
    &&& after.len() >= target || draws.len() == MAX_FOOD_ATTEMPTS
}

/// `after` is a refill of `before` around `occupied` up to `target` pieces: see `refill_run`.
pub open spec fn refilled(before: Seq<Food>, after: Seq<Food>, occupied: Seq<Position>, target: nat) -> bool {
    exists|draws: Seq<(Draw, Draw)>| refill_run(before, after, occupied, target, draws)
}

/// The shape of a refill: `before` stays as it was, and each piece added lies on the board, off
/// `occupied`, and apart from every other piece; at most `target` pieces lie on the board if at
/// most that many lay there before, and nothing is added once `target` pieces lie there.
pub open spec fn refill_shape(before: Seq<Food>, after: Seq<Food>, occupied: Seq<Position>, target: nat) -> bool {
    &&& before.len() <= after.len()
    &&& after.subrange(0, before.len() as int) == before
    &&& before.len() >= target ==> after.len() == before.len()
    &&& before.len() < target ==> after.len() <= target
    &&& forall|i: int|
        before.len() <= i < after.len() ==> {
            &&& on_board(#[trigger] after[i].position)
            &&& !occupied.contains(after[i].position)
            &&& forall|j: int| 0 <= j < i ==> after[j].position != after[i].position
        }
}

proof fn lemma_place_all_shape(before: Seq<Food>, occupied: Seq<Position>, draws: Seq<Position>)
    requires
        forall|i: int| 0 <= i < draws.len() ==> on_board(#[trigger] draws[i]),
    ensures
        ({
            let after = place_all(before, occupied, draws);
            &&& before.len() <= after.len() <= before.len() + draws.len()
            &&& after.subrange(0, before.len() as int) == before
            &&& forall|i: int|
                before.len() <= i < after.len() ==> {
                    &&& on_board(#[trigger] after[i].position)
                    &&& !occupied.contains(after[i].position)
                    &&& forall|j: int| 0 <= j < i ==> after[j].position != after[i].position
                }
        }),
    decreases draws.len(),
{
    if draws.len() == 0 {
        assert(before.subrange(0, before.len() as int) =~= before);
    } else {
        let init = draws.drop_last();
        assert forall|i: int| 0 <= i < init.len() implies on_board(#[trigger] init[i]) by {
            assert(init[i] == draws[i]);
        }
        lemma_place_all_shape(before, occupied, init);
        let prev = place_all(before, occupied, init);
        let p = draws.last();
        let after = place_all(before, occupied, draws);
        assert(on_board(draws[draws.len() - 1]));
        if !occupied.contains(p) && !food_at(prev, p) {
            assert(after.subrange(0, before.len() as int) =~= prev.subrange(0, before.len() as int));
            assert forall|i: int| before.len() <= i < after.len() implies {
                &&& on_board(#[trigger] after[i].position)
                &&& !occupied.contains(after[i].position)
                &&& forall|j: int| 0 <= j < i ==> after[j].position != after[i].position
            } by {
                if i < prev.len() {
                    assert(after[i] == prev[i]);
                    assert forall|j: int| 0 <= j < i implies after[j].position != after[i].position by {
                        assert(after[j] == prev[j]);
                    }
                } else {
                    assert forall|j: int| 0 <= j < i implies after[j].position != after[i].position by {
                        assert(after[j] == prev[j]);
                    }
                }
            }
        }
    }
}

/// A refill has the shape `refill_shape` describes.
pub proof fn lemma_refill_shape(before: Seq<Food>, after: Seq<Food>, occupied: Seq<Position>, target: nat)
    requires
        refilled(before, after, occupied, target),
    ensures
        refill_shape(before, after, occupied, target),
{
    let rec = choose|draws: Seq<(Draw, Draw)>| refill_run(before, after, occupied, target, draws);
    let draws = drawn_cells(rec);
    assert forall|i: int| 0 <= i < draws.len() implies on_board(#[trigger] draws[i]) by {
        assert(drawn_from(rec[i].0, 0, MAP_WIDTH as int) && drawn_from(rec[i].1, 0, MAP_HEIGHT as int));
    }
    lemma_place_all_shape(before, occupied, draws);
    if before.len() >= target {
        if draws.len() > 0 {
            assert(draws.take(0) =~= Seq::<Position>::empty());
            assert(place_all(before, occupied, drawn_cells(rec).take(0)).len() < target);
        }
        assert(draws.len() == 0);
    } else if draws.len() > 0 {
        let k = draws.len() - 1;
        assert(draws.take(k) =~= draws.drop_last());
        assert(place_all(before, occupied, drawn_cells(rec).take(k)).len() < target);
    }
}

/// `p` and `q` are neighbouring cells: one apart across or down.
pub open spec fn adjacent(p: Position, q: Position) -> bool {
    ||| (p.x == q.x && (p.y == q.y + 1 || q.y == p.y + 1))
    ||| (p.y == q.y && (p.x == q.x + 1 || q.x == p.x + 1))
}

/// Each cell of `body` neighbours the next one.
pub open spec fn chained(body: Seq<Position>) -> bool {
    forall|i: int, j: int|
        0 <= i && j == i + 1 && j < body.len() ==> adjacent(#[trigger] body[i], #[trigger] body[j])
}

/// What every snake of a room keeps: at least three cells, each neighbouring the next, all on
/// the board and apart, and one point for each cell grown.
pub open spec fn snake_ok(s: SnakeView) -> bool {
    &&& 3 <= s.body.len()
    &&& chained(s.body)
    &&& s.body.no_duplicates()
    &&& forall|i: int| 0 <= i < s.body.len() ==> on_board(#[trigger] s.body[i])
    &&& s.score + 3 == s.body.len()
}

/// No two snakes share an id.
pub open spec fn ids_distinct(snakes: Seq<SnakeView>) -> bool {
    forall|i: int, j: int|
        0 <= i < snakes.len() && 0 <= j < snakes.len() && i != j ==> snakes[i].id != snakes[j].id
}

/// A cell sequence without repeats, all on the board, has at most as many cells as the board.
pub proof fn lemma_body_fits_board(body: Seq<Position>)
    requires
        body.no_duplicates(),
        forall|i: int| 0 <= i < body.len() ==> on_board(#[trigger] body[i]),
    ensures
        body.len() <= MAP_WIDTH * MAP_HEIGHT,
{
    body.unique_seq_to_set();
    let s = body.to_set();
    let f = |p: Position| (p.x as int) * (MAP_HEIGHT as int) + (p.y as int);
    let img = s.map(f);
    assert forall|a: Position, b: Position| s.contains(a) && s.contains(b) && #[trigger] f(a) == #[trigger] f(
        b,
    ) implies a == b by {
        assert(on_board(a) && on_board(b));
    }
    assert(vstd::relations::injective_on(f, s));
    vstd::set_lib::lemma_map_size(s, img, f);
    vstd::set_lib::lemma_int_range(0, MAP_WIDTH * MAP_HEIGHT);
    assert forall|k: int| img.contains(k) implies vstd::set_lib::set_int_range(
        0,
        MAP_WIDTH * MAP_HEIGHT,
    ).contains(k) by {
        let p = choose|p: Position| s.contains(p) && f(p) == k;
        assert(on_board(p));
    }
    vstd::set_lib::lemma_len_subset(img, vstd::set_lib::set_int_range(0, MAP_WIDTH * MAP_HEIGHT));
}

/// The cells of the snakes are exactly the cells that some snake occupies.
pub proof fn lemma_cells_occupied(snakes: Seq<SnakeView>, p: Position)
    ensures
        cells(snakes).contains(p) <==> occupies(snakes, p),
    decreases snakes.len(),
{
    if snakes.len() > 0 {
        let init = snakes.drop_last();
        lemma_cells_occupied(init, p);
        let last = snakes.last();
        let c = cells(snakes);
        assert(c == cells(init) + last.body);
        if cells(init).contains(p) {
            let k = choose|k: int| 0 <= k < cells(init).len() && cells(init)[k] == p;
            assert(c[k] == p);
            let (i, j) = choose|i: int, j: int|
                0 <= i < init.len() && 0 <= j < init[i].body.len() && #[trigger] init[i].body[j]
                    == p;
            assert(snakes[i].body[j] == p);
        }
        if last.body.contains(p) {
            let k = choose|k: int| 0 <= k < last.body.len() && last.body[k] == p;
            assert(c[cells(init).len() + k] == p);
            assert(snakes[snakes.len() - 1].body[k] == p);
        }
        if c.contains(p) {
            let k = choose|k: int| 0 <= k < c.len() && c[k] == p;
            if k < cells(init).len() {
                assert(cells(init)[k] == p);
            } else {
                assert(last.body[k - cells(init).len()] == p);
            }
        }
        if occupies(snakes, p) {
            let (i, j) = choose|i: int, j: int|
                0 <= i < snakes.len() && 0 <= j < snakes[i].body.len() && #[trigger] snakes[i].body[j]
                    == p;
            if i < snakes.len() - 1 {
                assert(init[i].body[j] == p);
            } else {
                assert(last.body[j] == p);
            }
        }
    }
}

/// A tick keeps a snake sound, keeps its id and direction, and never brings a dead snake back.
pub proof fn lemma_advance_snake(s: SnakeView, occupied: Seq<Position>, foods: Seq<Food>)
    requires
        snake_ok(s),
        forall|j: int| 0 <= j < s.body.len() ==> occupied.contains(#[trigger] s.body[j]),
    ensures
        snake_ok(advance_snake(s, occupied, foods).0),
        advance_snake(s, occupied, foods).0.id == s.id,
        advance_snake(s, occupied, foods).0.direction == s.direction,
        advance_snake(s, occupied, foods).0.alive ==> s.alive,
        !s.alive ==> advance_snake(s, occupied, foods) == (s, foods),
{
    lemma_body_fits_board(s.body);
    if s.alive {
        let nh = stepped(s.body[0], s.direction);
        if on_board(nh) && !occupied.contains(nh) {
            let grown = seq![nh] + s.body;
            assert forall|a: int, b: int| 0 <= a < grown.len() && 0 <= b < grown.len() && a != b implies grown[a]
                != grown[b] by {
                if a == 0 && b > 0 {
                    assert(grown[b] == s.body[b - 1]);
                    assert(occupied.contains(s.body[b - 1]));
                } else if b == 0 && a > 0 {
                    assert(grown[a] == s.body[a - 1]);
                    assert(occupied.contains(s.body[a - 1]));
                } else if a > 0 && b > 0 {
                    assert(grown[a] == s.body[a - 1]);
                    assert(grown[b] == s.body[b - 1]);
                }
            }
            assert(grown.no_duplicates());
            assert forall|i: int, j: int| 0 <= i && j == i + 1 && j < grown.len() implies adjacent(
                #[trigger] grown[i],
                #[trigger] grown[j],
            ) by {
                if i > 0 {
                    assert(grown[i] == s.body[i - 1] && grown[j] == s.body[j - 1]);
                } else {
                    assert(grown[1] == s.body[0]);
                }
            }
            assert forall|i: int| 0 <= i < grown.len() implies on_board(#[trigger] grown[i]) by {
                if i > 0 {
                    assert(grown[i] == s.body[i - 1]);
                }
            }
            let shrunk = grown.drop_last();
            assert forall|a: int, b: int| 0 <= a < shrunk.len() && 0 <= b < shrunk.len() && a != b implies shrunk[a]
                != shrunk[b] by {
                assert(shrunk[a] == grown[a] && shrunk[b] == grown[b]);
            }
            assert(shrunk.no_duplicates());
            assert forall|i: int, j: int| 0 <= i && j == i + 1 && j < shrunk.len() implies adjacent(
                #[trigger] shrunk[i],
                #[trigger] shrunk[j],
            ) by {
                assert(shrunk[i] == grown[i] && shrunk[j] == grown[j]);
            }
            assert forall|i: int| 0 <= i < shrunk.len() implies on_board(#[trigger] shrunk[i]) by {
                assert(shrunk[i] == grown[i]);
            }
        }
    }
}

/// A tick keeps the number of snakes, their ids and their soundness; dead snakes stay as they
/// were, and no snake comes back to life.
pub proof fn lemma_advance_all(snakes: Seq<SnakeView>, occupied: Seq<Position>, foods: Seq<Food>)
    requires
        forall|i: int| 0 <= i < snakes.len() ==> snake_ok(#[trigger] snakes[i]),
        forall|i: int, j: int|
            0 <= i < snakes.len() && 0 <= j < snakes[i].body.len() ==> occupied.contains(
                #[trigger] snakes[i].body[j],
            ),
    ensures
        advance_all(snakes, occupied, foods).0.len() == snakes.len(),
        forall|i: int|
            0 <= i < snakes.len() ==> {
                let t = #[trigger] advance_all(snakes, occupied, foods).0[i];
                &&& snake_ok(t)
                &&& t.id == snakes[i].id
                &&& t.direction == snakes[i].direction
                &&& t.alive ==> snakes[i].alive
                &&& !snakes[i].alive ==> t == snakes[i]
            },
    decreases snakes.len(),
{
    if snakes.len() > 0 {
        let init = snakes.drop_last();
        lemma_advance_all(init, occupied, foods);
        let prev = advance_all(init, occupied, foods);
        let last = snakes.last();
        assert forall|j: int| 0 <= j < last.body.len() implies occupied.contains(#[trigger] last.body[j]) by {
            assert(snakes[snakes.len() - 1].body[j] == last.body[j]);
        }
        lemma_advance_snake(last, occupied, prev.1);
        let res = advance_all(snakes, occupied, foods).0;
        assert forall|i: int| 0 <= i < snakes.len() implies {
            let t = #[trigger] res[i];
            &&& snake_ok(t)
            &&& t.id == snakes[i].id
            &&& t.direction == snakes[i].direction
            &&& t.alive ==> snakes[i].alive
            &&& !snakes[i].alive ==> t == snakes[i]
        } by {
            if i < snakes.len() - 1 {
                assert(res[i] == prev.0[i]);
                assert(init[i] == snakes[i]);
            }
        }
    }
}

/// A tick keeps the ids of the snakes distinct.
pub proof fn lemma_advance_ids(snakes: Seq<SnakeView>, occupied: Seq<Position>, foods: Seq<Food>)
    requires
        forall|i: int| 0 <= i < snakes.len() ==> snake_ok(#[trigger] snakes[i]),
        forall|i: int, j: int|
            0 <= i < snakes.len() && 0 <= j < snakes[i].body.len() ==> occupied.contains(
                #[trigger] snakes[i].body[j],
            ),
        ids_distinct(snakes),
    ensures
        ids_distinct(advance_all(snakes, occupied, foods).0),
{
    lemma_advance_all(snakes, occupied, foods);
    let res = advance_all(snakes, occupied, foods).0;
    assert forall|i: int, j: int| 0 <= i < res.len() && 0 <= j < res.len() && i != j implies res[i].id
        != res[j].id by {
        assert(res[i].id == snakes[i].id);
        assert(res[j].id == snakes[j].id);
    }
}

/// Every cell of every snake is among the cells of the snakes.
pub proof fn lemma_cells_cover(snakes: Seq<SnakeView>)
    ensures
        forall|i: int, j: int|
            0 <= i < snakes.len() && 0 <= j < snakes[i].body.len() ==> cells(snakes).contains(
                #[trigger] snakes[i].body[j],
            ),
{
    assert forall|i: int, j: int|
        0 <= i < snakes.len() && 0 <= j < snakes[i].body.len() implies cells(snakes).contains(
        #[trigger] snakes[i].body[j],
    ) by {
        lemma_cells_occupied(snakes, snakes[i].body[j]);
    }
}

/// All pieces of food lie on the board, on distinct cells.
pub open spec fn foods_ok(foods: Seq<Food>) -> bool {
    &&& forall|i: int| 0 <= i < foods.len() ==> on_board(#[trigger] foods[i].position)
    &&& forall|i: int, j: int|
        0 <= i < foods.len() && 0 <= j < foods.len() && i != j ==> foods[i].position
            != foods[j].position
}

/// Eating keeps the food on the board and apart.
pub proof fn lemma_advance_foods_ok(snakes: Seq<SnakeView>, occupied: Seq<Position>, foods: Seq<Food>)
    requires
        foods_ok(foods),
    ensures
        foods_ok(advance_all(snakes, occupied, foods).1),
        advance_all(snakes, occupied, foods).1.len() <= foods.len(),
    decreases snakes.len(),
{
    if snakes.len() > 0 {
        lemma_advance_foods_ok(snakes.drop_last(), occupied, foods);
        let prev = advance_all(snakes.drop_last(), occupied, foods).1;
        let s = snakes.last();
        if s.alive {
            let nh = stepped(s.body[0], s.direction);
            if on_board(nh) && !occupied.contains(nh) {
                match food_index(prev, nh) {
                    Some(k) => {
                        let after = prev.remove(k);
                        assert(is_first_food(prev, nh, k));
                        assert forall|i: int| 0 <= i < after.len() implies on_board(#[trigger] after[i].position) by {
                            if i < k {
                                assert(after[i] == prev[i]);
                            } else {
                                assert(after[i] == prev[i + 1]);
                            }
                        }
                        assert forall|i: int, j: int|
                            0 <= i < after.len() && 0 <= j < after.len() && i != j implies after[i].position
                            != after[j].position by {
                            let i2 = if i < k { i } else { i + 1 };
                            let j2 = if j < k { j } else { j + 1 };
                            assert(after[i] == prev[i2]);
                            assert(after[j] == prev[j2]);
                        }
                    },
                    None => {},
                }
            }
        }
    }
}

/// Refilling keeps the food on the board and apart.
pub proof fn lemma_refilled_foods_ok(before: Seq<Food>, after: Seq<Food>, occupied: Seq<Position>, target: nat)
    requires
        foods_ok(before),
        refilled(before, after, occupied, target),
    ensures
        foods_ok(after),
        refill_shape(before, after, occupied, target),
{
    lemma_refill_shape(before, after, occupied, target);
    assert forall|i: int| 0 <= i < before.len() implies after[i] == before[i] by {
        assert(after.subrange(0, before.len() as int)[i] == after[i]);
    }
    assert forall|i: int| 0 <= i < after.len() implies on_board(#[trigger] after[i].position) by {
        if i < before.len() {
            assert(after[i] == before[i]);
        }
    }
    assert forall|i: int, j: int| 0 <= i < after.len() && 0 <= j < after.len() && i != j implies after[i].position
        != after[j].position by {
        if i < before.len() && j < before.len() {
            assert(after[i] == before[i]);
            assert(after[j] == before[j]);
        } else if i < j {
            assert(before.len() <= j);
        } else {
            assert(before.len() <= i);
        }
    }
}

/// The start cells, column by column: fourteen columns of fourteen cells.
pub open spec fn start_cells() -> Seq<Position> {
    Seq::new(196, |i: int| Position { x: (START_MARGIN + i / 14) as i32, y: (START_MARGIN + i % 14) as i32 })
}

/// No snake has a cell at the position.
pub open spec fn unoccupied(snakes: Seq<SnakeView>) -> spec_fn(Position) -> bool {
    |p: Position| !occupies(snakes, p)
}

/// The start cells that no snake occupies, column by column.
pub open spec fn free_start_list(snakes: Seq<SnakeView>) -> Seq<Position> {
    start_cells().filter(unoccupied(snakes))
}

/// How a start cell `p` is chosen for a new head among `snakes`. Up to `MAX_START_ATTEMPTS`
/// times a column and a row are drawn from `START_MARGIN..MAP_WIDTH - START_MARGIN` and
/// `START_MARGIN..MAP_HEIGHT - START_MARGIN`, until a drawn cell is free; `p` is that cell.
/// When every such draw lands on a snake, `pick` is drawn from `0..n`, where `n` is the number
/// of free start cells, and `p` is the free start cell of that rank, column by column.
pub open spec fn start_choice(
    snakes: Seq<SnakeView>,
    p: Position,
    tries: Seq<(Draw, Draw)>,
    pick: Option<Draw>,
) -> bool {
    &&& tries.len() <= MAX_START_ATTEMPTS
    &&& forall|i: int|
        0 <= i < tries.len() ==> drawn_from(
            (#[trigger] tries[i]).0,
            START_MARGIN as int,
            MAP_WIDTH - START_MARGIN,
        ) && drawn_from(tries[i].1, START_MARGIN as int, MAP_HEIGHT - START_MARGIN)
    &&& match pick {
        None => {
            &&& tries.len() > 0
            &&& forall|i: int| 0 <= i < tries.len() - 1 ==> occupies(snakes, drawn_cell(#[trigger] tries[i]))
            &&& p == drawn_cell(tries.last())
            &&& !occupies(snakes, p)
        },
        Some(d) => {
            &&& tries.len() == MAX_START_ATTEMPTS
            &&& forall|i: int| 0 <= i < tries.len() ==> occupies(snakes, drawn_cell(#[trigger] tries[i]))
            &&& drawn_from(d, 0, free_start_list(snakes).len() as int)
            &&& p == free_start_list(snakes)[d.value as int]
        },
    }
}

/// `p` can be chosen as a start cell among `snakes`: see `start_choice`.
pub open spec fn chosen_start(snakes: Seq<SnakeView>, p: Position) -> bool {
    exists|tries: Seq<(Draw, Draw)>, pick: Option<Draw>|
        #![trigger start_choice(snakes, p, tries, pick)]
        start_choice(snakes, p, tries, pick)
}

/// The start cells are exactly the cells of the start area.
pub proof fn lemma_start_cells(p: Position)
    ensures
        start_cells().contains(p) <==> in_start_area(p),
{
    if in_start_area(p) {
        let i = (p.x - START_MARGIN) * 14 + (p.y - START_MARGIN);
        assert(i / 14 == p.x - START_MARGIN && i % 14 == p.y - START_MARGIN) by (nonlinear_arith)
            requires
                i == (p.x - 3) * 14 + (p.y - 3),
                3 <= p.x < 17,
                3 <= p.y < 17,
                START_MARGIN == 3,
        ;
        assert(start_cells()[i] == p);
    }
    if start_cells().contains(p) {
        let i = choose|i: int| 0 <= i < 196 && start_cells()[i] == p;
        assert(0 <= i / 14 < 14 && 0 <= i % 14 < 14) by (nonlinear_arith)
            requires
                0 <= i < 196,
        ;
    }
}

/// A chosen start cell lies in the start area, off every snake.
pub proof fn lemma_start_choice(
    snakes: Seq<SnakeView>,
    p: Position,
    tries: Seq<(Draw, Draw)>,
    pick: Option<Draw>,
)
    requires
        start_choice(snakes, p, tries, pick),
    ensures
        in_start_area(p),
        !occupies(snakes, p),
{
    match pick {
        None => {
            assert(drawn_from(tries[tries.len() - 1].0, START_MARGIN as int, MAP_WIDTH - START_MARGIN));
            assert(drawn_from(tries[tries.len() - 1].1, START_MARGIN as int, MAP_HEIGHT - START_MARGIN));
        },
        Some(d) => {
            let list = free_start_list(snakes);
            start_cells().lemma_filter_pred(unoccupied(snakes), d.value as int);
            assert(list.contains(p));
            start_cells().lemma_filter_contains_rev(unoccupied(snakes), p);
            lemma_start_cells(p);
        },
    }
}

} // verus!
