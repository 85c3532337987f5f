//! A room: the snakes of its players, the food on its board, and the course of its game.
use vstd::prelude::*;
use std::collections::HashSet;
use crate::types::{copy_snake, position_listed, Direction, Food, GameState, Position, Snake, SnakeView};
use crate::rules::{
    chosen_start, drawn_cell, free_start_list, lemma_start_choice, start_cells, start_choice, unoccupied, MAX_START_ATTEMPTS,
    drawn_cells, drawn_from, place, place_all, refill_run, Draw,
    foods_ok, lemma_advance_foods_ok, lemma_refilled_foods_ok, opposite,
    advance_all, advance_snake, alive_count, cells, food_index, fresh_snake, free_start_cell,
    ids_distinct, in_start_area, is_first_food, lemma_advance_all, lemma_advance_ids,
    lemma_body_fits_board, lemma_cells_cover, lemma_cells_occupied, occupies, on_board, refilled,
    snake_ok, start_body, views, FOOD_TARGET, MAP_HEIGHT, MAP_WIDTH, MAX_FOOD_ATTEMPTS,
    REQUIRED_PLAYERS, START_MARGIN,
};
use crate::rng::random_in_range;
use crate::ranking::{rank_by_score, ranked, score_pairs};

verus! {

broadcast use vstd::std_specs::hash::group_hash_axioms;

/// A game room.
#[derive(Debug)]
pub struct GameRoom {
    room_id: String,
    snakes: Vec<Snake>,
    foods: Vec<Food>,
    map_width: i32,
    map_height: i32,
    next_snake_id: usize,
    game_started: bool,
    game_over: bool,
    ready_players: HashSet<usize>,
    required_players: usize,
}

/// A room as a mathematical value.
pub struct RoomView {
    pub room_id: Seq<char>,
    pub snakes: Seq<SnakeView>,
    pub foods: Seq<Food>,
    pub map_size: (i32, i32),
    pub next_snake_id: usize,
    pub game_started: bool,
    pub game_over: bool,
    pub ready_players: Set<usize>,
    pub required_players: usize,
}

impl RoomView {
    /// What every room keeps: its board and player count; sound snakes with distinct ids
    /// below the next id to hand out; at most `FOOD_TARGET` pieces of food, on distinct cells
    /// of the board; and, while its game has not started, three-cell snakes and no food.
    pub open spec fn wf(self) -> bool {
        &&& self.map_size == (MAP_WIDTH, MAP_HEIGHT)
        &&& self.required_players == REQUIRED_PLAYERS
        &&& forall|i: int| 0 <= i < self.snakes.len() ==> snake_ok(#[trigger] self.snakes[i])
        &&& ids_distinct(self.snakes)
        &&& forall|i: int| 0 <= i < self.snakes.len() ==> (#[trigger] self.snakes[i]).id < self.next_snake_id
        &&& !self.game_started ==> forall|i: int|
            0 <= i < self.snakes.len() ==> (#[trigger] self.snakes[i]).body.len() == 3
        &&& foods_ok(self.foods)
        &&& !self.game_started ==> self.foods.len() == 0
        &&& self.foods.len() <= FOOD_TARGET
    }

    /// The game is under way: started and not over.
    pub open spec fn running(self) -> bool {
        self.game_started && !self.game_over
    }
}

impl View for GameRoom {
    type V = RoomView;

    closed spec fn view(&self) -> RoomView {
        RoomView {
            room_id: self.room_id@,
            snakes: views(self.snakes@),
            foods: self.foods@,
            map_size: (self.map_width, self.map_height),
            next_snake_id: self.next_snake_id,
            game_started: self.game_started,
            game_over: self.game_over,
            ready_players: self.ready_players@,
            required_players: self.required_players,
        }
    }
}

/// A copy of a set of player ids, by `HashSet::clone`. std documents `clone` as returning a
/// copy of the value; the contract states that the copy holds the same ids.
#[verifier::external_body]
fn copy_ready_players(players: &HashSet<usize>) -> (r: HashSet<usize>)
    ensures
        r@ == players@,
{
    players.clone()
}

impl Clone for GameRoom {
    /// The same room, its snakes, food and ready players copied.
    fn clone(&self) -> (r: GameRoom)
        ensures
            r@ == self@,
    {
        let mut snakes: Vec<Snake> = Vec::new();
        let mut i: usize = 0;
        while i < self.snakes.len()
            invariant
                i <= self.snakes.len(),
                snakes@.len() == i,
                forall|k: int| 0 <= k < i ==> (#[trigger] snakes@[k])@ == self.snakes@[k]@,
            decreases self.snakes.len() - i,
        {
            snakes.push(copy_snake(&self.snakes[i]));
            i = i + 1;
        }
        let mut foods: Vec<Food> = Vec::new();
        let mut j: usize = 0;
        while j < self.foods.len()
            invariant
                j <= self.foods.len(),
                foods@ =~= self.foods@.take(j as int),
            decreases self.foods.len() - j,
        {
            foods.push(self.foods[j]);
            j = j + 1;
        }
        assert(views(snakes@) =~= views(self.snakes@));
        assert(foods@ =~= self.foods@);
        GameRoom {
            room_id: self.room_id.clone(),
            snakes,
            foods,
            map_width: self.map_width,
            map_height: self.map_height,
            next_snake_id: self.next_snake_id,
            game_started: self.game_started,
            game_over: self.game_over,
            ready_players: copy_ready_players(&self.ready_players),
            required_players: self.required_players,
        }
    }
}

/// What one tick makes of a room. A game that is not under way stays as it is. Otherwise
/// every snake advances in turn, the food is refilled, and the game is over once at most
/// one snake lives.
pub open spec fn tick_result(pre: RoomView, post: RoomView) -> bool {
    if !pre.running() {
        post == pre
    } else {
        let moved = advance_all(pre.snakes, cells(pre.snakes), pre.foods);
        &&& post.snakes == moved.0
        &&& refilled(moved.1, post.foods, cells(moved.0), FOOD_TARGET as nat)
        &&& post.game_over == (alive_count(moved.0) <= 1)
        &&& post == RoomView { snakes: post.snakes, foods: post.foods, game_over: post.game_over, ..pre }
    }
}

/// The first piece of food at `p`.
fn first_food_at(foods: &Vec<Food>, p: Position) -> (r: Option<usize>)
    ensures
        match r {
            Some(i) => is_first_food(foods@, p, i as int),
            None => forall|j: int| 0 <= j < foods@.len() ==> foods@[j].position != p,
        },
{
    let mut i: usize = 0;
    while i < foods.len()
        invariant
            i <= foods.len(),
            forall|j: int| 0 <= j < i ==> foods@[j].position != p,
        decreases foods.len() - i,
    {
        if foods[i].position == p {
            return Some(i);
        }
        i = i + 1;
    }
    None
}

proof fn lemma_food_index(foods: Seq<Food>, p: Position, i: int)
    requires
        is_first_food(foods, p, i),
    ensures
        food_index(foods, p) == Some(i),
{
    let k = choose|k: int| is_first_food(foods, p, k);
    assert(is_first_food(foods, p, k));
    if k < i {
        assert(foods[k].position != p);
    } else if i < k {
        assert(foods[i].position != p);
    }
}

/// One tick for one snake, eating from `foods`.
fn advance(snake: &Snake, occupied: &Vec<Position>, foods: &mut Vec<Food>) -> (r: Snake)
    requires
        snake_ok(snake@),
        forall|j: int| 0 <= j < snake@.body.len() ==> occupied@.contains(#[trigger] snake@.body[j]),
    ensures
        (r@, final(foods)@) == advance_snake(snake@, occupied@, old(foods)@),
{
    let mut ns = copy_snake(snake);
    if !ns.alive {
        return ns;
    }
    proof {
        lemma_body_fits_board(snake@.body);
        assert(on_board(snake@.body[0]));
    }
    let head = ns.body[0];
    let new_head = match ns.direction {
        Direction::Up => Position { x: head.x, y: head.y - 1 },
        Direction::Down => Position { x: head.x, y: head.y + 1 },
        Direction::Left => Position { x: head.x - 1, y: head.y },
        Direction::Right => Position { x: head.x + 1, y: head.y },
    };
    let hit_wall = new_head.x < 0 || new_head.x >= MAP_WIDTH || new_head.y < 0 || new_head.y
        >= MAP_HEIGHT;
    let hit_body = position_listed(occupied, new_head);
    if hit_wall || hit_body {
        ns.alive = false;
        return ns;
    }
    ns.body.insert(0, new_head);
    assert(ns.body@ =~= seq![new_head] + snake@.body);
    match first_food_at(foods, new_head) {
        Some(i) => {
            proof {
                lemma_food_index(foods@, new_head, i as int);
            }
            ns.score = ns.score + 1;
            foods.remove(i);
        },
        None => {
            ns.body.pop();
        },
    }
    ns
}

/// Adds a piece of food at `p` when neither a cell of `occupied` nor a piece of food lies there.
pub fn place_food(foods: &mut Vec<Food>, occupied: &Vec<Position>, p: Position)
    ensures
        final(foods)@ == place(old(foods)@, occupied@, p),
{
    let free = !position_listed(occupied, p);
    match first_food_at(foods, p) {
        Some(i) => {
            assert(foods@[i as int].position == p);
        },
        None => {
            if free {
                foods.push(Food { position: p });
            }
        },
    }
}

/// Draws random cells of the board and places food on them, while fewer than `required`
/// pieces lie on the board, making at most `MAX_FOOD_ATTEMPTS` draws. Returns the draws.
fn refill_foods(foods: &mut Vec<Food>, occupied: &Vec<Position>, required: usize, map_size: (i32, i32)) -> (draws: Ghost<Seq<(Draw, Draw)>>)
    requires
        map_size == (MAP_WIDTH, MAP_HEIGHT),
    ensures
        refill_run(old(foods)@, final(foods)@, occupied@, required as nat, draws@),
{
    let max_attempts: u32 = MAX_FOOD_ATTEMPTS;
    let mut attempts: u32 = 0;
    let ghost mut draws: Seq<(Draw, Draw)> = Seq::empty();
    while foods.len() < required && attempts < max_attempts
        invariant
            map_size == (MAP_WIDTH, MAP_HEIGHT),
            attempts <= max_attempts,
            max_attempts == MAX_FOOD_ATTEMPTS,
            draws.len() == attempts,
            forall|i: int|
                0 <= i < draws.len() ==> drawn_from((#[trigger] draws[i]).0, 0, MAP_WIDTH as int)
                    && drawn_from(draws[i].1, 0, MAP_HEIGHT as int),
            forall|i: int|
                0 <= i < draws.len() ==> place_all(old(foods)@, occupied@, #[trigger] drawn_cells(draws).take(i)).len()
                    < required,
            foods@ == place_all(old(foods)@, occupied@, drawn_cells(draws)),
        decreases max_attempts - attempts,
    {
        attempts = attempts + 1;
        let dx = random_in_range(0, map_size.0);
        let dy = random_in_range(0, map_size.1);
        let pos = Position { x: dx.value, y: dy.value };
        place_food(foods, occupied, pos);
        proof {
            let next = draws.push((dx, dy));
            assert(drawn_cells(next) =~= drawn_cells(draws).push(pos));
            assert(drawn_cells(next).take(draws.len() as int) =~= drawn_cells(draws));
            assert(drawn_cells(next).drop_last() =~= drawn_cells(draws));
            assert forall|i: int| 0 <= i < next.len() implies place_all(old(foods)@, occupied@, #[trigger] drawn_cells(next).take(i)).len()
                < required by {
                if i < draws.len() {
                    assert(drawn_cells(next).take(i) =~= drawn_cells(draws).take(i));
                }
            }
            assert forall|i: int| 0 <= i < next.len() implies drawn_from((#[trigger] next[i]).0, 0, MAP_WIDTH as int)
                && drawn_from(next[i].1, 0, MAP_HEIGHT as int) by {
                if i < draws.len() {
                    assert(next[i] == draws[i]);
                }
            }
            draws = next;
        }
    }
    Ghost(draws)
}

impl GameRoom {
    /// Every room keeps what `RoomView::wf` states.
    pub open spec fn wf(&self) -> bool {
        self@.wf()
    }

    pub fn new(room_id: String) -> (r: Self)
        ensures
            r.wf(),
            r@ == (RoomView {
                room_id: room_id@,
                snakes: Seq::empty(),
                foods: Seq::empty(),
                map_size: (MAP_WIDTH, MAP_HEIGHT),
                next_snake_id: 1,
                game_started: false,
                game_over: false,
                ready_players: Set::empty(),
                required_players: REQUIRED_PLAYERS,
            }),
    {
        let r = Self {
            room_id,
            snakes: Vec::new(),
            foods: Vec::new(),
            map_width: MAP_WIDTH,
            map_height: MAP_HEIGHT,
            next_snake_id: 1,
            game_started: false,
            game_over: false,
            ready_players: HashSet::new(),
            required_players: REQUIRED_PLAYERS,
        };
        assert(r@.snakes =~= Seq::<SnakeView>::empty());
        r
    }

    /// The cells of all the snakes, snake after snake.
    fn get_all_snake_positions(&self) -> (r: Vec<Position>)
        ensures
            r@ == cells(self@.snakes),
    {
        let mut r: Vec<Position> = Vec::new();
        let mut i: usize = 0;
        while i < self.snakes.len()
            invariant
                i <= self.snakes.len(),
                r@ == cells(views(self.snakes@).take(i as int)),
            decreases self.snakes.len() - i,
        {
            let body = &self.snakes[i].body;
            let mut j: usize = 0;
            while j < body.len()
                invariant
                    i < self.snakes.len(),
                    body == self.snakes@[i as int].body,
                    j <= body.len(),
                    r@ == cells(views(self.snakes@).take(i as int)) + body@.take(j as int),
                decreases body.len() - j,
            {
                r.push(body[j]);
                j = j + 1;
                assert(r@ =~= cells(views(self.snakes@).take(i as int)) + body@.take(j as int));
            }
            let ghost vs = views(self.snakes@);
            assert(vs.take(i + 1).drop_last() =~= vs.take(i as int));
            assert(vs.take(i + 1).last() == self.snakes@[i as int]@);
            assert(body@.take(j as int) =~= body@);
            i = i + 1;
        }
        assert(views(self.snakes@).take(i as int) =~= views(self.snakes@));
        r
    }

    /// Advances the game by one tick: see `tick_result`.
    pub fn update(&mut self)
        requires
            old(self).wf(),
        ensures
            final(self).wf(),
            tick_result(old(self)@, final(self)@),
            final(self)@.snakes.len() == old(self)@.snakes.len(),
    {
        if !self.game_started || self.game_over {
            return;
        }
        let initial_snake_positions = self.get_all_snake_positions();
        proof {
            lemma_cells_cover(self@.snakes);
        }
        let mut updated_snakes: Vec<Snake> = Vec::new();
        let mut new_foods: Vec<Food> = self.foods.clone();
        assert(new_foods@ =~= self.foods@);
        let n = self.snakes.len();
        let mut i: usize = 0;
        while i < n
            invariant
                n == self.snakes.len(),
                i <= n,
                self.wf(),
                initial_snake_positions@ == cells(self@.snakes),
                forall|a: int, b: int|
                    0 <= a < self@.snakes.len() && 0 <= b < self@.snakes[a].body.len()
                        ==> initial_snake_positions@.contains(#[trigger] self@.snakes[a].body[b]),
                (views(updated_snakes@), new_foods@) == advance_all(
                    self@.snakes.take(i as int),
                    initial_snake_positions@,
                    self@.foods,
                ),
            decreases n - i,
        {
            let ghost vs = self@.snakes;
            assert(vs[i as int] == self.snakes@[i as int]@);
            assert(snake_ok(vs[i as int]));
            let s = advance(&self.snakes[i], &initial_snake_positions, &mut new_foods);
            updated_snakes.push(s);
            assert(vs.take(i + 1).drop_last() =~= vs.take(i as int));
            assert(views(updated_snakes@) =~= advance_all(
                vs.take(i + 1),
                initial_snake_positions@,
                self@.foods,
            ).0);
            i = i + 1;
        }
        let ghost pre = self@;
        assert(pre.snakes.take(n as int) =~= pre.snakes);
        proof {
            lemma_advance_all(pre.snakes, initial_snake_positions@, pre.foods);
            lemma_advance_ids(pre.snakes, initial_snake_positions@, pre.foods);
            lemma_advance_foods_ok(pre.snakes, initial_snake_positions@, pre.foods);
        }
        self.snakes = updated_snakes;
        self.foods = new_foods;
        let current_positions = self.get_all_snake_positions();
        let ghost left = self.foods@;
        let draws = refill_foods(&mut self.foods, &current_positions, FOOD_TARGET, (self.map_width, self.map_height));
        assert(refill_run(left, self.foods@, current_positions@, FOOD_TARGET as nat, draws@));
        proof {
            lemma_refilled_foods_ok(left, self.foods@, current_positions@, FOOD_TARGET as nat);
        }
        let mut alive_count_now: usize = 0;
        let mut k: usize = 0;
        while k < self.snakes.len()
            invariant
                k <= self.snakes.len(),
                alive_count_now == alive_count(views(self.snakes@).take(k as int)),
                alive_count_now <= k,
            decreases self.snakes.len() - k,
        {
            let ghost vs = views(self.snakes@);
            assert(vs.take(k + 1).drop_last() =~= vs.take(k as int));
            if self.snakes[k].alive {
                alive_count_now = alive_count_now + 1;
            }
            k = k + 1;
        }
        assert(views(self.snakes@).take(k as int) =~= views(self.snakes@));
        if alive_count_now <= 1 {
            self.game_over = true;
        }
        assert forall|a: int| 0 <= a < self@.snakes.len() implies (#[trigger] self@.snakes[a]).id
            < self@.next_snake_id by {
            assert(self@.snakes[a].id == pre.snakes[a].id);
        }
    }
}

/// What joining makes of a room: the new snake, with id `id`, starts with its head on a start
/// cell chosen as `start_choice` says, and the next id moves on by one.
pub open spec fn joined(pre: RoomView, post: RoomView, id: usize) -> bool {
    &&& id == pre.next_snake_id
    &&& pre.next_snake_id < usize::MAX
    &&& exists|p: Position, tries: Seq<(Draw, Draw)>, pick: Option<Draw>|
        #![trigger start_choice(pre.snakes, p, tries, pick)]
        start_choice(pre.snakes, p, tries, pick) && post == (RoomView {
            snakes: pre.snakes.push(fresh_snake(id, p)),
            next_snake_id: (pre.next_snake_id + 1) as usize,
            ..pre
        })
}

/// What a reset makes of a room: every snake, in the same order and with the same id, starts
/// afresh with its head on a start cell chosen, as `start_choice` says, among the snakes as
/// they stood before the reset; the food is gone, nobody is ready, and the game has neither
/// started nor ended.
pub open spec fn reset_result(pre: RoomView, post: RoomView) -> bool {
    &&& post.snakes.len() == pre.snakes.len()
    &&& forall|i: int|
        0 <= i < pre.snakes.len() ==> {
            let p = (#[trigger] post.snakes[i]).body[0];
            &&& post.snakes[i] == fresh_snake(pre.snakes[i].id, p)
            &&& in_start_area(p)
            &&& !occupies(pre.snakes, p)
            &&& chosen_start(pre.snakes, p)
        }
    &&& post == RoomView {
        snakes: post.snakes,
        foods: Seq::empty(),
        game_started: false,
        game_over: false,
        ready_players: Set::empty(),
        ..pre
    }
}

/// What marking player `id` ready makes of a room, `started` telling whether the game started.
/// The id joins the ready players. The game starts when the room holds as many snakes, and as
/// many ready players, as it requires; food is then laid out around the snakes.
pub open spec fn ready_result(pre: RoomView, post: RoomView, id: usize, started: bool) -> bool {
    let ready = pre.ready_players.insert(id);
    &&& started == (pre.snakes.len() == pre.required_players && ready.len() == pre.required_players)
    &&& if started {
        &&& refilled(pre.foods, post.foods, cells(pre.snakes), FOOD_TARGET as nat)
        &&& post == RoomView { ready_players: ready, game_started: true, foods: post.foods, ..pre }
    } else {
        post == RoomView { ready_players: ready, ..pre }
    }
}

/// The snake after player `id` asks to head in direction `d`: a live snake with that id turns,
/// unless `d` points straight back.
pub open spec fn steered(s: SnakeView, id: usize, d: Direction) -> SnakeView {
    if s.id == id && s.alive && !opposite(s.direction, d) {
        SnakeView { direction: d, ..s }
    } else {
        s
    }
}

/// What an input makes of a room: while the game runs, the snake of the player turns as
/// `steered` says; otherwise nothing changes.
pub open spec fn input_result(pre: RoomView, post: RoomView, id: usize, d: Direction) -> bool {
    if pre.running() {
        post == RoomView { snakes: pre.snakes.map_values(|s: SnakeView| steered(s, id, d)), ..pre }
    } else {
        post == pre
    }
}

/// What removing player `id` makes of a room: its snake, if there is one, leaves and is handed
/// back, and the id is no longer among the ready players.
pub open spec fn removal_result(pre: RoomView, post: RoomView, id: usize, removed: Option<SnakeView>) -> bool {
    &&& match removed {
        Some(s) => exists|i: int|
            0 <= i < pre.snakes.len() && (#[trigger] pre.snakes[i]).id == id && s == pre.snakes[i]
                && post.snakes == pre.snakes.remove(i),
        None => (forall|i: int| 0 <= i < pre.snakes.len() ==> (#[trigger] pre.snakes[i]).id != id)
            && post.snakes == pre.snakes,
    }
    &&& post == RoomView { snakes: post.snakes, ready_players: pre.ready_players.remove(id), ..pre }
}

/// `a` and `b` point in opposite directions.
fn reverses(a: Direction, b: Direction) -> (r: bool)
    ensures
        r == opposite(a, b),
{
    match (a, b) {
        (Direction::Up, Direction::Down) | (Direction::Down, Direction::Up) => true,
        (Direction::Left, Direction::Right) | (Direction::Right, Direction::Left) => true,
        _ => false,
    }
}

impl GameRoom {
    /// Some snake has a cell at `p`.
    fn cell_taken(&self, p: Position) -> (r: bool)
        ensures
            r == occupies(self@.snakes, p),
    {
        let all = self.get_all_snake_positions();
        proof {
            lemma_cells_occupied(self@.snakes, p);
        }
        position_listed(&all, p)
    }

    /// The start cells that no snake occupies, column by column.
    fn free_start_cells(&self) -> (free: Vec<Position>)
        requires
            self.wf(),
        ensures
            free@ == free_start_list(self@.snakes),
            free@.len() <= 196,
            forall|k: int| 0 <= k < free@.len() ==> in_start_area(#[trigger] free@[k]) && !occupies(
                self@.snakes,
                free@[k],
            ),
            forall|p: Position| in_start_area(p) && !occupies(self@.snakes, p) ==> free@.contains(p),
    {
        let taken = self.get_all_snake_positions();
        let mut free: Vec<Position> = Vec::new();
        let mut x: i32 = START_MARGIN;
        while x < self.map_width - START_MARGIN
            invariant
                self.wf(),
                taken@ == cells(self@.snakes),
                START_MARGIN <= x <= MAP_WIDTH - START_MARGIN,
                free@.len() <= (x - 3) * 14,
                free@ == start_cells().take((x - 3) * 14).filter(unoccupied(self@.snakes)),
                forall|k: int| 0 <= k < free@.len() ==> in_start_area(#[trigger] free@[k]) && !occupies(
                    self@.snakes,
                    free@[k],
                ),
                forall|p: Position|
                    in_start_area(p) && p.x < x && !occupies(self@.snakes, p) ==> free@.contains(p),
            decreases MAP_WIDTH - x,
        {
            let mut y: i32 = START_MARGIN;
            while y < self.map_height - START_MARGIN
                invariant
                    self.wf(),
                    taken@ == cells(self@.snakes),
                    START_MARGIN <= x < MAP_WIDTH - START_MARGIN,
                    START_MARGIN <= y <= MAP_HEIGHT - START_MARGIN,
                    free@.len() <= (x - 3) * 14 + (y - 3),
                    free@ == start_cells().take((x - 3) * 14 + (y - 3)).filter(unoccupied(self@.snakes)),
                    forall|k: int|
                        0 <= k < free@.len() ==> in_start_area(#[trigger] free@[k]) && !occupies(
                            self@.snakes,
                            free@[k],
                        ),
                    forall|p: Position|
                        in_start_area(p) && (p.x < x || (p.x == x && p.y < y)) && !occupies(
                            self@.snakes,
                            p,
                        ) ==> free@.contains(p),
                decreases MAP_HEIGHT - y,
            {
                let pos = Position { x, y };
                proof {
                    lemma_cells_occupied(self@.snakes, pos);
                }
                let ghost prev = free@;
                let ghost idx = (x - 3) * 14 + (y - 3);
                proof {
                    assert(idx / 14 == x - 3 && idx % 14 == y - 3) by (nonlinear_arith)
                        requires
                            idx == (x - 3) * 14 + (y - 3),
                            0 <= y - 3 < 14,
                            0 <= x - 3,
                    ;
                    assert(start_cells().take(idx + 1).drop_last() =~= start_cells().take(idx));
                    assert(start_cells().take(idx + 1).last() == pos);
                    reveal(Seq::filter);
                }
                if !position_listed(&taken, pos) {
                    free.push(pos);
                    assert(free@[free@.len() - 1] == pos);
                }
                assert(free@ == start_cells().take(idx + 1).filter(unoccupied(self@.snakes)));
                assert forall|p: Position| prev.contains(p) implies free@.contains(p) by {
                    let k = choose|k: int| 0 <= k < prev.len() && prev[k] == p;
                    assert(free@[k] == p);
                }
                y = y + 1;
            }
            x = x + 1;
        }
        assert(start_cells().take(196) =~= start_cells());
        free
    }

    /// A start cell that no snake occupies, drawn at random; `None` when there is none.
    fn generate_safe_start_position(&self) -> (r: (Option<Position>, Ghost<(Seq<(Draw, Draw)>, Option<Draw>)>))
        requires
            self.wf(),
        ensures
            match r.0 {
                Some(p) => start_choice(self@.snakes, p, r.1@.0, r.1@.1),
                None => !free_start_cell(self@.snakes),
            },
    {
        let taken = self.get_all_snake_positions();
        let mut attempts: u32 = 0;
        let ghost mut tries: Seq<(Draw, Draw)> = Seq::empty();
        while attempts < MAX_START_ATTEMPTS
            invariant
                self.wf(),
                taken@ == cells(self@.snakes),
                tries.len() == attempts,
                attempts <= MAX_START_ATTEMPTS,
                forall|i: int|
                    0 <= i < tries.len() ==> drawn_from(
                        (#[trigger] tries[i]).0,
                        START_MARGIN as int,
                        MAP_WIDTH - START_MARGIN,
                    ) && drawn_from(tries[i].1, START_MARGIN as int, MAP_HEIGHT - START_MARGIN),
                forall|i: int| 0 <= i < tries.len() ==> occupies(self@.snakes, drawn_cell(#[trigger] tries[i])),
            decreases MAX_START_ATTEMPTS - attempts,
        {
            attempts = attempts + 1;
            let dx = random_in_range(START_MARGIN, self.map_width - START_MARGIN);
            let dy = random_in_range(START_MARGIN, self.map_height - START_MARGIN);
            let pos = Position { x: dx.value, y: dy.value };
            let ghost next = tries.push((dx, dy));
            proof {
                lemma_cells_occupied(self@.snakes, pos);
                assert forall|i: int| 0 <= i < tries.len() implies next[i] == tries[i] by {}
            }
            if !position_listed(&taken, pos) {
                proof {
                    assert(drawn_cell(next.last()) == pos);
                    assert(start_choice(self@.snakes, pos, next, None));
                }
                return (Some(pos), Ghost((next, None)));
            }
            proof {
                tries = next;
            }
        }
        let free = self.free_start_cells();
        if free.len() == 0 {
            proof {
                if free_start_cell(self@.snakes) {
                    let p = choose|p: Position| in_start_area(p) && !occupies(self@.snakes, p);
                    assert(free@.contains(p));
                }
            }
            (None, Ghost((tries, None)))
        } else {
            let pick = random_in_range(0, free.len() as i32);
            let k = pick.value;
            assert(start_choice(self@.snakes, free@[k as int], tries, Some(pick)));
            (Some(free[k as usize]), Ghost((tries, Some(pick))))
        }
    }

    /// Seats a new player: a fresh snake on a free start cell. Returns its id.
    pub fn add_player(&mut self) -> (id: usize)
        requires
            old(self).wf(),
            old(self)@.next_snake_id < usize::MAX,
            free_start_cell(old(self)@.snakes),
        ensures
            final(self).wf(),
            joined(old(self)@, final(self)@, id),
    {
        let snake_id = self.next_snake_id;
        self.next_snake_id = self.next_snake_id + 1;
        let (start, record) = self.generate_safe_start_position();
        let start_pos = start.unwrap();
        proof {
            lemma_start_choice(self@.snakes, start_pos, record@.0, record@.1);
        }
        let body = vec![
            start_pos,
            Position { x: start_pos.x - 1, y: start_pos.y },
            Position { x: start_pos.x - 2, y: start_pos.y },
        ];
        let ghost pre_snakes = self@.snakes;
        self.snakes.push(
            Snake { id: snake_id, body, direction: Direction::Right, alive: true, score: 0 },
        );
        proof {
            assert(body@ =~= start_body(start_pos));
            assert(self@.snakes =~= pre_snakes.push(fresh_snake(snake_id, start_pos)));
            let b = start_body(start_pos);
            assert(b.no_duplicates()) by {
                assert(b[0] != b[1] && b[0] != b[2] && b[1] != b[2]);
            }
            assert forall|i: int| 0 <= i < b.len() implies on_board(#[trigger] b[i]) by {}
            assert(snake_ok(fresh_snake(snake_id, start_pos)));
            let n = self@.snakes.len();
            assert forall|i: int| 0 <= i < n implies snake_ok(#[trigger] self@.snakes[i]) by {
                if i < n - 1 {
                    assert(self@.snakes[i] == pre_snakes[i]);
                }
            }
            assert forall|i: int, j: int| 0 <= i < n && 0 <= j < n && i != j implies self@.snakes[i].id
                != self@.snakes[j].id by {
                if i < n - 1 {
                    assert(self@.snakes[i] == pre_snakes[i]);
                }
                if j < n - 1 {
                    assert(self@.snakes[j] == pre_snakes[j]);
                }
            }
            assert forall|i: int| 0 <= i < n implies (#[trigger] self@.snakes[i]).id < self@.next_snake_id by {
                if i < n - 1 {
                    assert(self@.snakes[i] == pre_snakes[i]);
                }
            }
            assert forall|i: int|
                0 <= i < n && !self@.game_started implies (#[trigger] self@.snakes[i]).body.len() == 3 by {
                if i < n - 1 {
                    assert(self@.snakes[i] == pre_snakes[i]);
                }
            }
        }
        snake_id
    }
}

impl GameRoom {
    /// The index of the snake with id `id`.
    fn find_snake(&self, id: usize) -> (r: Option<usize>)
        ensures
            match r {
                Some(i) => i < self@.snakes.len() && self@.snakes[i as int].id == id,
                None => forall|j: int| 0 <= j < self@.snakes.len() ==> self@.snakes[j].id != id,
            },
    {
        let mut i: usize = 0;
        while i < self.snakes.len()
            invariant
                i <= self.snakes.len(),
                forall|j: int| 0 <= j < i ==> self@.snakes[j].id != id,
            decreases self.snakes.len() - i,
        {
            if self.snakes[i].id == id {
                return Some(i);
            }
            i = i + 1;
        }
        None
    }

    /// Marks player `snake_id` ready and starts the game once everyone required is ready.
    /// Returns whether the game started: see `ready_result`.
    pub fn player_ready(&mut self, snake_id: usize) -> (started: bool)
        requires
            old(self).wf(),
        ensures
            final(self).wf(),
            ready_result(old(self)@, final(self)@, snake_id, started),
    {
        self.ready_players.insert(snake_id);
        self.check_start_condition()
    }

    fn check_start_condition(&mut self) -> (started: bool)
        requires
            old(self).wf(),
        ensures
            final(self).wf(),
            started == (old(self)@.snakes.len() == old(self)@.required_players
                && old(self)@.ready_players.len() == old(self)@.required_players),
            started ==> refilled(old(self)@.foods, final(self)@.foods, cells(old(self)@.snakes), FOOD_TARGET as nat)
                && final(self)@ == (RoomView { game_started: true, foods: final(self)@.foods, ..old(self)@ }),
            !started ==> final(self)@ == old(self)@,
    {
        if self.snakes.len() == self.required_players && self.ready_players.len() == self.required_players {
            self.game_started = true;
            let ghost before = self@.foods;
            self.generate_foods();
            proof {
                lemma_refilled_foods_ok(before, self@.foods, cells(old(self)@.snakes), FOOD_TARGET as nat);
            }
            true
        } else {
            false
        }
    }

    /// Lays out food around the snakes until `FOOD_TARGET` pieces lie on the board.
    fn generate_foods(&mut self)
        requires
            old(self).wf(),
        ensures
            refilled(old(self)@.foods, final(self)@.foods, cells(old(self)@.snakes), FOOD_TARGET as nat),
            final(self)@ == (RoomView { foods: final(self)@.foods, ..old(self)@ }),
    {
        let snake_positions = self.get_all_snake_positions();
        self.generate_foods_with_positions(snake_positions, FOOD_TARGET);
    }

    /// Adds food at random cells off `snake_positions` while fewer than `required` pieces lie
    /// on the board, making at most `MAX_FOOD_ATTEMPTS` draws.
    fn generate_foods_with_positions(&mut self, snake_positions: Vec<Position>, required: usize)
        requires
            old(self).wf(),
        ensures
            refilled(old(self)@.foods, final(self)@.foods, snake_positions@, required as nat),
            final(self)@ == (RoomView { foods: final(self)@.foods, ..old(self)@ }),
    {
        let draws = refill_foods(&mut self.foods, &snake_positions, required, (self.map_width, self.map_height));
        assert(refill_run(old(self)@.foods, self.foods@, snake_positions@, required as nat, draws@));
    }

    /// Player `snake_id` asks its snake to head in `direction`: see `input_result`.
    pub fn handle_input(&mut self, snake_id: usize, direction: Direction)
        requires
            old(self).wf(),
        ensures
            final(self).wf(),
            input_result(old(self)@, final(self)@, snake_id, direction),
    {
        if !self.game_started || self.game_over {
            return;
        }
        let ghost pre = self@;
        let i = match self.find_snake(snake_id) {
            Some(k) => k,
            None => self.snakes.len(),
        };
        let ghost steer = |s: SnakeView| steered(s, snake_id, direction);
        if i == self.snakes.len() {
            assert(pre.snakes.map_values(steer) =~= pre.snakes);
            return;
        }
        assert(pre.snakes[i as int].id == snake_id);
        if !self.snakes[i].alive {
            assert forall|j: int| 0 <= j < pre.snakes.len() implies pre.snakes.map_values(steer)[j]
                == pre.snakes[j] by {
                if j != i {
                    assert(pre.snakes[j].id != snake_id);
                }
            }
            assert(pre.snakes.map_values(steer) =~= pre.snakes);
            return;
        }
        let can_change = !reverses(self.snakes[i].direction, direction);
        if can_change {
            self.snakes[i].direction = direction;
        }
        assert forall|j: int| 0 <= j < pre.snakes.len() implies pre.snakes.map_values(steer)[j]
            == self@.snakes[j] by {
            if j != i {
                assert(pre.snakes[j].id != snake_id);
                assert(self.snakes@[j] == old(self).snakes@[j]);
            }
        }
        assert(pre.snakes.map_values(steer) =~= self@.snakes);
    }

    /// Starts the room afresh: see `reset_result`. Each new head is drawn against the snakes
    /// as they stood before the reset.
    pub fn reset(&mut self)
        requires
            old(self).wf(),
            old(self)@.snakes.len() == 0 || free_start_cell(old(self)@.snakes),
        ensures
            final(self).wf(),
            reset_result(old(self)@, final(self)@),
    {
        let n = self.snakes.len();
        let mut new_positions: Vec<Position> = Vec::new();
        let mut i: usize = 0;
        while i < n
            invariant
                n == self.snakes.len(),
                self.wf(),
                n > 0 ==> free_start_cell(self@.snakes),
                i <= n,
                new_positions@.len() == i,
                forall|k: int| 0 <= k < i ==> in_start_area(#[trigger] new_positions@[k]) && !occupies(
                    self@.snakes,
                    new_positions@[k],
                ),
                forall|k: int| 0 <= k < i ==> chosen_start(self@.snakes, #[trigger] new_positions@[k]),
            decreases n - i,
        {
            let (start, record) = self.generate_safe_start_position();
            let start_pos = start.unwrap();
            proof {
                lemma_start_choice(self@.snakes, start_pos, record@.0, record@.1);
            }
            let ghost prev = new_positions@;
            new_positions.push(start_pos);
            proof {
                assert forall|k: int| 0 <= k < i + 1 implies chosen_start(self@.snakes, #[trigger] new_positions@[k]) by {
                    if k < i {
                        assert(new_positions@[k] == prev[k]);
                    } else {
                        assert(start_choice(self@.snakes, new_positions@[k], record@.0, record@.1));
                    }
                }
            }
            i = i + 1;
        }
        let ghost pre = self@;
        let mut new_snakes: Vec<Snake> = Vec::new();
        let mut j: usize = 0;
        while j < n
            invariant
                n == self.snakes.len(),
                self@ == pre,
                j <= n,
                new_positions@.len() == n,
                new_snakes@.len() == j,
                forall|k: int| 0 <= k < n ==> in_start_area(#[trigger] new_positions@[k]) && !occupies(
                    pre.snakes,
                    new_positions@[k],
                ),
                forall|k: int| 0 <= k < n ==> chosen_start(pre.snakes, #[trigger] new_positions@[k]),
                forall|k: int| 0 <= k < j ==> (#[trigger] new_snakes@[k])@ == fresh_snake(
                    pre.snakes[k].id,
                    new_positions@[k],
                ),
            decreases n - j,
        {
            let start_pos = new_positions[j];
            proof {
                assert(in_start_area(new_positions@[j as int]));
            }
            let body = vec![
                start_pos,
                Position { x: start_pos.x - 1, y: start_pos.y },
                Position { x: start_pos.x - 2, y: start_pos.y },
            ];
            assert(body@ =~= start_body(start_pos));
            let id = self.snakes[j].id;
            assert(id == pre.snakes[j as int].id);
            new_snakes.push(Snake { id, body, direction: Direction::Right, alive: true, score: 0 });
            j = j + 1;
        }
        self.snakes = new_snakes;
        self.foods.clear();
        self.game_started = false;
        self.game_over = false;
        self.ready_players.clear();
        proof {
            assert forall|k: int| 0 <= k < n implies snake_ok(#[trigger] self@.snakes[k]) by {
                let b = start_body(new_positions@[k]);
                assert(self@.snakes[k] == fresh_snake(pre.snakes[k].id, new_positions@[k]));
                assert(b[0] != b[1] && b[0] != b[2] && b[1] != b[2]);
                assert(b.no_duplicates());
                assert forall|q: int| 0 <= q < b.len() implies on_board(#[trigger] b[q]) by {}
            }
            assert forall|a: int, b: int| 0 <= a < n && 0 <= b < n && a != b implies self@.snakes[a].id
                != self@.snakes[b].id by {
                assert(self@.snakes[a] == fresh_snake(pre.snakes[a].id, new_positions@[a]));
                assert(self@.snakes[b] == fresh_snake(pre.snakes[b].id, new_positions@[b]));
            }
            assert forall|a: int| 0 <= a < n implies (#[trigger] self@.snakes[a]).id < self@.next_snake_id by {
                assert(self@.snakes[a] == fresh_snake(pre.snakes[a].id, new_positions@[a]));
            }
            assert forall|a: int| 0 <= a < n implies (#[trigger] self@.snakes[a]).body.len() == 3 by {
                assert(self@.snakes[a] == fresh_snake(pre.snakes[a].id, new_positions@[a]));
            }
            assert forall|a: int| 0 <= a < n implies {
                let p = (#[trigger] self@.snakes[a]).body[0];
                &&& self@.snakes[a] == fresh_snake(pre.snakes[a].id, p)
                &&& in_start_area(p)
                &&& !occupies(pre.snakes, p)
            } by {
                assert(self@.snakes[a] == fresh_snake(pre.snakes[a].id, new_positions@[a]));
                assert(in_start_area(new_positions@[a]));
            }
            assert(self@.foods =~= Seq::<Food>::empty());
        }
    }

    /// Removes player `snake_id`: see `removal_result`.
    pub fn remove_player(&mut self, snake_id: usize) -> (removed: Option<Snake>)
        requires
            old(self).wf(),
        ensures
            final(self).wf(),
            removal_result(
                old(self)@,
                final(self)@,
                snake_id,
                match removed {
                    Some(s) => Some(s@),
                    None => None,
                },
            ),
    {
        let ghost pre = self@;
        let i = match self.find_snake(snake_id) {
            Some(k) => k,
            None => self.snakes.len(),
        };
        let removed = if i < self.snakes.len() {
            let s = self.snakes.remove(i);
            assert(self@.snakes =~= pre.snakes.remove(i as int));
            assert(s@ == pre.snakes[i as int]);
            Some(s)
        } else {
            None
        };
        self.ready_players.remove(&snake_id);
        proof {
            if i < pre.snakes.len() {
                let n = self@.snakes.len();
                assert forall|a: int| 0 <= a < n implies snake_ok(#[trigger] self@.snakes[a]) && self@.snakes[a].id
                    < self@.next_snake_id && (!self@.game_started ==> self@.snakes[a].body.len() == 3) by {
                    if a < i {
                        assert(self@.snakes[a] == pre.snakes[a]);
                    } else {
                        assert(self@.snakes[a] == pre.snakes[a + 1]);
                    }
                }
                assert forall|a: int, b: int| 0 <= a < n && 0 <= b < n && a != b implies self@.snakes[a].id
                    != self@.snakes[b].id by {
                    let a2 = if a < i { a } else { a + 1 };
                    let b2 = if b < i { b } else { b + 1 };
                    assert(self@.snakes[a] == pre.snakes[a2]);
                    assert(self@.snakes[b] == pre.snakes[b2]);
                }
            }
        }
        removed
    }

    /// The state shown to the players of the room.
    pub fn get_state(&self) -> (r: GameState)
        ensures
            shows(r, self@),
    {
        let mut snakes: Vec<Snake> = Vec::new();
        let mut i: usize = 0;
        while i < self.snakes.len()
            invariant
                i <= self.snakes.len(),
                snakes@.len() == i,
                forall|k: int| 0 <= k < i ==> (#[trigger] snakes@[k])@ == self.snakes@[k]@,
            decreases self.snakes.len() - i,
        {
            snakes.push(copy_snake(&self.snakes[i]));
            i = i + 1;
        }
        assert(views(snakes@) =~= views(self.snakes@));
        let foods = self.foods.clone();
        assert(foods@ =~= self.foods@);
        GameState {
            room_id: self.room_id.clone(),
            snakes,
            foods,
            game_started: self.game_started,
            game_over: self.game_over,
        }
    }

    /// How many players the room holds, and how many it requires.
    pub fn get_matching_status(&self) -> (r: (usize, usize))
        ensures
            r.0 == self@.snakes.len(),
            r.1 == self@.required_players,
    {
        (self.snakes.len(), self.required_players)
    }

    /// The id of the room.
    pub fn room_id(&self) -> (r: &String)
        ensures
            r@ == self@.room_id,
    {
        &self.room_id
    }

    /// The id the room hands to its next player.
    pub fn next_snake_id(&self) -> (r: usize)
        ensures
            r == self@.next_snake_id,
    {
        self.next_snake_id
    }

    /// Whether the game of the room has started.
    pub fn game_started(&self) -> (r: bool)
        ensures
            r == self@.game_started,
    {
        self.game_started
    }

    /// Whether the game of the room is over.
    pub fn game_over(&self) -> (r: bool)
        ensures
            r == self@.game_over,
    {
        self.game_over
    }

    /// Whether a start cell that no snake occupies exists.
    pub fn has_free_start_cell(&self) -> (r: bool)
        requires
            self.wf(),
        ensures
            r == free_start_cell(self@.snakes),
    {
        let free = self.free_start_cells();
        proof {
            if free_start_cell(self@.snakes) {
                let p = choose|p: Position| in_start_area(p) && !occupies(self@.snakes, p);
                assert(free@.contains(p));
            }
            if free@.len() > 0 {
                assert(in_start_area(free@[0]) && !occupies(self@.snakes, free@[0]));
            }
        }
        free.len() > 0
    }
}

/// `state` shows `room`: its id, snakes, food and the course of its game.
pub open spec fn shows(state: GameState, room: RoomView) -> bool {
    &&& state.room_id@ == room.room_id
    &&& views(state.snakes@) == room.snakes
    &&& state.foods@ == room.foods
    &&& state.game_started == room.game_started
    &&& state.game_over == room.game_over
}

impl GameRoom {
    /// The players' ids with their scores, from the highest score down; equal scores keep the
    /// order in which the players joined.
    pub fn get_rankings(&self) -> (r: Vec<(usize, u32)>)
        ensures
            r@ == ranked(score_pairs(self@.snakes)),
    {
        let mut pairs: Vec<(usize, u32)> = Vec::new();
        let mut i: usize = 0;
        while i < self.snakes.len()
            invariant
                i <= self.snakes.len(),
                pairs@ == score_pairs(self@.snakes).take(i as int),
            decreases self.snakes.len() - i,
        {
            pairs.push((self.snakes[i].id, self.snakes[i].score));
            i = i + 1;
            assert(pairs@ =~= score_pairs(self@.snakes).take(i as int));
        }
        assert(score_pairs(self@.snakes).take(i as int) =~= score_pairs(self@.snakes));
        rank_by_score(&pairs)
    }
}

} // verus!
