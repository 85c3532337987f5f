//! What holds of the game across operations and ticks.
use vstd::prelude::*;
use crate::types::{Direction, Food, Position, SnakeView};
use crate::rules::{
    advance_all, advance_snake, cells, food_at, food_index, foods_ok, fresh_snake, in_start_area,
    is_first_food, lemma_advance_all, lemma_start_choice, start_choice, Draw, lemma_advance_foods_ok, lemma_cells_cover, lemma_cells_occupied,
    lemma_refill_shape, occupies, on_board, opposite, snake_ok, stepped, FOOD_TARGET,
    lemma_body_fits_board, alive_count, MAP_HEIGHT, MAP_WIDTH, START_MARGIN, REQUIRED_PLAYERS,
};
use crate::room::{input_result, joined, ready_result, removal_result, reset_result, tick_result, RoomView};
use crate::manager::{join_result, leave_result, room_index, ManagerView};

verus! {

/// A snake never turns straight back: after any input every snake heads as before, or in a
/// direction that is not the opposite of where it headed.
pub proof fn law_no_reversal(pre: RoomView, post: RoomView, id: usize, d: Direction)
    requires
        input_result(pre, post, id, d),
    ensures
        post.snakes.len() == pre.snakes.len(),
        forall|i: int|
            0 <= i < post.snakes.len() ==> (#[trigger] post.snakes[i]).direction
                == pre.snakes[i].direction || !opposite(pre.snakes[i].direction, post.snakes[i].direction),
{
}

/// A game that is over, or that has not started, stands still under ticks.
pub proof fn law_over_is_final(pre: RoomView, post: RoomView)
    requires
        tick_result(pre, post),
        pre.game_over || !pre.game_started,
    ensures
        post == pre,
{
}

/// A dead snake neither moves nor comes back to life, and ticks keep every snake's id.
pub proof fn law_dead_snakes_stay(pre: RoomView, post: RoomView)
    requires
        pre.wf(),
        tick_result(pre, post),
    ensures
        post.snakes.len() == pre.snakes.len(),
        forall|i: int|
            0 <= i < pre.snakes.len() ==> {
                &&& (#[trigger] post.snakes[i]).id == pre.snakes[i].id
                &&& post.snakes[i].alive ==> pre.snakes[i].alive
                &&& !pre.snakes[i].alive ==> post.snakes[i] == pre.snakes[i]
            },
{
    if pre.running() {
        lemma_cells_cover(pre.snakes);
        lemma_advance_all(pre.snakes, cells(pre.snakes), pre.foods);
    }
}

/// In every room a snake's head never lies on another cell of its own body, its cells stay on
/// the board, and its score is the number of cells it has grown.
pub proof fn law_snakes_sound(room: RoomView)
    requires
        room.wf(),
    ensures
        forall|i: int|
            0 <= i < room.snakes.len() ==> {
                let b = (#[trigger] room.snakes[i]).body;
                &&& !b.subrange(1, b.len() as int).contains(b[0])
                &&& room.snakes[i].score + 3 == b.len()
            },
{
    assert forall|i: int| 0 <= i < room.snakes.len() implies {
        let b = (#[trigger] room.snakes[i]).body;
        &&& !b.subrange(1, b.len() as int).contains(b[0])
        &&& room.snakes[i].score + 3 == b.len()
    } by {
        let b = room.snakes[i].body;
        assert(snake_ok(room.snakes[i]));
        if b.subrange(1, b.len() as int).contains(b[0]) {
            let k = choose|k: int| 0 <= k < b.len() - 1 && b.subrange(1, b.len() as int)[k] == b[0];
            assert(b[k + 1] == b[0]);
        }
    }
}

/// In every room at most `FOOD_TARGET` pieces of food lie on distinct cells of the board, and
/// there is none before the game starts.
pub proof fn law_food_sound(room: RoomView)
    requires
        room.wf(),
    ensures
        forall|i: int| 0 <= i < room.foods.len() ==> on_board(#[trigger] room.foods[i].position),
        forall|i: int, j: int|
            0 <= i < room.foods.len() && 0 <= j < room.foods.len() && i != j ==> room.foods[i].position
                != room.foods[j].position,
        !room.game_started ==> room.foods.len() == 0,
        room.foods.len() <= FOOD_TARGET,
{
    assert(foods_ok(room.foods));
}

/// Every room of the manager holds at least one player and no more than it requires.
pub proof fn law_rooms_hold_players(m: ManagerView)
    requires
        m.wf(),
    ensures
        forall|i: int|
            0 <= i < m.rooms.len() ==> 1 <= (#[trigger] m.rooms[i]).snakes.len()
                <= m.rooms[i].required_players,
{
}

proof fn lemma_named(rooms: Seq<RoomView>, name: Seq<char>, k: int)
    requires
        0 <= k < rooms.len(),
        rooms[k].room_id == name,
        forall|i: int, j: int|
            0 <= i < rooms.len() && 0 <= j < rooms.len() && i != j ==> rooms[i].room_id
                != rooms[j].room_id,
    ensures
        room_index(rooms, name) == Some(k),
{
    let c = choose|c: int| 0 <= c < rooms.len() && (#[trigger] rooms[c]).room_id == name;
    assert(rooms[c].room_id == rooms[k].room_id);
}

/// A player that joins is seated: the room handed back exists, and its last snake is the
/// player's, fresh on a start cell.
pub proof fn law_joined_player_is_seated(pre: ManagerView, post: ManagerView, name: Seq<char>, id: usize)
    requires
        pre.wf(),
        post.wf(),
        join_result(pre, post, name, id),
    ensures
        room_index(post.rooms, name) is Some,
        ({
            let snakes = post.rooms[room_index(post.rooms, name)->0].snakes;
            &&& snakes.len() >= 1
            &&& snakes.last() == fresh_snake(id, snakes.last().body[0])
            &&& in_start_area(snakes.last().body[0])
        }),
{
    match crate::manager::first_joinable(pre.rooms) {
        Some(i) => {
            let (p, tries, pick) = choose|p: Position, tries: Seq<(Draw, Draw)>, pick: Option<Draw>|
                #![trigger start_choice(pre.rooms[i].snakes, p, tries, pick)]
                start_choice(pre.rooms[i].snakes, p, tries, pick) && post.rooms[i] == (RoomView {
                    snakes: pre.rooms[i].snakes.push(fresh_snake(id, p)),
                    next_snake_id: (pre.rooms[i].next_snake_id + 1) as usize,
                    ..pre.rooms[i]
                });
            lemma_start_choice(pre.rooms[i].snakes, p, tries, pick);
            lemma_named(post.rooms, name, i);
        },
        None => {
            let room = choose|room: RoomView|
                crate::room::joined(crate::manager::empty_room(name), room, id) && post.rooms
                    == pre.rooms.push(room);
            let e = crate::manager::empty_room(name);
            let (p, tries, pick) = choose|p: Position, tries: Seq<(Draw, Draw)>, pick: Option<Draw>|
                #![trigger start_choice(e.snakes, p, tries, pick)]
                start_choice(e.snakes, p, tries, pick) && room == (RoomView {
                    snakes: e.snakes.push(fresh_snake(id, p)),
                    next_snake_id: (e.next_snake_id + 1) as usize,
                    ..e
                });
            lemma_start_choice(e.snakes, p, tries, pick);
            lemma_named(post.rooms, name, pre.rooms.len() as int);
        },
    }
}

/// Seating a player never closes or replaces a room: every room stays in its place, with its
/// id and its snakes, and at most one room opens.
pub proof fn law_join_keeps_rooms(pre: ManagerView, post: ManagerView, name: Seq<char>, id: usize)
    requires
        join_result(pre, post, name, id),
    ensures
        pre.rooms.len() <= post.rooms.len() <= pre.rooms.len() + 1,
        forall|i: int|
            0 <= i < pre.rooms.len() ==> {
                &&& (#[trigger] post.rooms[i]).room_id == pre.rooms[i].room_id
                &&& post.rooms[i].snakes.len() >= pre.rooms[i].snakes.len()
                &&& forall|j: int|
                    0 <= j < pre.rooms[i].snakes.len() ==> post.rooms[i].snakes[j] == pre.rooms[i].snakes[j]
            },
{
    match crate::manager::first_joinable(pre.rooms) {
        Some(k) => {
            let (p, tries, pick) = choose|p: Position, tries: Seq<(Draw, Draw)>, pick: Option<Draw>|
                #![trigger start_choice(pre.rooms[k].snakes, p, tries, pick)]
                start_choice(pre.rooms[k].snakes, p, tries, pick) && post.rooms[k] == (RoomView {
                    snakes: pre.rooms[k].snakes.push(fresh_snake(id, p)),
                    next_snake_id: (pre.rooms[k].next_snake_id + 1) as usize,
                    ..pre.rooms[k]
                });
        },
        None => {
            let room = choose|room: RoomView|
                crate::room::joined(crate::manager::empty_room(name), room, id) && post.rooms
                    == pre.rooms.push(room);
        },
    }
}

/// A player that leaves is gone: if its room is still open, no snake there has its id.
pub proof fn law_left_player_is_gone(pre: ManagerView, post: ManagerView, name: Seq<char>, id: usize)
    requires
        pre.wf(),
        post.wf(),
        leave_result(pre, post, name, id),
    ensures
        match room_index(post.rooms, name) {
            Some(k) => forall|j: int|
                0 <= j < post.rooms[k].snakes.len() ==> (#[trigger] post.rooms[k].snakes[j]).id != id,
            None => true,
        },
{
    match room_index(pre.rooms, name) {
        Some(i) => {
            let (room, removed) = choose|room: RoomView, removed: Option<SnakeView>|
                #![trigger crate::room::removal_result(pre.rooms[i], room, id, removed)]
                crate::room::removal_result(pre.rooms[i], room, id, removed) && post == ManagerView {
                    rooms: if room.snakes.len() == 0 {
                        pre.rooms.remove(i)
                    } else {
                        pre.rooms.update(i, room)
                    },
                    ..pre
                };
            assert(pre.rooms[i].room_id == name);
            if room.snakes.len() == 0 {
                if room_index(post.rooms, name) is Some {
                    let k = room_index(post.rooms, name)->0;
                    let c = choose|c: int| 0 <= c < post.rooms.len() && (#[trigger] post.rooms[c]).room_id == name;
                    let c2 = if c < i { c } else { c + 1 };
                    assert(post.rooms[c] == pre.rooms[c2]);
                }
            } else {
                assert(room.room_id == name);
                lemma_named(post.rooms, name, i);
                let snakes = pre.rooms[i].snakes;
                assert(pre.rooms[i].wf());
                match removed {
                    Some(s) => {
                        let i0 = choose|i0: int|
                            0 <= i0 < snakes.len() && (#[trigger] snakes[i0]).id == id && s == snakes[i0]
                                && room.snakes == snakes.remove(i0);
                        assert forall|j: int| 0 <= j < room.snakes.len() implies (#[trigger] room.snakes[j]).id
                            != id by {
                            let j2 = if j < i0 { j } else { j + 1 };
                            assert(room.snakes[j] == snakes[j2]);
                        }
                    },
                    None => {},
                }
            }
        },
        None => {},
    }
}

proof fn lemma_advance_len(snakes: Seq<SnakeView>, occupied: Seq<Position>, foods: Seq<Food>)
    ensures
        advance_all(snakes, occupied, foods).0.len() == snakes.len(),
    decreases snakes.len(),
{
    if snakes.len() > 0 {
        lemma_advance_len(snakes.drop_last(), occupied, foods);
    }
}

proof fn lemma_first_food_exists(foods: Seq<Food>, p: Position, k: int)
    requires
        0 <= k < foods.len(),
        foods[k].position == p,
    ensures
        exists|i: int| is_first_food(foods, p, i),
    decreases k,
{
    if exists|j: int| 0 <= j < k && foods[j].position == p {
        let j = choose|j: int| 0 <= j < k && foods[j].position == p;
        lemma_first_food_exists(foods, p, j);
    } else {
        assert(is_first_food(foods, p, k));
    }
}

/// After a tick every piece of food left lay on the board before, and a piece that lies on a
/// snake's cell lay on that snake's cells before the tick.
proof fn lemma_advance_food_off(snakes: Seq<SnakeView>, occupied: Seq<Position>, foods: Seq<Food>)
    requires
        foods_ok(foods),
    ensures
        ({
            let (moved, left) = advance_all(snakes, occupied, foods);
            &&& forall|k: int| 0 <= k < left.len() ==> food_at(foods, #[trigger] left[k].position)
            &&& forall|i: int, j: int, k: int|
                0 <= i < moved.len() && 0 <= j < moved[i].body.len() && 0 <= k < left.len()
                    && #[trigger] moved[i].body[j] == #[trigger] left[k].position
                    ==> snakes[i].body.contains(moved[i].body[j])
        }),
    decreases snakes.len(),
{
    if snakes.len() > 0 {
        let init = snakes.drop_last();
        lemma_advance_len(init, occupied, foods);
        lemma_advance_food_off(init, occupied, foods);
        lemma_advance_foods_ok(init, occupied, foods);
        let (sp, fp) = advance_all(init, occupied, foods);
        let last = snakes.last();
        let (t, left) = advance_snake(last, occupied, fp);
        let moved = sp.push(t);
        assert(advance_all(snakes, occupied, foods) == (moved, left));
        // every piece left was in `fp`, at the same index or one further
        assert forall|k: int| 0 <= k < left.len() implies exists|k2: int|
            0 <= k2 < fp.len() && #[trigger] fp[k2] == #[trigger] left[k] by {
            if left == fp {
                assert(fp[k] == left[k]);
            } else {
                let nh = stepped(last.body[0], last.direction);
                let idx = food_index(fp, nh)->0;
                if k < idx {
                    assert(fp[k] == left[k]);
                } else {
                    assert(fp[k + 1] == left[k]);
                }
            }
        }
        assert forall|k: int| 0 <= k < left.len() implies food_at(foods, #[trigger] left[k].position) by {
            let k2 = choose|k2: int| 0 <= k2 < fp.len() && #[trigger] fp[k2] == left[k];
            assert(food_at(foods, fp[k2].position));
        }
        assert forall|i: int, j: int, k: int|
            0 <= i < moved.len() && 0 <= j < moved[i].body.len() && 0 <= k < left.len()
                && #[trigger] moved[i].body[j] == #[trigger] left[k].position implies snakes[i].body.contains(
            moved[i].body[j],
        ) by {
            let k2 = choose|k2: int| 0 <= k2 < fp.len() && #[trigger] fp[k2] == left[k];
            if i < moved.len() - 1 {
                assert(moved[i] == sp[i]);
                assert(init[i] == snakes[i]);
                assert(sp[i].body[j] == fp[k2].position);
            } else {
                assert(moved[i] == t);
                assert(snakes[i] == last);
                if !last.alive || t.body == last.body {
                    assert(last.body[j] == t.body[j]);
                } else {
                    let nh = stepped(last.body[0], last.direction);
                    if j == 0 {
                        assert(t.body[0] == nh);
                        match food_index(fp, nh) {
                            Some(idx) => {
                                let c = choose|c: int| is_first_food(fp, nh, c);
                                assert(fp[c].position == nh);
                                assert(left == fp.remove(c));
                                if k < c {
                                    assert(left[k] == fp[k]);
                                } else {
                                    assert(left[k] == fp[k + 1]);
                                }
                            },
                            None => {
                                assert(left == fp);
                                lemma_first_food_exists(fp, nh, k);
                            },
                        }
                    } else {
                        assert(t.body[j] == last.body[j - 1]);
                    }
                }
            }
        }
    }
}

/// Food never lies under a snake after a tick, if none did before.
pub proof fn law_food_off_snakes_after_tick(pre: RoomView, post: RoomView)
    requires
        pre.wf(),
        tick_result(pre, post),
        forall|k: int| 0 <= k < pre.foods.len() ==> !occupies(pre.snakes, #[trigger] pre.foods[k].position),
    ensures
        forall|k: int| 0 <= k < post.foods.len() ==> !occupies(post.snakes, #[trigger] post.foods[k].position),
{
    if pre.running() {
        let occ = cells(pre.snakes);
        lemma_advance_food_off(pre.snakes, occ, pre.foods);
        lemma_advance_len(pre.snakes, occ, pre.foods);
        lemma_advance_foods_ok(pre.snakes, occ, pre.foods);
        let (moved, left) = advance_all(pre.snakes, occ, pre.foods);
        lemma_refill_shape(left, post.foods, cells(moved), FOOD_TARGET as nat);
        assert forall|k: int| 0 <= k < post.foods.len() implies !occupies(
            post.snakes,
            #[trigger] post.foods[k].position,
        ) by {
            let q = post.foods[k].position;
            lemma_cells_occupied(moved, q);
            if k < left.len() {
                assert(post.foods.subrange(0, left.len() as int)[k] == post.foods[k]);
                assert(post.foods[k] == left[k]);
                if occupies(moved, q) {
                    let (i, j) = choose|i: int, j: int|
                        0 <= i < moved.len() && 0 <= j < moved[i].body.len() && #[trigger] moved[i].body[j] == q;
                    assert(pre.snakes[i].body.contains(q));
                    let j2 = choose|j2: int| 0 <= j2 < pre.snakes[i].body.len() && pre.snakes[i].body[j2] == q;
                    assert(pre.snakes[i].body[j2] == q);
                    assert(food_at(pre.foods, q));
                    let k2 = choose|k2: int| 0 <= k2 < pre.foods.len() && (#[trigger] pre.foods[k2]).position == q;
                    assert(!occupies(pre.snakes, pre.foods[k2].position));
                }
            }
        }
    }
}

/// Food never lies under a snake after a player is marked ready, if none did before.
pub proof fn law_food_off_snakes_after_ready(pre: RoomView, post: RoomView, id: usize, started: bool)
    requires
        ready_result(pre, post, id, started),
        forall|k: int| 0 <= k < pre.foods.len() ==> !occupies(pre.snakes, #[trigger] pre.foods[k].position),
    ensures
        forall|k: int| 0 <= k < post.foods.len() ==> !occupies(post.snakes, #[trigger] post.foods[k].position),
{
    if started {
        lemma_refill_shape(pre.foods, post.foods, cells(pre.snakes), FOOD_TARGET as nat);
        assert forall|k: int| 0 <= k < post.foods.len() implies !occupies(
            post.snakes,
            #[trigger] post.foods[k].position,
        ) by {
            lemma_cells_occupied(pre.snakes, post.foods[k].position);
            if k < pre.foods.len() {
                assert(post.foods.subrange(0, pre.foods.len() as int)[k] == post.foods[k]);
            }
        }
    }
}

/// The operations that change a room, each with the arguments it was given.
pub open spec fn room_step(pre: RoomView, post: RoomView) -> bool {
    ||| tick_result(pre, post)
    ||| exists|id: usize, d: Direction| input_result(pre, post, id, d)
    ||| exists|id: usize, started: bool| ready_result(pre, post, id, started)
    ||| reset_result(pre, post)
    ||| exists|id: usize, removed: Option<SnakeView>| removal_result(pre, post, id, removed)
    ||| exists|id: usize| joined(pre, post, id)
}

proof fn lemma_step_keeps_next_id(pre: RoomView, post: RoomView)
    requires
        room_step(pre, post),
    ensures
        pre.next_snake_id <= post.next_snake_id,
{
}

proof fn lemma_trace_next_id(trace: Seq<RoomView>, i: int, j: int)
    requires
        forall|k: int| 0 <= k < trace.len() - 1 ==> room_step(#[trigger] trace[k], trace[k + 1]),
        0 <= i <= j < trace.len(),
    ensures
        trace[i].next_snake_id <= trace[j].next_snake_id,
    decreases j - i,
{
    if i < j {
        lemma_trace_next_id(trace, i, j - 1);
        lemma_step_keeps_next_id(trace[j - 1], trace[j]);
    }
}

/// A joining player gets an id above every id in the room, and the room holds one snake more.
pub proof fn law_fresh_id(pre: RoomView, post: RoomView, id: usize)
    requires
        pre.wf(),
        joined(pre, post, id),
    ensures
        forall|i: int| 0 <= i < pre.snakes.len() ==> (#[trigger] pre.snakes[i]).id < id,
        post.next_snake_id == id + 1,
        post.snakes.len() == pre.snakes.len() + 1,
        post.snakes.last().id == id,
{
}

/// Snake ids are never reused: along any run of room operations, a player who joins later
/// gets a greater id than one who joined earlier, whoever left or was reset in between, and
/// each join adds exactly one snake.
pub proof fn law_ids_never_reused(trace: Seq<RoomView>, i: int, j: int, a: usize, b: usize)
    requires
        forall|k: int| 0 <= k < trace.len() - 1 ==> room_step(#[trigger] trace[k], trace[k + 1]),
        0 <= i < j,
        j + 1 < trace.len(),
        joined(trace[i], trace[i + 1], a),
        joined(trace[j], trace[j + 1], b),
    ensures
        a < b,
        trace[j + 1].snakes.len() == trace[j].snakes.len() + 1,
        trace[j + 1].snakes.last().id == b,
{
    lemma_trace_next_id(trace, i + 1, j);
}

/// An input turns only the live snake of the player, only while the game runs, and never
/// straight back: from `Up` not to `Down`, from `Down` not to `Up`, from `Left` not to `Right`
/// and from `Right` not to `Left`. Every other turn is taken, and no other snake changes.
pub proof fn law_input_turns(pre: RoomView, post: RoomView, id: usize, d: Direction)
    requires
        input_result(pre, post, id, d),
    ensures
        post.snakes.len() == pre.snakes.len(),
        forall|i: int|
            0 <= i < pre.snakes.len() ==> {
                let s = pre.snakes[i];
                let back = (s.direction == Direction::Up && d == Direction::Down)
                    || (s.direction == Direction::Down && d == Direction::Up)
                    || (s.direction == Direction::Left && d == Direction::Right)
                    || (s.direction == Direction::Right && d == Direction::Left);
                #[trigger] post.snakes[i] == if pre.game_started && !pre.game_over && s.id == id && s.alive
                    && !back {
                    SnakeView { direction: d, ..s }
                } else {
                    s
                }
            },
        post.foods == pre.foods,
        post.game_started == pre.game_started,
        post.game_over == pre.game_over,
{
}

/// A player is seated in the first room that waits for players (fewer snakes than it requires,
/// game not started); where none waits, in a room that did not exist before. So nobody is ever
/// seated in a room whose game has started or that is full.
pub proof fn law_join_waiting_room(pre: ManagerView, post: ManagerView, name: Seq<char>, id: usize)
    requires
        pre.wf(),
        join_result(pre, post, name, id),
    ensures
        forall|i: int|
            0 <= i < pre.rooms.len() && (#[trigger] pre.rooms[i]).room_id == name ==> {
                &&& !pre.rooms[i].game_started
                &&& pre.rooms[i].snakes.len() < pre.rooms[i].required_players
                &&& forall|j: int|
                    0 <= j < i ==> (#[trigger] pre.rooms[j]).game_started || pre.rooms[j].snakes.len()
                        >= pre.rooms[j].required_players
            },
        (exists|i: int|
            0 <= i < pre.rooms.len() && !(#[trigger] pre.rooms[i]).game_started && pre.rooms[i].snakes.len()
                < pre.rooms[i].required_players) ==> exists|i: int|
            0 <= i < pre.rooms.len() && (#[trigger] pre.rooms[i]).room_id == name,
{
    match crate::manager::first_joinable(pre.rooms) {
        Some(k) => {
            assert(crate::manager::is_first_joinable(pre.rooms, k));
            assert forall|i: int| 0 <= i < pre.rooms.len() && (#[trigger] pre.rooms[i]).room_id == name implies i
                == k by {
                if i != k {
                    assert(pre.rooms[i].room_id != pre.rooms[k].room_id);
                }
            }
            assert(pre.rooms[k].room_id == name);
        },
        None => {
            assert(name == crate::manager::room_name(pre.next_room_id));
            assert forall|i: int| 0 <= i < pre.rooms.len() implies (#[trigger] pre.rooms[i]).room_id != name by {
                assert(crate::manager::named_below(pre.rooms[i].room_id, pre.next_room_id));
                let n = choose|n: u32| n < pre.next_room_id && pre.rooms[i].room_id == #[trigger] crate::manager::room_name(n);
                if pre.rooms[i].room_id == name {
                    crate::manager::lemma_room_name_injective(n, pre.next_room_id);
                }
            }
            if exists|i: int|
                0 <= i < pre.rooms.len() && !(#[trigger] pre.rooms[i]).game_started && pre.rooms[i].snakes.len()
                    < pre.rooms[i].required_players {
                let i = choose|i: int|
                    0 <= i < pre.rooms.len() && !(#[trigger] pre.rooms[i]).game_started && pre.rooms[i].snakes.len()
                        < pre.rooms[i].required_players;
                lemma_some_first_joinable(pre.rooms, i);
            }
        },
    }
}

proof fn lemma_some_first_joinable(rooms: Seq<RoomView>, i: int)
    requires
        0 <= i < rooms.len(),
        crate::manager::joinable(rooms[i]),
    ensures
        exists|k: int| crate::manager::is_first_joinable(rooms, k),
    decreases i,
{
    if exists|j: int| 0 <= j < i && crate::manager::joinable(#[trigger] rooms[j]) {
        let j = choose|j: int| 0 <= j < i && crate::manager::joinable(#[trigger] rooms[j]);
        lemma_some_first_joinable(rooms, j);
    } else {
        assert(crate::manager::is_first_joinable(rooms, i));
    }
}

/// Snake `i` of a tick sees the food that the snakes before it left, and its step leaves the
/// food that the next snake sees.
proof fn lemma_advance_at(snakes: Seq<SnakeView>, occupied: Seq<Position>, foods: Seq<Food>, i: int)
    requires
        0 <= i < snakes.len(),
    ensures
        advance_all(snakes, occupied, foods).0.len() == snakes.len(),
        advance_all(snakes, occupied, foods).0[i] == advance_snake(
            snakes[i],
            occupied,
            advance_all(snakes.take(i), occupied, foods).1,
        ).0,
        advance_all(snakes.take(i + 1), occupied, foods).1 == advance_snake(
            snakes[i],
            occupied,
            advance_all(snakes.take(i), occupied, foods).1,
        ).1,
    decreases snakes.len(),
{
    let init = snakes.drop_last();
    lemma_advance_len(snakes, occupied, foods);
    if i == snakes.len() - 1 {
        assert(snakes.take(i) =~= init);
        assert(snakes.take(i + 1) =~= snakes);
    } else {
        lemma_advance_at(init, occupied, foods, i);
        assert(init.take(i) =~= snakes.take(i));
        assert(init.take(i + 1) =~= snakes.take(i + 1));
        assert(init[i] == snakes[i]);
    }
}

/// The snakes of a tick, taken up to `m`, move as the first `m` snakes of the whole tick.
proof fn lemma_advance_prefix(snakes: Seq<SnakeView>, occupied: Seq<Position>, foods: Seq<Food>, m: int, j: int)
    requires
        0 <= j < m <= snakes.len(),
    ensures
        advance_all(snakes.take(m), occupied, foods).0[j] == advance_all(snakes, occupied, foods).0[j],
{
    lemma_advance_at(snakes, occupied, foods, j);
    lemma_advance_at(snakes.take(m), occupied, foods, j);
    assert(snakes.take(m).take(j) =~= snakes.take(j));
    assert(snakes.take(m)[j] == snakes[j]);
}

/// A piece of food stays through a tick at a cell where no snake's head ends up.
proof fn lemma_food_stays(snakes: Seq<SnakeView>, occupied: Seq<Position>, foods: Seq<Food>, p: Position)
    requires
        food_at(foods, p),
        forall|j: int| 0 <= j < snakes.len() ==> (#[trigger] advance_all(snakes, occupied, foods).0[j]).body[0] != p,
    ensures
        food_at(advance_all(snakes, occupied, foods).1, p),
    decreases snakes.len(),
{
    if snakes.len() > 0 {
        let init = snakes.drop_last();
        let prev = advance_all(init, occupied, foods);
        let res = advance_all(snakes, occupied, foods);
        lemma_advance_len(init, occupied, foods);
        assert forall|j: int| 0 <= j < init.len() implies (#[trigger] advance_all(init, occupied, foods).0[j]).body[0]
            != p by {
            assert(res.0[j] == prev.0[j]);
        }
        lemma_food_stays(init, occupied, foods, p);
        let last = snakes.last();
        let t = advance_snake(last, occupied, prev.1);
        assert(res.0[snakes.len() - 1] == t.0);
        let m = choose|m: int| 0 <= m < prev.1.len() && (#[trigger] prev.1[m]).position == p;
        if t.1 != prev.1 {
            let nh = stepped(last.body[0], last.direction);
            let c = choose|c: int| is_first_food(prev.1, nh, c);
            assert(t.0.body[0] == nh);
            assert(t.1 == prev.1.remove(c));
            if m < c {
                assert(t.1[m] == prev.1[m]);
            } else {
                assert(m != c);
                assert(t.1[m - 1] == prev.1[m]);
            }
        }
    }
}

/// No food is left after a tick where none was before snake `m` stepped.
proof fn lemma_food_gone(snakes: Seq<SnakeView>, occupied: Seq<Position>, foods: Seq<Food>, m: int, p: Position)
    requires
        0 <= m <= snakes.len(),
        !food_at(advance_all(snakes.take(m), occupied, foods).1, p),
    ensures
        !food_at(advance_all(snakes, occupied, foods).1, p),
    decreases snakes.len(),
{
    if m == snakes.len() {
        assert(snakes.take(m) =~= snakes);
    } else {
        let init = snakes.drop_last();
        assert(init.take(m) =~= snakes.take(m));
        lemma_food_gone(init, occupied, foods, m, p);
        let prev = advance_all(init, occupied, foods);
        let last = snakes.last();
        let t = advance_snake(last, occupied, prev.1);
        if t.1 != prev.1 {
            let nh = stepped(last.body[0], last.direction);
            let c = choose|c: int| is_first_food(prev.1, nh, c);
            assert(t.1 == prev.1.remove(c));
            if food_at(t.1, p) {
                let k = choose|k: int| 0 <= k < t.1.len() && (#[trigger] t.1[k]).position == p;
                if k < c {
                    assert(t.1[k] == prev.1[k]);
                } else {
                    assert(t.1[k] == prev.1[k + 1]);
                }
            }
        }
    }
}

/// In a running game, a live snake's head moves one cell in its direction per tick: `Up` one
/// row toward row 0, `Down` one row away from it, `Left` one column toward column 0, `Right`
/// one column away from it. The snake dies where that cell lies off the board or on a cell
/// that any snake held before the tick, and then keeps its body and score. Otherwise its old
/// body follows the new head, either whole (it grew by one cell and scored a point) or without
/// its last cell (it kept its length and score).
pub proof fn law_tick_moves(pre: RoomView, post: RoomView, i: int)
    requires
        pre.wf(),
        tick_result(pre, post),
        pre.game_started && !pre.game_over,
        0 <= i < pre.snakes.len(),
        pre.snakes[i].alive,
    ensures
        post.snakes.len() == pre.snakes.len(),
        ({
            let s = pre.snakes[i];
            let t = post.snakes[i];
            let h = s.body[0];
            let (nx, ny) = match s.direction {
                Direction::Up => (h.x as int, h.y - 1),
                Direction::Down => (h.x as int, h.y + 1),
                Direction::Left => (h.x - 1, h.y as int),
                Direction::Right => (h.x + 1, h.y as int),
            };
            let blocked = !(0 <= nx < MAP_WIDTH && 0 <= ny < MAP_HEIGHT) || exists|j: int, k: int|
                0 <= j < pre.snakes.len() && 0 <= k < pre.snakes[j].body.len()
                    && (#[trigger] pre.snakes[j].body[k]).x == nx && pre.snakes[j].body[k].y == ny;
            &&& t.alive == !blocked
            &&& blocked ==> t == SnakeView { alive: false, ..s }
            &&& !blocked ==> {
                &&& t.body[0].x == nx && t.body[0].y == ny
                &&& t.id == s.id && t.direction == s.direction
                &&& (t.body == seq![t.body[0]] + s.body && t.score == s.score + 1) || (t.body == (seq![t.body[0]]
                    + s.body).drop_last() && t.score == s.score)
            }
        }),
{
    let occ = cells(pre.snakes);
    lemma_advance_at(pre.snakes, occ, pre.foods, i);
    let s = pre.snakes[i];
    let h = s.body[0];
    assert(snake_ok(s));
    assert(on_board(h));
    lemma_body_fits_board(s.body);
    let nh = stepped(h, s.direction);
    lemma_cells_occupied(pre.snakes, nh);
    let (nx, ny) = match s.direction {
        Direction::Up => (h.x as int, h.y - 1),
        Direction::Down => (h.x as int, h.y + 1),
        Direction::Left => (h.x - 1, h.y as int),
        Direction::Right => (h.x + 1, h.y as int),
    };
    assert(nh.x == nx && nh.y == ny);
    let hit = exists|j: int, k: int|
        0 <= j < pre.snakes.len() && 0 <= k < pre.snakes[j].body.len()
            && (#[trigger] pre.snakes[j].body[k]).x == nx && pre.snakes[j].body[k].y == ny;
    if hit {
        let (j, k) = choose|j: int, k: int|
            0 <= j < pre.snakes.len() && 0 <= k < pre.snakes[j].body.len()
                && (#[trigger] pre.snakes[j].body[k]).x == nx && pre.snakes[j].body[k].y == ny;
        assert(pre.snakes[j].body[k] == nh);
        assert(occupies(pre.snakes, nh));
    }
    if occupies(pre.snakes, nh) {
        let (j, k) = choose|j: int, k: int|
            0 <= j < pre.snakes.len() && 0 <= k < pre.snakes[j].body.len() && #[trigger] pre.snakes[j].body[k] == nh;
        assert(pre.snakes[j].body[k].x == nx && pre.snakes[j].body[k].y == ny);
    }
}

/// In a running game, a snake that moves on through a tick grows exactly when it eats: it
/// scores a point and its whole old body follows its new head when, and only when, a piece of
/// food lay on that cell before the tick; it always does so when such a piece lay there and no
/// snake before it in the room reached that cell first. After the tick no food lies on the
/// cell it reached.
pub proof fn law_tick_eats(pre: RoomView, post: RoomView, i: int)
    requires
        pre.wf(),
        tick_result(pre, post),
        pre.game_started && !pre.game_over,
        0 <= i < pre.snakes.len(),
        pre.snakes[i].alive,
        post.snakes[i].alive,
    ensures
        ({
            let s = pre.snakes[i];
            let t = post.snakes[i];
            let p = t.body[0];
            let food_there = exists|k: int| 0 <= k < pre.foods.len() && (#[trigger] pre.foods[k]).position == p;
            let first_there = forall|j: int| 0 <= j < i ==> (#[trigger] post.snakes[j]).body[0] != p;
            &&& t.score == s.score + 1 <==> t.body == seq![p] + s.body
            &&& t.score == s.score + 1 ==> food_there
            &&& food_there && first_there ==> t.score == s.score + 1 && t.body == seq![p] + s.body
            &&& forall|k: int| 0 <= k < post.foods.len() ==> (#[trigger] post.foods[k]).position != p
        }),
{
    let occ = cells(pre.snakes);
    lemma_advance_at(pre.snakes, occ, pre.foods, i);
    lemma_advance_len(pre.snakes, occ, pre.foods);
    lemma_cells_cover(pre.snakes);
    lemma_advance_all(pre.snakes, occ, pre.foods);
    let s = pre.snakes[i];
    let t = post.snakes[i];
    let (moved, left) = advance_all(pre.snakes, occ, pre.foods);
    assert(moved[i] == t);
    let before = pre.snakes.take(i);
    let fp = advance_all(before, occ, pre.foods).1;
    lemma_advance_food_off(before, occ, pre.foods);
    lemma_advance_foods_ok(before, occ, pre.foods);
    let nh = stepped(s.body[0], s.direction);
    assert(t.body[0] == nh);
    let p = nh;
    let food_there = exists|k: int| 0 <= k < pre.foods.len() && (#[trigger] pre.foods[k]).position == p;
    let first_there = forall|j: int| 0 <= j < i ==> (#[trigger] post.snakes[j]).body[0] != p;
    // which food snake `i` finds
    match food_index(fp, nh) {
        Some(c) => {
            let c = choose|c: int| is_first_food(fp, nh, c);
            assert(food_at(pre.foods, fp[c].position));
            assert(t.score == s.score + 1);
            assert(t.body.len() == s.body.len() + 1);
            // the piece it ate was the only one on that cell
            let after = fp.remove(c);
            assert(!food_at(after, p)) by {
                if food_at(after, p) {
                    let k = choose|k: int| 0 <= k < after.len() && (#[trigger] after[k]).position == p;
                    if k < c {
                        assert(after[k] == fp[k]);
                    } else {
                        assert(after[k] == fp[k + 1]);
                    }
                }
            }
        },
        None => {
            assert(t.score == s.score);
            assert(t.body.len() == s.body.len());
            if food_at(fp, p) {
                let k = choose|k: int| 0 <= k < fp.len() && (#[trigger] fp[k]).position == p;
                lemma_first_food_exists(fp, p, k);
            }
            if food_there && first_there {
                let k = choose|k: int| 0 <= k < pre.foods.len() && (#[trigger] pre.foods[k]).position == p;
                assert(food_at(pre.foods, p));
                assert forall|j: int| 0 <= j < before.len() implies (#[trigger] advance_all(
                    before,
                    occ,
                    pre.foods,
                ).0[j]).body[0] != p by {
                    lemma_advance_prefix(pre.snakes, occ, pre.foods, i, j);
                    assert(post.snakes[j].body[0] != p);
                }
                lemma_food_stays(before, occ, pre.foods, p);
            }
        },
    }
    assert(pre.snakes.take(i + 1).len() == i + 1);
    lemma_food_gone(pre.snakes, occ, pre.foods, i + 1, p);
    lemma_refill_shape(left, post.foods, cells(moved), FOOD_TARGET as nat);
    lemma_cells_cover(moved);
    assert(cells(moved).contains(moved[i].body[0]));
    assert forall|k: int| 0 <= k < post.foods.len() implies (#[trigger] post.foods[k]).position != p by {
        if k < left.len() {
            assert(post.foods.subrange(0, left.len() as int)[k] == post.foods[k]);
            if post.foods[k].position == p {
                assert(left[k].position == p);
            }
        }
    }
}

proof fn lemma_alive_count_one(snakes: Seq<SnakeView>)
    ensures
        alive_count(snakes) >= 1 <==> exists|a: int| 0 <= a < snakes.len() && (#[trigger] snakes[a]).alive,
    decreases snakes.len(),
{
    if snakes.len() > 0 {
        let init = snakes.drop_last();
        lemma_alive_count_one(init);
        if exists|a: int| 0 <= a < init.len() && (#[trigger] init[a]).alive {
            let a = choose|a: int| 0 <= a < init.len() && (#[trigger] init[a]).alive;
            assert(snakes[a] == init[a]);
        }
        if exists|a: int| 0 <= a < snakes.len() && (#[trigger] snakes[a]).alive {
            let a = choose|a: int| 0 <= a < snakes.len() && (#[trigger] snakes[a]).alive;
            if a < init.len() {
                assert(snakes[a] == init[a]);
            }
        }
    }
}

proof fn lemma_alive_count_two(snakes: Seq<SnakeView>)
    ensures
        alive_count(snakes) >= 2 <==> exists|a: int, b: int|
            0 <= a < b < snakes.len() && (#[trigger] snakes[a]).alive && (#[trigger] snakes[b]).alive,
    decreases snakes.len(),
{
    if snakes.len() > 0 {
        let init = snakes.drop_last();
        lemma_alive_count_two(init);
        lemma_alive_count_one(init);
        let n = snakes.len() - 1;
        if exists|a: int, b: int| 0 <= a < b < init.len() && (#[trigger] init[a]).alive && (#[trigger] init[b]).alive {
            let (a, b) = choose|a: int, b: int|
                0 <= a < b < init.len() && (#[trigger] init[a]).alive && (#[trigger] init[b]).alive;
            assert(snakes[a] == init[a] && snakes[b] == init[b]);
        }
        if snakes[n].alive && exists|a: int| 0 <= a < init.len() && (#[trigger] init[a]).alive {
            let a = choose|a: int| 0 <= a < init.len() && (#[trigger] init[a]).alive;
            assert(snakes[a] == init[a]);
            assert(snakes[a].alive && snakes[n].alive);
        }
        if exists|a: int, b: int| 0 <= a < b < snakes.len() && (#[trigger] snakes[a]).alive && (#[trigger] snakes[b]).alive {
            let (a, b) = choose|a: int, b: int|
                0 <= a < b < snakes.len() && (#[trigger] snakes[a]).alive && (#[trigger] snakes[b]).alive;
            assert(snakes[a] == init[a]);
            if b < n {
                assert(snakes[b] == init[b]);
            }
        }
    }
}

/// In a running game, a tick ends the game exactly when at most one snake is left alive.
pub proof fn law_tick_game_over(pre: RoomView, post: RoomView)
    requires
        tick_result(pre, post),
        pre.game_started && !pre.game_over,
    ensures
        post.game_over <==> !exists|a: int, b: int|
            0 <= a < b < post.snakes.len() && (#[trigger] post.snakes[a]).alive && (#[trigger] post.snakes[b]).alive,
{
    lemma_alive_count_two(post.snakes);
}

/// A player who joins gets a snake of three cells, alive and scoreless, heading `Right`, its
/// head inside the board's margin of `START_MARGIN` cells on a cell that no snake holds, and
/// its other two cells the two cells to the left of the head. Every snake already there stays
/// as it was.
pub proof fn law_join_fresh_snake(pre: RoomView, post: RoomView, id: usize)
    requires
        joined(pre, post, id),
    ensures
        post.snakes.len() == pre.snakes.len() + 1,
        forall|i: int| 0 <= i < pre.snakes.len() ==> #[trigger] post.snakes[i] == pre.snakes[i],
        ({
            let t = post.snakes.last();
            let h = t.body[0];
            &&& t.id == id && t.alive && t.score == 0 && t.direction == Direction::Right
            &&& t.body.len() == 3
            &&& t.body[1].x == h.x - 1 && t.body[1].y == h.y
            &&& t.body[2].x == h.x - 2 && t.body[2].y == h.y
            &&& START_MARGIN <= h.x < MAP_WIDTH - START_MARGIN
            &&& START_MARGIN <= h.y < MAP_HEIGHT - START_MARGIN
            &&& forall|j: int, k: int|
                0 <= j < pre.snakes.len() && 0 <= k < pre.snakes[j].body.len() ==> #[trigger] pre.snakes[j].body[k]
                    != h
        }),
{
    let (p, tries, pick) = choose|p: Position, tries: Seq<(Draw, Draw)>, pick: Option<Draw>|
        #![trigger start_choice(pre.snakes, p, tries, pick)]
        start_choice(pre.snakes, p, tries, pick) && post == (RoomView {
            snakes: pre.snakes.push(fresh_snake(id, p)),
            next_snake_id: (pre.next_snake_id + 1) as usize,
            ..pre
        });
    lemma_start_choice(pre.snakes, p, tries, pick);
    assert(post.snakes.last().body[0] == p);
}

/// A reset gives every player a snake of three cells, alive and scoreless, heading `Right`,
/// with the same id in the same place of the room; its head lies inside the board's margin on
/// a cell that no snake held before, and its other two cells are the two cells to the left of
/// the head.
pub proof fn law_reset_fresh_snakes(pre: RoomView, post: RoomView)
    requires
        reset_result(pre, post),
    ensures
        post.snakes.len() == pre.snakes.len(),
        forall|i: int|
            0 <= i < post.snakes.len() ==> {
                let t = #[trigger] post.snakes[i];
                let h = t.body[0];
                &&& t.id == pre.snakes[i].id && t.alive && t.score == 0 && t.direction == Direction::Right
                &&& t.body.len() == 3
                &&& t.body[1].x == h.x - 1 && t.body[1].y == h.y
                &&& t.body[2].x == h.x - 2 && t.body[2].y == h.y
                &&& START_MARGIN <= h.x < MAP_WIDTH - START_MARGIN
                &&& START_MARGIN <= h.y < MAP_HEIGHT - START_MARGIN
                &&& forall|j: int, k: int|
                    0 <= j < pre.snakes.len() && 0 <= k < pre.snakes[j].body.len() ==> #[trigger] pre.snakes[j].body[k]
                        != h
            },
        post.foods.len() == 0,
        !post.game_started && !post.game_over,
        post.ready_players.is_empty(),
{
    assert forall|i: int| 0 <= i < post.snakes.len() implies {
        let t = #[trigger] post.snakes[i];
        let h = t.body[0];
        forall|j: int, k: int|
            0 <= j < pre.snakes.len() && 0 <= k < pre.snakes[j].body.len() ==> #[trigger] pre.snakes[j].body[k] != h
    } by {
        let h = post.snakes[i].body[0];
        assert(!occupies(pre.snakes, h));
    }
}

/// A room closes exactly when its last player leaves: after a player leaves room `name`, a
/// room of that name is still open if, and only if, it held a player with another id. The
/// other rooms stay open.
pub proof fn law_leave_closes_empty_room(pre: ManagerView, post: ManagerView, name: Seq<char>, id: usize)
    requires
        pre.wf(),
        leave_result(pre, post, name, id),
    ensures
        forall|i: int|
            0 <= i < pre.rooms.len() && (#[trigger] pre.rooms[i]).room_id == name ==> ((exists|j: int|
                0 <= j < pre.rooms[i].snakes.len() && (#[trigger] pre.rooms[i].snakes[j]).id != id) <==> exists|k: int|
                0 <= k < post.rooms.len() && (#[trigger] post.rooms[k]).room_id == name),
        forall|i: int|
            0 <= i < pre.rooms.len() && (#[trigger] pre.rooms[i]).room_id != name ==> exists|k: int|
                0 <= k < post.rooms.len() && (#[trigger] post.rooms[k]) == pre.rooms[i],
{
    match room_index(pre.rooms, name) {
        Some(i) => {
            let (room, removed) = choose|room: RoomView, removed: Option<SnakeView>|
                #![trigger crate::room::removal_result(pre.rooms[i], room, id, removed)]
                crate::room::removal_result(pre.rooms[i], room, id, removed) && post == ManagerView {
                    rooms: if room.snakes.len() == 0 {
                        pre.rooms.remove(i)
                    } else {
                        pre.rooms.update(i, room)
                    },
                    ..pre
                };
            let snakes = pre.rooms[i].snakes;
            assert(pre.rooms[i].wf());
            let other = exists|j: int| 0 <= j < snakes.len() && (#[trigger] snakes[j]).id != id;
            match removed {
                Some(s) => {
                    let i0 = choose|i0: int|
                        0 <= i0 < snakes.len() && (#[trigger] snakes[i0]).id == id && s == snakes[i0]
                            && room.snakes == snakes.remove(i0);
                    if other {
                        let j = choose|j: int| 0 <= j < snakes.len() && (#[trigger] snakes[j]).id != id;
                        assert(j != i0);
                        assert(room.snakes.len() == snakes.len() - 1);
                    }
                    if room.snakes.len() > 0 {
                        let j = if i0 == 0 { 1int } else { 0int };
                        assert(snakes[j].id != snakes[i0].id);
                    }
                },
                None => {
                    assert(snakes[0].id != id);
                },
            }
            assert forall|a: int| 0 <= a < pre.rooms.len() && (#[trigger] pre.rooms[a]).room_id == name implies a == i by {
                if a != i {
                    assert(pre.rooms[a].room_id != pre.rooms[i].room_id);
                }
            }
            if room.snakes.len() == 0 {
                assert forall|k: int| 0 <= k < post.rooms.len() implies (#[trigger] post.rooms[k]).room_id != name by {
                    let k2 = if k < i { k } else { k + 1 };
                    assert(post.rooms[k] == pre.rooms[k2]);
                }
                assert forall|a: int| 0 <= a < pre.rooms.len() && (#[trigger] pre.rooms[a]).room_id != name implies exists|k: int|
                    0 <= k < post.rooms.len() && (#[trigger] post.rooms[k]) == pre.rooms[a] by {
                    let k = if a < i { a } else { a - 1 };
                    assert(post.rooms[k] == pre.rooms[a]);
                }
            } else {
                assert(post.rooms[i].room_id == name);
                assert forall|a: int| 0 <= a < pre.rooms.len() && (#[trigger] pre.rooms[a]).room_id != name implies exists|k: int|
                    0 <= k < post.rooms.len() && (#[trigger] post.rooms[k]) == pre.rooms[a] by {
                    assert(post.rooms[a] == pre.rooms[a]);
                }
            }
        },
        None => {
            assert forall|a: int| 0 <= a < pre.rooms.len() && (#[trigger] pre.rooms[a]).room_id != name implies exists|k: int|
                0 <= k < post.rooms.len() && (#[trigger] post.rooms[k]) == pre.rooms[a] by {
                assert(post.rooms[a] == pre.rooms[a]);
            }
        },
    }
}

/// Marking a player ready starts the game exactly when, with that player counted, the room
/// holds `REQUIRED_PLAYERS` snakes and `REQUIRED_PLAYERS` ready players; the player is ready
/// afterwards either way, and a game that starts starts with no snake moved.
pub proof fn law_ready_starts_when_all_ready(pre: RoomView, post: RoomView, id: usize, started: bool)
    requires
        pre.wf(),
        ready_result(pre, post, id, started),
    ensures
        post.ready_players.contains(id),
        post.ready_players == pre.ready_players.insert(id),
        started <==> (pre.snakes.len() == REQUIRED_PLAYERS && post.ready_players.len() == REQUIRED_PLAYERS),
        started ==> post.game_started,
        !started ==> post.game_started == pre.game_started,
        post.snakes == pre.snakes,
{
}

} // verus!
