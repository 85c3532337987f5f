use snake_game::ranking::rank_by_score;
use snake_game::room::{place_food, GameRoom};
use snake_game::types::Food;
use snake_game::types::{Direction, Position, Snake};

fn on_board(p: &Position) -> bool {
    p.x >= 0 && p.x < 20 && p.y >= 0 && p.y < 20
}

fn in_start_area(p: &Position) -> bool {
    p.x >= 3 && p.x < 17 && p.y >= 3 && p.y < 17
}

fn fresh_ok(s: &Snake) {
    let h = s.body[0];
    assert!(in_start_area(&h));
    assert_eq!(s.body, vec![h, Position { x: h.x - 1, y: h.y }, Position { x: h.x - 2, y: h.y }]);
    assert_eq!(s.direction, Direction::Right);
    assert!(s.alive);
    assert_eq!(s.score, 0);
}

fn started_room() -> GameRoom {
    let mut room = GameRoom::new("room_1".to_string());
    assert_eq!(room.add_player(), 1);
    assert_eq!(room.add_player(), 2);
    assert!(!room.player_ready(1));
    assert!(room.player_ready(2));
    room
}

#[test]
fn new_room_is_empty() {
    let room = GameRoom::new("room_9".to_string());
    let state = room.get_state();
    assert_eq!(state.room_id, "room_9");
    assert!(state.snakes.is_empty());
    assert!(state.foods.is_empty());
    assert!(!state.game_started);
    assert!(!state.game_over);
    assert_eq!(room.get_matching_status(), (0, 2));
}

#[test]
fn added_players_get_fresh_snakes_on_free_cells() {
    let mut room = GameRoom::new("r".to_string());
    assert_eq!(room.add_player(), 1);
    assert_eq!(room.add_player(), 2);
    let state = room.get_state();
    assert_eq!(state.snakes.len(), 2);
    assert_eq!(state.snakes[0].id, 1);
    assert_eq!(state.snakes[1].id, 2);
    for s in &state.snakes {
        fresh_ok(s);
    }
    assert!(!state.snakes[0].body.contains(&state.snakes[1].body[0]));
    assert_eq!(room.get_matching_status(), (2, 2));
}

#[test]
fn game_starts_when_all_ready_and_lays_three_foods() {
    let room = started_room();
    let state = room.get_state();
    assert!(state.game_started);
    assert!(!state.game_over);
    assert_eq!(state.foods.len(), 3);
    for (i, f) in state.foods.iter().enumerate() {
        assert!(on_board(&f.position));
        assert!(!state.snakes.iter().any(|s| s.body.contains(&f.position)));
        assert!(!state.foods[..i].iter().any(|g| g.position == f.position));
    }
}

#[test]
fn ready_alone_does_not_start() {
    let mut room = GameRoom::new("r".to_string());
    room.add_player();
    assert!(!room.player_ready(1));
    assert!(!room.get_state().game_started);
    room.add_player();
    assert!(!room.player_ready(1));
    assert!(room.player_ready(2));
}

#[test]
fn input_ignored_before_start() {
    let mut room = GameRoom::new("r".to_string());
    room.add_player();
    room.handle_input(1, Direction::Up);
    assert_eq!(room.get_state().snakes[0].direction, Direction::Right);
}

#[test]
fn input_turns_but_never_reverses() {
    let mut room = started_room();
    room.handle_input(1, Direction::Left);
    assert_eq!(room.get_state().snakes[0].direction, Direction::Right);
    room.handle_input(1, Direction::Up);
    assert_eq!(room.get_state().snakes[0].direction, Direction::Up);
    room.handle_input(1, Direction::Down);
    assert_eq!(room.get_state().snakes[0].direction, Direction::Up);
    assert_eq!(room.get_state().snakes[1].direction, Direction::Right);
    room.handle_input(99, Direction::Up);
    assert_eq!(room.get_state().snakes[1].direction, Direction::Right);
}

#[test]
fn update_moves_each_snake_one_cell() {
    let mut room = started_room();
    let before = room.get_state();
    room.update();
    let after = room.get_state();
    for (b, a) in before.snakes.iter().zip(after.snakes.iter()) {
        assert_eq!(a.id, b.id);
        if a.alive {
            let h = b.body[0];
            assert_eq!(a.body[0], Position { x: h.x + 1, y: h.y });
            assert_eq!(a.score as usize + 3, a.body.len());
            assert_eq!(&a.body[1..], &b.body[..a.body.len() - 1]);
        } else {
            assert_eq!(a.body, b.body);
        }
    }
    assert!(after.foods.len() <= 3);
}

#[test]
fn update_does_nothing_before_start() {
    let mut room = GameRoom::new("r".to_string());
    room.add_player();
    let before = room.get_state();
    room.update();
    assert_eq!(room.get_state(), before);
}

#[test]
fn game_ends_when_one_snake_is_left() {
    let mut room = started_room();
    let mut ticks = 0;
    while !room.get_state().game_over && ticks < 100 {
        room.update();
        ticks += 1;
    }
    let state = room.get_state();
    assert!(state.game_over);
    assert!(state.snakes.iter().filter(|s| s.alive).count() <= 1);
    let frozen = room.get_state();
    room.update();
    assert_eq!(room.get_state(), frozen);
    for s in &state.snakes {
        assert!(!s.hits_self());
        assert!(s.body.iter().all(on_board));
        assert_eq!(s.score as usize + 3, s.body.len());
    }
}

#[test]
fn rankings_sort_by_score_keeping_ties_in_order() {
    let entries = vec![(1, 2), (2, 5), (3, 2), (4, 7)];
    assert_eq!(rank_by_score(&entries), vec![(4, 7), (2, 5), (1, 2), (3, 2)]);
    assert_eq!(rank_by_score(&vec![]), vec![]);
}

#[test]
fn room_rankings_list_every_player() {
    let room = started_room();
    assert_eq!(room.get_rankings(), vec![(1, 0), (2, 0)]);
}

#[test]
fn reset_starts_afresh() {
    let mut room = started_room();
    for _ in 0..100 {
        room.update();
    }
    room.reset();
    let state = room.get_state();
    assert!(!state.game_started);
    assert!(!state.game_over);
    assert!(state.foods.is_empty());
    assert_eq!(state.snakes.len(), 2);
    assert_eq!(state.snakes[0].id, 1);
    assert_eq!(state.snakes[1].id, 2);
    for s in &state.snakes {
        fresh_ok(s);
    }
    assert!(!room.player_ready(1));
    assert!(room.player_ready(2));
}

#[test]
fn remove_player_hands_back_its_snake() {
    let mut room = GameRoom::new("r".to_string());
    room.add_player();
    room.add_player();
    room.player_ready(2);
    let removed = room.remove_player(2).expect("snake 2 is seated");
    assert_eq!(removed.id, 2);
    assert_eq!(room.get_matching_status(), (1, 2));
    assert!(room.remove_player(2).is_none());
    room.add_player();
    assert!(!room.player_ready(1));
    assert!(room.player_ready(3));
}

#[test]
fn free_start_cell_in_small_room() {
    let mut room = GameRoom::new("r".to_string());
    assert!(room.has_free_start_cell());
    room.add_player();
    assert!(room.has_free_start_cell());
}

#[test]
fn place_food_only_on_free_cells() {
    let occupied = vec![Position { x: 1, y: 1 }];
    let mut foods = vec![Food { position: Position { x: 2, y: 2 } }];
    place_food(&mut foods, &occupied, Position { x: 1, y: 1 });
    assert_eq!(foods.len(), 1);
    place_food(&mut foods, &occupied, Position { x: 2, y: 2 });
    assert_eq!(foods.len(), 1);
    place_food(&mut foods, &occupied, Position { x: 3, y: 2 });
    assert_eq!(foods, vec![Food { position: Position { x: 2, y: 2 } }, Food { position: Position { x: 3, y: 2 } }]);
}

#[test]
fn ids_are_never_reused() {
    let mut room = GameRoom::new("r".to_string());
    assert_eq!(room.add_player(), 1);
    assert_eq!(room.add_player(), 2);
    room.remove_player(2);
    room.remove_player(1);
    assert_eq!(room.add_player(), 3);
    room.reset();
    assert_eq!(room.add_player(), 4);
}

#[test]
fn bodies_stay_chained_and_food_off_snakes() {
    let mut room = started_room();
    for _ in 0..30 {
        let state = room.get_state();
        for s in &state.snakes {
            for w in s.body.windows(2) {
                assert_eq!((w[0].x - w[1].x).abs() + (w[0].y - w[1].y).abs(), 1);
            }
            for f in &state.foods {
                assert!(!s.body.contains(&f.position));
            }
        }
        room.update();
    }
}

#[test]
fn cloned_room_matches_and_is_independent() {
    let room = started_room();
    let mut copy = room.clone();
    let (a, b) = (room.get_state(), copy.get_state());
    assert_eq!(a.room_id, b.room_id);
    assert_eq!(a.snakes, b.snakes);
    assert_eq!(a.foods, b.foods);
    assert_eq!(a.game_started, b.game_started);
    assert_eq!(room.get_matching_status(), copy.get_matching_status());
    copy.update();
    assert_eq!(room.get_state().snakes, a.snakes);
    assert_ne!(copy.get_state().snakes, a.snakes);
}

#[test]
fn draws_reach_the_whole_board() {
    let (mut far_food_x, mut far_food_y) = (false, false);
    let (mut start_x, mut start_y) = (std::collections::HashSet::new(), std::collections::HashSet::new());
    for _ in 0..60 {
        let room = started_room();
        let state = room.get_state();
        for f in &state.foods {
            far_food_x |= f.position.x >= 10;
            far_food_y |= f.position.y >= 10;
        }
        for s in &state.snakes {
            start_x.insert(s.body[0].x);
            start_y.insert(s.body[0].y);
        }
    }
    assert!(far_food_x && far_food_y);
    assert!(start_x.len() > 1 && start_y.len() > 1);
}

#[test]
fn each_join_adds_one_snake() {
    let mut room = GameRoom::new("r".to_string());
    for k in 1..=3usize {
        let id = room.add_player();
        assert_eq!(id, k);
        assert_eq!(room.get_state().snakes.len(), k);
        assert_eq!(room.get_state().snakes[k - 1].id, id);
    }
}
