use snake_game::manager::GameManager;
use snake_game::types::{Direction, GameMessage};

#[test]
fn players_fill_rooms_two_by_two() {
    let mut m = GameManager::new();
    assert!(m.has_capacity());
    assert_eq!(m.join_or_create_room(), ("room_1".to_string(), 1));
    assert_eq!(m.join_or_create_room(), ("room_1".to_string(), 2));
    assert_eq!(m.join_or_create_room(), ("room_2".to_string(), 1));
    assert_eq!(m.get_matching_status("room_1"), Some((2, 2)));
    assert_eq!(m.get_matching_status("room_2"), Some((1, 2)));
    assert_eq!(m.get_matching_status("room_3"), None);
}

#[test]
fn unknown_room_requests_do_nothing() {
    let mut m = GameManager::default();
    assert!(!m.player_ready("nowhere", 1));
    m.handle_input("nowhere", 1, Direction::Up);
    m.reset_room("nowhere");
    m.leave_room("nowhere", 1);
    assert!(m.get_room_state("nowhere").is_none());
    assert!(m.get_rankings("nowhere").is_none());
    assert!(m.update_all_rooms().is_empty());
}

#[test]
fn ready_players_start_the_game() {
    let mut m = GameManager::new();
    m.join_or_create_room();
    m.join_or_create_room();
    assert!(!m.player_ready("room_1", 1));
    assert!(m.player_ready("room_1", 2));
    let state = m.get_room_state("room_1").unwrap();
    assert!(state.game_started);
    assert_eq!(state.foods.len(), 3);
    assert_eq!(m.join_or_create_room(), ("room_2".to_string(), 1));
}

#[test]
fn update_all_rooms_reports_each_room() {
    let mut m = GameManager::new();
    m.join_or_create_room();
    m.join_or_create_room();
    m.join_or_create_room();
    m.handle_input("room_1", 1, Direction::Up);
    let states = m.update_all_rooms();
    assert_eq!(states.len(), 2);
    assert_eq!(states[0].0, "room_1");
    assert_eq!(states[1].0, "room_2");
    assert_eq!(states[0].1.room_id, "room_1");
    assert!(!states[0].1.game_started);
}

#[test]
fn leaving_empties_and_closes_rooms() {
    let mut m = GameManager::new();
    m.join_or_create_room();
    m.join_or_create_room();
    m.leave_room("room_1", 1);
    assert_eq!(m.get_matching_status("room_1"), Some((1, 2)));
    let state = m.get_room_state("room_1").unwrap();
    assert!(state.snakes.iter().all(|s| s.id != 1));
    m.leave_room("room_1", 1);
    assert_eq!(m.get_matching_status("room_1"), Some((1, 2)));
    assert_eq!(m.join_or_create_room(), ("room_1".to_string(), 3));
    m.leave_room("room_1", 3);
    m.leave_room("room_1", 2);
    assert!(m.get_room_state("room_1").is_none());
    assert_eq!(m.join_or_create_room(), ("room_2".to_string(), 1));
}

#[test]
fn ready_after_game_over_resets_the_room() {
    let mut m = GameManager::new();
    m.join_or_create_room();
    m.join_or_create_room();
    assert_eq!(m.handle_ready("room_1", 1), (false, Some((2, 2))));
    assert_eq!(m.handle_ready("room_1", 2), (true, Some((2, 2))));
    for _ in 0..100 {
        m.update_all_rooms();
    }
    assert!(m.get_room_state("room_1").unwrap().game_over);
    assert_eq!(m.handle_ready("room_1", 1), (false, Some((2, 2))));
    let state = m.get_room_state("room_1").unwrap();
    assert!(!state.game_started);
    assert!(!state.game_over);
    assert!(state.foods.is_empty());
    assert!(state.snakes.iter().all(|s| s.alive && s.score == 0 && s.body.len() == 3));
    assert_eq!(m.handle_ready("nowhere", 1), (false, None));
}

#[test]
fn tick_broadcasts_rankings_once_over() {
    let mut m = GameManager::new();
    m.join_or_create_room();
    m.join_or_create_room();
    m.player_ready("room_1", 1);
    m.player_ready("room_1", 2);
    let mut last = Vec::new();
    for _ in 0..100 {
        last = m.broadcasts_for_tick();
    }
    assert_eq!(last.len(), 1);
    assert_eq!(last[0].0, "room_1");
    let msgs = &last[0].1;
    assert_eq!(msgs.len(), 2);
    match &msgs[0] {
        GameMessage::GameState(s) => assert!(s.game_over),
        other => panic!("unexpected {:?}", other),
    }
    match &msgs[1] {
        GameMessage::GameOver { rankings } => {
            assert_eq!(rankings, &m.get_rankings("room_1").unwrap());
            assert!(rankings.windows(2).all(|w| w[0].1 >= w[1].1));
        }
        other => panic!("unexpected {:?}", other),
    }
}

#[test]
fn waiting_room_broadcasts_state_only() {
    let mut m = GameManager::new();
    m.join_or_create_room();
    let msgs = m.broadcasts_for_tick();
    assert_eq!(msgs.len(), 1);
    assert_eq!(msgs[0].1.len(), 1);
}
