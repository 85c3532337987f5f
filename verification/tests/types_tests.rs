use snake_game::types::{Direction, Food, GameMessage, GameState, Position, Snake};

fn snake(id: usize, cells: &[(i32, i32)]) -> Snake {
    Snake {
        id,
        body: cells.iter().map(|&(x, y)| Position { x, y }).collect(),
        direction: Direction::Right,
        alive: true,
        score: 0,
    }
}

#[test]
fn position_new_keeps_coordinates() {
    let p = Position::new(4, -2);
    assert_eq!(p, Position { x: 4, y: -2 });
}

#[test]
fn is_in_bounds_edges() {
    assert!(Position::new(0, 0).is_in_bounds(20));
    assert!(Position::new(19, 19).is_in_bounds(20));
    assert!(!Position::new(20, 5).is_in_bounds(20));
    assert!(!Position::new(5, 20).is_in_bounds(20));
    assert!(!Position::new(-1, 5).is_in_bounds(20));
    assert!(!Position::new(5, -1).is_in_bounds(20));
    assert!(!Position::new(0, 0).is_in_bounds(0));
}

#[test]
fn head_is_first_cell() {
    let s = snake(1, &[(5, 5), (4, 5), (3, 5)]);
    assert_eq!(s.head(), Some(&Position { x: 5, y: 5 }));
    let empty = snake(2, &[]);
    assert_eq!(empty.head(), None);
}

#[test]
fn hits_self_detects_head_on_body() {
    let straight = snake(1, &[(5, 5), (4, 5), (3, 5)]);
    assert!(!straight.hits_self());
    let looped = snake(1, &[(5, 5), (5, 6), (4, 6), (4, 5), (5, 5)]);
    assert!(looped.hits_self());
    let single = snake(1, &[(5, 5)]);
    assert!(!single.hits_self());
    let empty = snake(1, &[]);
    assert!(!empty.hits_self());
}

#[test]
fn hits_other_detects_head_on_other_body() {
    let a = snake(1, &[(5, 5), (4, 5)]);
    let b = snake(2, &[(6, 5), (5, 5), (5, 4)]);
    assert!(a.hits_other(&b));
    let c = snake(3, &[(9, 9)]);
    assert!(!a.hits_other(&c));
    let same_id = snake(1, &[(6, 5), (5, 5)]);
    assert!(!a.hits_other(&same_id));
    let empty = snake(4, &[]);
    assert!(!empty.hits_other(&b));
}

#[test]
fn clone_state_copies_everything() {
    let state = GameState {
        room_id: "room_7".to_string(),
        snakes: vec![snake(1, &[(5, 5), (4, 5), (3, 5)])],
        foods: vec![Food { position: Position { x: 1, y: 2 } }],
        game_started: true,
        game_over: false,
    };
    let copy = state.clone_state();
    assert_eq!(copy, state);
    let msg = GameMessage::GameState(copy);
    assert_eq!(msg, GameMessage::GameState(state));
}
