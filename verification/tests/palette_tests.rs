use snake_game::palette::{darken_color, get_snake_color, is_readable_color};
use snake_game::controls::input_for_key;
use snake_game::types::{Direction, GameMessage, GameState};

#[test]
fn first_ten_ids_take_the_palette() {
    assert_eq!(get_snake_color(0), "#4CAF50");
    assert_eq!(get_snake_color(1), "#2196F3");
    assert_eq!(get_snake_color(5), "#00BCD4");
    assert_eq!(get_snake_color(9), "#795548");
}

#[test]
fn later_ids_take_the_colours_outside_the_palette() {
    assert_eq!(get_snake_color(10), "#000000");
    assert_eq!(get_snake_color(11), "#000001");
    // 0x00BCD4 is in the palette and is skipped
    assert_eq!(get_snake_color(10 + 0x00BCD3), "#00BCD3");
    assert_eq!(get_snake_color(10 + 0x00BCD4), "#00BCD5");
    assert_eq!(get_snake_color(0xFFFFFF), "#FFFFFF");
    assert_eq!(get_snake_color(0x1000000), "#000000");
}

#[test]
fn colours_do_not_repeat() {
    let mut seen = std::collections::HashSet::new();
    for id in 0..5000 {
        assert!(seen.insert(get_snake_color(id)), "id {} repeats a colour", id);
    }
    for id in 0..5000 {
        assert!(is_readable_color(&get_snake_color(id)));
    }
}

#[test]
fn darken_subtracts_thirty_per_channel() {
    assert_eq!(darken_color("#4CAF50".to_string()), "#2E9132");
    assert_eq!(darken_color("#2196F3".to_string()), "#0378D5");
}

#[test]
fn darken_stops_at_zero() {
    assert_eq!(darken_color("#000000".to_string()), "#000000");
    assert_eq!(darken_color("#1E1F10".to_string()), "#000100");
}

#[test]
fn darken_reads_lowercase_and_signs() {
    assert_eq!(darken_color("#ff00aa".to_string()), "#E1008C");
    assert_eq!(darken_color("#+F-1FF".to_string()), "#0000E1");
}

#[test]
fn readable_colors() {
    assert!(is_readable_color("#4CAF50"));
    assert!(is_readable_color("x4CAF50 and more"));
    assert!(!is_readable_color("#4CAF5"));
    assert!(!is_readable_color("#4CAG50"));
    assert!(!is_readable_color("é4CAF50"));
}

fn running_state(started: bool, over: bool) -> Option<GameState> {
    Some(GameState {
        room_id: "room_1".to_string(),
        snakes: vec![],
        foods: vec![],
        game_started: started,
        game_over: over,
    })
}

#[test]
fn arrow_keys_steer_while_running() {
    let s = running_state(true, false);
    assert_eq!(input_for_key(&s, "ArrowUp"), Some(GameMessage::PlayerInput(Direction::Up)));
    assert_eq!(input_for_key(&s, "ArrowDown"), Some(GameMessage::PlayerInput(Direction::Down)));
    assert_eq!(input_for_key(&s, "ArrowLeft"), Some(GameMessage::PlayerInput(Direction::Left)));
    assert_eq!(input_for_key(&s, "ArrowRight"), Some(GameMessage::PlayerInput(Direction::Right)));
    assert_eq!(input_for_key(&s, "a"), None);
}

#[test]
fn keys_ignored_when_not_running() {
    assert_eq!(input_for_key(&None, "ArrowUp"), None);
    assert_eq!(input_for_key(&running_state(false, false), "ArrowUp"), None);
    assert_eq!(input_for_key(&running_state(true, true), "ArrowUp"), None);
}
