use rummikub::structures::{Board, Color, Group, Player, Run, Tile};

#[test]
fn color_from_str_lowercase() {
    assert_eq!(Color::from_str("blue"), Some(Color::Blue));
    assert_eq!(Color::from_str("red"), Some(Color::Red));
    assert_eq!(Color::from_str("orange"), Some(Color::Orange));
    assert_eq!(Color::from_str("black"), Some(Color::Black));
}

#[test]
fn color_from_str_mixed_case() {
    assert_eq!(Color::from_str("Blue"), Some(Color::Blue));
    assert_eq!(Color::from_str("BLACK"), Some(Color::Black));
    assert_eq!(Color::from_str("oRaNgE"), Some(Color::Orange));
}

#[test]
fn color_from_str_rejects_unknown_names() {
    assert_eq!(Color::from_str("yellow"), None);
    assert_eq!(Color::from_str("green"), None);
    assert_eq!(Color::from_str(""), None);
    assert_eq!(Color::from_str("blu"), None);
}

#[test]
fn group_valid_distinct_colors() {
    let group = Group { value: 10, colors: vec![Color::Blue, Color::Red, Color::Black] };
    assert!(group.valid());
}

#[test]
fn group_invalid_duplicate_color() {
    let group = Group { value: 4, colors: vec![Color::Blue, Color::Red, Color::Blue] };
    assert!(!group.valid());
}

#[test]
fn group_valid_when_empty() {
    let group = Group { value: 1, colors: vec![] };
    assert!(group.valid());
}

#[test]
fn run_valid_needs_three_values() {
    assert!(Run { start: 3, end: 5, color: Color::Blue }.valid());
    assert!(Run { start: 1, end: 13, color: Color::Red }.valid());
    assert!(!Run { start: 3, end: 4, color: Color::Blue }.valid());
    assert!(!Run { start: 5, end: 5, color: Color::Orange }.valid());
    assert!(!Run { start: 7, end: 3, color: Color::Black }.valid());
}

#[test]
fn board_valid_checks_groups_and_runs() {
    let good = Board {
        groups: vec![Group { value: 9, colors: vec![Color::Blue, Color::Red] }],
        runs: vec![Run { start: 2, end: 5, color: Color::Blue }],
    };
    assert!(good.valid());

    let bad_run = Board {
        groups: vec![],
        runs: vec![Run { start: 2, end: 3, color: Color::Blue }],
    };
    assert!(!bad_run.valid());

    let bad_group = Board {
        groups: vec![Group { value: 9, colors: vec![Color::Red, Color::Red] }],
        runs: vec![],
    };
    assert!(!bad_group.valid());
}

#[test]
fn empty_board_is_valid() {
    let board = Board { groups: vec![], runs: vec![] };
    assert!(board.valid());
}

#[test]
fn player_holds_tiles() {
    let player = Player {
        tiles: vec![
            Tile { color: Color::Blue, value: 3 },
            Tile { color: Color::Black, value: 1 },
        ],
    };
    assert_eq!(player.tiles.len(), 2);
    assert_eq!(player.tiles[0], Tile { color: Color::Blue, value: 3 });
}
