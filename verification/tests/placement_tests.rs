use rummikub::mutations::{
    compress_runs, extend_run, extend_run_head, extend_run_tail, place_tile, place_tiles,
    place_tiles_best, split_run,
};
use rummikub::structures::{Board, Color, Run, Tile};

fn blue(value: u8) -> Tile {
    Tile { color: Color::Blue, value }
}

fn run(start: u8, end: u8, color: Color) -> Run {
    Run { start, end, color }
}

#[test]
fn extend_tail_adds_next_value() {
    let r = run(3, 5, Color::Blue);
    assert_eq!(extend_run_tail(&r, &blue(6)), Some(run(3, 6, Color::Blue)));
}

#[test]
fn extend_tail_rejects_wrong_color_or_gap() {
    let r = run(3, 5, Color::Blue);
    assert_eq!(extend_run_tail(&r, &Tile { color: Color::Red, value: 6 }), None);
    assert_eq!(extend_run_tail(&r, &blue(7)), None);
    assert_eq!(extend_run_tail(&r, &blue(5)), None);
    assert_eq!(extend_run_tail(&r, &blue(2)), None);
}

#[test]
fn extend_head_adds_previous_value() {
    let r = run(3, 5, Color::Blue);
    assert_eq!(extend_run_head(&r, &blue(2)), Some(run(2, 5, Color::Blue)));
}

#[test]
fn extend_head_rejects_wrong_color_or_gap() {
    let r = run(3, 5, Color::Blue);
    assert_eq!(extend_run_head(&r, &Tile { color: Color::Black, value: 2 }), None);
    assert_eq!(extend_run_head(&r, &blue(1)), None);
    assert_eq!(extend_run_head(&r, &blue(3)), None);
}

#[test]
fn extend_tries_head_then_tail() {
    let r = run(3, 5, Color::Blue);
    assert_eq!(extend_run(&r, &blue(2)), Some(run(2, 5, Color::Blue)));
    assert_eq!(extend_run(&r, &blue(6)), Some(run(3, 6, Color::Blue)));
    assert_eq!(extend_run(&r, &blue(8)), None);
}

#[test]
fn split_enumerates_every_partition() {
    let splits = split_run(&run(1, 3, Color::Blue));
    assert_eq!(splits.len(), 3);
    assert_eq!(splits[0], vec![run(1, 1, Color::Blue), run(2, 3, Color::Blue)]);
    assert_eq!(splits[1], vec![run(1, 2, Color::Blue), run(3, 3, Color::Blue)]);
    assert_eq!(
        splits[2],
        vec![run(1, 1, Color::Blue), run(2, 2, Color::Blue), run(3, 3, Color::Blue)]
    );
}

#[test]
fn split_count_grows_exponentially() {
    let splits = split_run(&run(5, 9, Color::Red));
    assert_eq!(splits.len(), 15);
    for parts in &splits {
        assert!(parts.len() >= 2);
        assert_eq!(parts[0].start, 5);
        assert_eq!(parts[parts.len() - 1].end, 9);
        for w in parts.windows(2) {
            assert_eq!(w[1].start, w[0].end + 1);
        }
        for p in parts {
            assert_eq!(p.color, Color::Red);
        }
    }
}

#[test]
fn compress_merges_adjacent_same_color_runs() {
    let runs = vec![
        run(1, 2, Color::Blue),
        run(3, 4, Color::Blue),
        run(5, 6, Color::Red),
    ];
    let compressed = compress_runs(&runs);
    assert_eq!(compressed, vec![run(1, 4, Color::Blue), run(5, 6, Color::Red)]);
}

#[test]
fn compress_sorts_by_color_then_start() {
    let runs = vec![
        run(5, 6, Color::Red),
        run(3, 4, Color::Blue),
        run(1, 2, Color::Blue),
    ];
    let compressed = compress_runs(&runs);
    assert_eq!(compressed, vec![run(1, 4, Color::Blue), run(5, 6, Color::Red)]);
}

#[test]
fn compress_keeps_tied_runs_in_input_order() {
    let runs = vec![run(1, 3, Color::Blue), run(1, 5, Color::Blue)];
    let compressed = compress_runs(&runs);
    assert_eq!(compressed, vec![run(1, 3, Color::Blue), run(1, 5, Color::Blue)]);
}

#[test]
fn compress_is_idempotent() {
    let runs = vec![
        run(8, 9, Color::Black),
        run(1, 2, Color::Blue),
        run(3, 4, Color::Blue),
        run(10, 12, Color::Black),
    ];
    let once = compress_runs(&runs);
    let twice = compress_runs(&once);
    assert_eq!(once, twice);
}

#[test]
fn compress_empty_is_empty() {
    let compressed = compress_runs(&vec![]);
    assert!(compressed.is_empty());
}

#[test]
fn place_tile_extends_tail_directly() {
    let board = Board { groups: vec![], runs: vec![run(5, 7, Color::Blue)] };
    let placed = place_tile(&board, &blue(8)).expect("tile fits at the tail");
    assert_eq!(placed.runs, vec![run(5, 8, Color::Blue)]);
}

#[test]
fn place_tile_splits_when_no_end_fits() {
    let board = Board { groups: vec![], runs: vec![run(1, 4, Color::Blue)] };
    let placed = place_tile(&board, &blue(2)).expect("tile fits after a split");
    assert_eq!(placed.runs, vec![run(1, 2, Color::Blue), run(2, 4, Color::Blue)]);
}

#[test]
fn place_tile_rejects_unplaceable_tile() {
    let board = Board {
        groups: vec![],
        runs: vec![run(2, 5, Color::Blue), run(6, 13, Color::Blue)],
    };
    assert_eq!(place_tile(&board, &Tile { color: Color::Black, value: 1 }), None);
}

#[test]
fn place_tiles_skips_failed_tile_without_retry() {
    let board = Board { groups: vec![], runs: vec![run(3, 5, Color::Blue)] };
    let (new_board, placed) = place_tiles(&board, &vec![blue(7), blue(6)]);
    assert_eq!(placed, vec![blue(6)]);
    assert_eq!(new_board.runs, vec![run(3, 6, Color::Blue)]);
}

#[test]
fn place_tiles_best_reorders_to_place_everything() {
    let board = Board { groups: vec![], runs: vec![run(3, 5, Color::Blue)] };
    let (new_board, placed, unplaced) =
        place_tiles_best(&board, &vec![blue(7), blue(6)]).expect("both tiles fit in some order");
    assert_eq!(placed, vec![blue(6), blue(7)]);
    assert!(unplaced.is_empty());
    assert_eq!(new_board.runs, vec![run(3, 7, Color::Blue)]);
    assert!(new_board.valid());
}

#[test]
fn scenario_wide_board_and_mixed_hand() {
    let board = Board {
        groups: vec![],
        runs: vec![run(2, 5, Color::Blue), run(6, 13, Color::Blue)],
    };
    let tiles = vec![blue(3), blue(4), Tile { color: Color::Black, value: 1 }, blue(2)];
    let (new_board, placed, unplaced) =
        place_tiles_best(&board, &tiles).expect("the blue tiles fit after splits");
    assert_eq!(placed, vec![blue(3), blue(4), blue(2)]);
    assert_eq!(unplaced, vec![Tile { color: Color::Black, value: 1 }]);
    assert!(new_board.valid());
    assert_eq!(new_board.runs, vec![run(2, 4, Color::Blue), run(2, 13, Color::Blue)]);
}

#[test]
fn scenario_single_tail_extension() {
    let board = Board { groups: vec![], runs: vec![run(5, 7, Color::Blue)] };
    let (new_board, placed, unplaced) =
        place_tiles_best(&board, &vec![blue(8)]).expect("the tile extends the tail");
    assert_eq!(placed, vec![blue(8)]);
    assert!(unplaced.is_empty());
    assert_eq!(new_board.runs, vec![run(5, 8, Color::Blue)]);
    assert!(new_board.valid());
}

#[test]
fn scenario_split_then_fill_keeps_runs_valid() {
    let board = Board { groups: vec![], runs: vec![run(1, 4, Color::Blue)] };
    let (new_board, placed, unplaced) =
        place_tiles_best(&board, &vec![blue(2), blue(3)]).expect("both tiles fit via a split");
    assert_eq!(placed, vec![blue(2), blue(3)]);
    assert!(unplaced.is_empty());
    assert!(new_board.valid());
    for r in &new_board.runs {
        assert!(r.valid());
    }
    assert_eq!(new_board.runs, vec![run(1, 3, Color::Blue), run(2, 4, Color::Blue)]);
}

#[test]
fn place_tiles_best_none_when_nothing_fits() {
    let board = Board { groups: vec![], runs: vec![run(2, 5, Color::Blue)] };
    let tiles = vec![Tile { color: Color::Black, value: 1 }, Tile { color: Color::Red, value: 9 }];
    assert_eq!(place_tiles_best(&board, &tiles), None);
}

#[test]
fn place_tiles_best_empty_hand_on_valid_board() {
    let board = Board { groups: vec![], runs: vec![run(5, 7, Color::Blue)] };
    let (new_board, placed, unplaced) =
        place_tiles_best(&board, &vec![]).expect("a valid board with no tiles is kept");
    assert!(placed.is_empty());
    assert!(unplaced.is_empty());
    assert_eq!(new_board.runs, vec![run(5, 7, Color::Blue)]);
}

#[test]
fn place_tiles_best_empty_hand_on_invalid_board() {
    let board = Board { groups: vec![], runs: vec![run(5, 6, Color::Blue)] };
    assert_eq!(place_tiles_best(&board, &vec![]), None);
}

#[test]
fn place_tiles_best_discards_invalid_attempts() {
    // Blue 2 always fits after a split but leaves a short run behind,
    // so every attempt places both tiles yet ends invalid: no result.
    let board = Board { groups: vec![], runs: vec![run(1, 4, Color::Blue), run(9, 11, Color::Blue)] };
    assert_eq!(place_tiles_best(&board, &vec![blue(2), blue(12)]), None);
}
