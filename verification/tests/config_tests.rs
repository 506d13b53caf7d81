use gameoflife::board::Board;
use gameoflife::config::parse_rle_string;
use gameoflife::config::Configuration;

#[test]
fn rle_load_glider_no_type() {
    let glider_rle = "#C This is a glider.\nx = 3, y = 3\nbo$2bo$3o!";

    let expected_vec: Vec<Vec<u8>> = vec![vec![0, 1, 0], vec![0, 0, 1], vec![1, 1, 1]];

    match parse_rle_string(&glider_rle) {
        Ok(board) => assert!(
            expected_vec == board,
            "Board did not match! expected: {:?}, got: {:?}",
            expected_vec,
            board
        ),
        Err(error) => panic!("{}", error),
    }
}

#[test]
fn rle_load_glider_type() {
    let glider_rle = "#C This is a glider.\nx = 3, y = 3, type = b3/s23\nbo$2bo$3o!";

    let expected_vec: Vec<Vec<u8>> = vec![vec![0, 1, 0], vec![0, 0, 1], vec![1, 1, 1]];

    match parse_rle_string(&glider_rle) {
        Ok(board) => assert!(
            expected_vec == board,
            "Board did not match! expected: {:?}, got: {:?}",
            expected_vec,
            board
        ),
        Err(error) => panic!("{}", error),
    }
}

#[test]
fn rle_load_invalid_size() {
    let glider_rle = "#C This is a glider.\nx = x, y = 3\nbo$2bo$3o!";

    match parse_rle_string(&glider_rle) {
        Ok(_) => panic!("Board should not have initialized properly!"),
        Err(err) => println!("Errored out properly: {}", err),
    }
}

#[test]
fn rle_load_invalid_type() {
    let glider_rle = "#C This is a glider.\nx = 3, y = 3, type = B36/S23\nbo$2bo$3o!";

    match parse_rle_string(&glider_rle) {
        Ok(_) => panic!("Board should not have initialized properly!"),
        Err(err) => println!("Errored out properly: {}", err),
    }
}

#[test]
fn rle_load_valid_type() {
    let glider_rle = "#C This is a glider.\nx = 3, y = 3, type = B3/S23\nbo$2bo$3o!";

    match parse_rle_string(&glider_rle) {
        Ok(_) => println!("Parsed properly!"),
        Err(err) => panic!("Errored out incorrectly: {}", err),
    }
}

#[test]
fn rule_rejection_reports_non_conway_rule() {
    let text = "x = 3, y = 3, rule = B36/S23\nbo$2bo$3o!";
    assert_eq!(
        parse_rle_string(&text),
        Err("Specified life type not Conway! Cannot play config.")
    );
}

#[test]
fn board_line_before_dimensions_is_rejected() {
    let text = "bo$2bo$3o!\nx = 3, y = 3";
    assert_eq!(parse_rle_string(&text), Err("Invalid board dimensions!"));
}

#[test]
fn zero_dimensions_are_rejected() {
    let text = "x = 0, y = 0\nbo$2bo$3o!";
    assert_eq!(parse_rle_string(&text), Err("Invalid board dimensions!"));
}

#[test]
fn content_wider_than_declared_is_rejected() {
    let text = "x = 2, y = 1\n3o!";
    assert_eq!(
        parse_rle_string(&text),
        Err("Pattern content does not fit the declared dimensions!")
    );
}

#[test]
fn missing_rows_stay_dead() {
    // fewer end-of-row markers than declared rows: trailing rows remain dead
    let text = "x = 3, y = 3\n3o!";
    assert_eq!(
        parse_rle_string(&text),
        Ok(vec![vec![1, 1, 1], vec![0, 0, 0], vec![0, 0, 0]])
    );
}

#[test]
fn comment_lines_are_ignored() {
    let text = "#C a comment\n#N a name\nx = 1, y = 1\no!";
    assert_eq!(parse_rle_string(&text), Ok(vec![vec![1]]));
}

#[test]
fn load_rle_config_reads_dimensions_from_matrix() {
    let glider_rle = "#C This is a glider.\nx = 3, y = 3\nbo$2bo$3o!";
    let conf = Configuration::load_rle_config(glider_rle).unwrap();
    assert_eq!(conf.rows, 3);
    assert_eq!(conf.cols, 3);
    assert_eq!(conf.board, vec![vec![0, 1, 0], vec![0, 0, 1], vec![1, 1, 1]]);
}

#[test]
fn apply_config_rejects_too_many_rows_without_mutation() {
    let conf = Configuration {
        rows: 3,
        cols: 3,
        board: vec![vec![0, 1, 0], vec![0, 0, 1], vec![1, 1, 1]],
    };
    let mut board = Board::new(2, 5);
    board.set_alive(0, 0, true);
    assert_eq!(
        conf.apply_config(&mut board),
        Err("This configuration requires a larger board (more rows)!")
    );
    // the failed apply left the board untouched
    assert_eq!(board.get_num_alive_cells(), 1);
    assert!(board.grid[0][0].is_alive);
}

#[test]
fn apply_config_rejects_too_wide_rows_without_mutation() {
    let conf = Configuration {
        rows: 3,
        cols: 3,
        board: vec![vec![0, 1, 0], vec![0, 0, 1], vec![1, 1, 1]],
    };
    let mut board = Board::new(5, 2);
    board.set_alive(4, 1, true);
    assert_eq!(
        conf.apply_config(&mut board),
        Err("This configuration requires a larger board (more cols)!")
    );
    assert_eq!(board.get_num_alive_cells(), 1);
    assert!(board.grid[4][1].is_alive);
}

#[test]
fn glider_round_trip_onto_larger_board() {
    let glider_rle = "#C This is a glider.\nx = 3, y = 3\nbo$2bo$3o!";
    let conf = Configuration::load_rle_config(glider_rle).unwrap();
    let mut board = Board::new(5, 5);
    conf.apply_config(&mut board).unwrap();

    let mut alive: Vec<(usize, usize)> = Vec::new();
    for ((r, c), is_alive) in board.iter_cells() {
        if is_alive {
            alive.push((r, c));
        }
    }
    assert_eq!(alive, vec![(0, 1), (1, 2), (2, 0), (2, 1), (2, 2)]);
}

#[test]
fn apply_config_clears_previous_state() {
    let conf = Configuration {
        rows: 1,
        cols: 1,
        board: vec![vec![1]],
    };
    let mut board = Board::new(3, 3);
    board.set_alive(2, 2, true);
    conf.apply_config(&mut board).unwrap();
    assert_eq!(board.get_num_alive_cells(), 1);
    assert!(board.grid[0][0].is_alive);
    assert!(!board.grid[2][2].is_alive);
}

#[test]
fn glider_translates_by_one_after_four_generations() {
    let glider_rle = "x = 3, y = 3\nbo$2bo$3o!";
    let conf = Configuration::load_rle_config(glider_rle).unwrap();
    let mut board = Board::new(6, 6);
    conf.apply_config(&mut board).unwrap();

    for _ in 0..4 {
        board.update();
    }

    let mut alive: Vec<(usize, usize)> = Vec::new();
    for ((r, c), is_alive) in board.iter_cells() {
        if is_alive {
            alive.push((r, c));
        }
    }
    // the glider shape, translated by (1, 1)
    assert_eq!(alive, vec![(1, 2), (2, 3), (3, 1), (3, 2), (3, 3)]);
}
