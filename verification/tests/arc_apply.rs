use goldworm::arc_apply::{apply_arc_op, apply_identity, apply_program, program_solves_train, color_counts, most_common_color};
use goldworm::arc_program::{ArcOpToken, ArcProgram};
use goldworm::grid::{ArcGrid, ArcTask, GridError};

#[test]
fn test_identity() {
    let grid = ArcGrid::from_data(vec![vec![1, 2], vec![3, 4]]).unwrap();
    let result = apply_identity(&grid).unwrap();
    assert_eq!(result, grid);
}

#[test]
fn test_rotate90() {
    let grid = ArcGrid::from_data(vec![vec![1, 2], vec![3, 4]]).unwrap();
    let token = ArcOpToken::new(1, 0, 0, 0, 0, 0, 0, 0);
    let result = apply_arc_op(&grid, &token).unwrap();
    assert_eq!(result.data, vec![vec![2, 4], vec![1, 3]]);
}

#[test]
fn test_rotate180() {
    let grid = ArcGrid::from_data(vec![vec![1, 2], vec![3, 4]]).unwrap();
    let token = ArcOpToken::new(1, 1, 0, 0, 0, 0, 0, 0);
    let result = apply_arc_op(&grid, &token).unwrap();
    assert_eq!(result.data, vec![vec![4, 3], vec![2, 1]]);
}

#[test]
fn test_rotate270() {
    let grid = ArcGrid::from_data(vec![vec![1, 2], vec![3, 4]]).unwrap();
    let token = ArcOpToken::new(1, 2, 0, 0, 0, 0, 0, 0);
    let result = apply_arc_op(&grid, &token).unwrap();
    assert_eq!(result.data, vec![vec![3, 1], vec![4, 2]]);
}

#[test]
fn test_flip_horizontal() {
    let grid = ArcGrid::from_data(vec![vec![1, 2], vec![3, 4]]).unwrap();
    let token = ArcOpToken::new(2, 0, 0, 0, 0, 0, 0, 0);
    let result = apply_arc_op(&grid, &token).unwrap();
    assert_eq!(result.data, vec![vec![2, 1], vec![4, 3]]);
}

#[test]
fn test_flip_vertical() {
    let grid = ArcGrid::from_data(vec![vec![1, 2], vec![3, 4]]).unwrap();
    let token = ArcOpToken::new(2, 1, 0, 0, 0, 0, 0, 0);
    let result = apply_arc_op(&grid, &token).unwrap();
    assert_eq!(result.data, vec![vec![3, 4], vec![1, 2]]);
}

#[test]
fn test_move() {
    let grid = ArcGrid::from_data(vec![vec![1, 0], vec![0, 0]]).unwrap();
    let token = ArcOpToken::new(3, 1, 0, 0, 0, 0, 0, 0);
    let result = apply_arc_op(&grid, &token).unwrap();
    assert_eq!(result.data, vec![vec![0, 1], vec![0, 0]]);
}

#[test]
fn test_fill() {
    let grid = ArcGrid::from_data(vec![vec![0, 0], vec![0, 0]]).unwrap();
    let token = ArcOpToken::new(4, 5, 0, 0, 2, 2, 0, 0);
    let result = apply_arc_op(&grid, &token).unwrap();
    assert_eq!(result.data, vec![vec![5, 5], vec![5, 5]]);
}

#[test]
fn test_copy() {
    let grid = ArcGrid::from_data(vec![vec![1, 2], vec![3, 4]]).unwrap();
    let token = ArcOpToken::new(5, 0, 0, 1, 1, 1, 1, 0);
    let result = apply_arc_op(&grid, &token).unwrap();
    assert_eq!(result.data, vec![vec![1, 2], vec![3, 1]]);
}

#[test]
fn test_gravity_down() {
    let grid = ArcGrid::from_data(vec![vec![1, 0], vec![0, 2]]).unwrap();
    let token = ArcOpToken::new(6, 0, 0, 0, 0, 0, 0, 0);
    let result = apply_arc_op(&grid, &token).unwrap();
    assert_eq!(result.data, vec![vec![0, 0], vec![1, 2]]);
}

#[test]
fn test_gravity_up() {
    let grid = ArcGrid::from_data(vec![vec![1, 0], vec![0, 2]]).unwrap();
    let token = ArcOpToken::new(6, 1, 0, 0, 0, 0, 0, 0);
    let result = apply_arc_op(&grid, &token).unwrap();
    assert_eq!(result.data, vec![vec![1, 2], vec![0, 0]]);
}

#[test]
fn test_gravity_left() {
    let grid = ArcGrid::from_data(vec![vec![1, 0], vec![0, 2]]).unwrap();
    let token = ArcOpToken::new(6, 2, 0, 0, 0, 0, 0, 0);
    let result = apply_arc_op(&grid, &token).unwrap();
    assert_eq!(result.data, vec![vec![1, 0], vec![2, 0]]);
}

#[test]
fn test_gravity_right() {
    let grid = ArcGrid::from_data(vec![vec![1, 0], vec![0, 2]]).unwrap();
    let token = ArcOpToken::new(6, 3, 0, 0, 0, 0, 0, 0);
    let result = apply_arc_op(&grid, &token).unwrap();
    assert_eq!(result.data, vec![vec![0, 1], vec![0, 2]]);
}

#[test]
fn test_mirror() {
    let grid = ArcGrid::from_data(vec![vec![1, 2], vec![3, 4]]).unwrap();
    let token = ArcOpToken::new(7, 1, 1, 0, 0, 0, 0, 0);
    let result = apply_arc_op(&grid, &token).unwrap();
    assert_eq!(result.data, vec![vec![4, 3], vec![2, 1]]);
}

#[test]
fn test_tile_2x2() {
    let grid = ArcGrid::from_data(vec![vec![1, 2], vec![3, 4]]).unwrap();
    let token = ArcOpToken::new(8, 2, 2, 0, 0, 0, 0, 0);
    let result = apply_arc_op(&grid, &token).unwrap();
    assert_eq!(result.data, vec![
        vec![1, 2, 1, 2],
        vec![3, 4, 3, 4],
        vec![1, 2, 1, 2],
        vec![3, 4, 3, 4],
    ]);
}

#[test]
fn test_crop() {
    let grid = ArcGrid::from_data(vec![vec![1, 2, 3], vec![4, 5, 6], vec![7, 8, 9]]).unwrap();
    let token = ArcOpToken::new(9, 1, 1, 2, 2, 0, 0, 0);
    let result = apply_arc_op(&grid, &token).unwrap();
    assert_eq!(result.data, vec![vec![5, 6], vec![8, 9]]);
}

#[test]
fn test_replace_color() {
    let grid = ArcGrid::from_data(vec![vec![1, 2], vec![2, 1]]).unwrap();
    let token = ArcOpToken::new(10, 1, 9, 0, 0, 0, 0, 0);
    let result = apply_arc_op(&grid, &token).unwrap();
    assert_eq!(result.data, vec![vec![9, 2], vec![2, 9]]);
}

#[test]
fn test_scale_2x() {
    let grid = ArcGrid::from_data(vec![vec![1, 2], vec![3, 4]]).unwrap();
    let token = ArcOpToken::new(11, 2, 0, 0, 0, 0, 0, 0);
    let result = apply_arc_op(&grid, &token).unwrap();
    assert_eq!(result.data, vec![
        vec![1, 1, 2, 2],
        vec![1, 1, 2, 2],
        vec![3, 3, 4, 4],
        vec![3, 3, 4, 4],
    ]);
}

#[test]
fn test_crop_content() {
    let grid = ArcGrid::from_data(vec![
        vec![0, 0, 0, 0, 0],
        vec![0, 1, 1, 0, 0],
        vec![0, 1, 1, 0, 0],
        vec![0, 0, 0, 2, 0],
        vec![0, 0, 0, 0, 0],
    ]).unwrap();
    let token = ArcOpToken::new(12, 0, 0, 0, 0, 0, 0, 0);
    let result = apply_arc_op(&grid, &token).unwrap();
    assert_eq!(result.data, vec![
        vec![1, 1, 0],
        vec![1, 1, 0],
        vec![0, 0, 2],
    ]);
}

#[test]
fn test_apply_program_sequence() {
    let grid = ArcGrid::from_data(vec![vec![1, 0], vec![0, 0]]).unwrap();
    let program = ArcProgram::from_tokens(vec![
        ArcOpToken::new(3, 1, 0, 0, 0, 0, 0, 0),
        ArcOpToken::new(4, 5, 0, 0, 2, 2, 0, 0),
    ]);
    let result = apply_program(&grid, &program).unwrap();
    assert_eq!(result.data, vec![vec![5, 5], vec![5, 5]]);
}

#[test]
fn test_apply_program_short_circuit() {
    let grid = ArcGrid::from_data(vec![vec![1, 0], vec![0, 0]]).unwrap();
    let program = ArcProgram::from_tokens(vec![
        ArcOpToken::new(3, 1, 0, 0, 0, 0, 0, 0),
        ArcOpToken::new(3, 10, 0, 0, 0, 0, 0, 0),
    ]);
    let result = apply_program(&grid, &program).unwrap();
    assert_eq!(result.data, vec![vec![0, 0], vec![0, 0]]);
}

fn grid_3x2() -> ArcGrid {
    ArcGrid::from_data(vec![vec![1, 2, 3], vec![4, 5, 6]]).unwrap()
}

#[test]
fn unknown_op_code_gives_none() {
    let grid = grid_3x2();
    assert!(apply_arc_op(&grid, &ArcOpToken::new(13, 0, 0, 0, 0, 0, 0, 0)).is_none());
    assert!(apply_arc_op(&grid, &ArcOpToken::new(255, 0, 0, 0, 0, 0, 0, 0)).is_none());
}

#[test]
fn bad_parameters_give_none() {
    let grid = grid_3x2();
    // rotation angle 3, flip axis 2, gravity direction 4
    assert!(apply_arc_op(&grid, &ArcOpToken::new(1, 3, 0, 0, 0, 0, 0, 0)).is_none());
    assert!(apply_arc_op(&grid, &ArcOpToken::new(2, 2, 0, 0, 0, 0, 0, 0)).is_none());
    assert!(apply_arc_op(&grid, &ArcOpToken::new(6, 4, 0, 0, 0, 0, 0, 0)).is_none());
    // crop past the edge, scale by 4, tile by 0
    assert!(apply_arc_op(&grid, &ArcOpToken::new(9, 2, 0, 2, 1, 0, 0, 0)).is_none());
    assert!(apply_arc_op(&grid, &ArcOpToken::new(11, 4, 0, 0, 0, 0, 0, 0)).is_none());
    assert!(apply_arc_op(&grid, &ArcOpToken::new(8, 0, 1, 0, 0, 0, 0, 0)).is_none());
    // replacing a color by itself
    assert!(apply_arc_op(&grid, &ArcOpToken::new(10, 1, 1, 0, 0, 0, 0, 0)).is_none());
}

#[test]
fn rotate90_of_a_rectangle() {
    let grid = grid_3x2();
    let r = apply_arc_op(&grid, &ArcOpToken::new(1, 0, 0, 0, 0, 0, 0, 0)).unwrap();
    assert_eq!(r.width, 2);
    assert_eq!(r.height, 3);
    assert_eq!(r.data, vec![vec![3, 6], vec![2, 5], vec![1, 4]]);
}

#[test]
fn flips_and_half_turns_undo_themselves() {
    let grid = grid_3x2();
    for token in [
        ArcOpToken::new(2, 0, 0, 0, 0, 0, 0, 0),
        ArcOpToken::new(2, 1, 0, 0, 0, 0, 0, 0),
        ArcOpToken::new(1, 1, 0, 0, 0, 0, 0, 0),
    ] {
        let program = ArcProgram::from_tokens(vec![token, token]);
        assert_eq!(apply_program(&grid, &program).unwrap(), grid);
    }
}

#[test]
fn quarter_turn_then_three_quarters_is_identity() {
    let grid = grid_3x2();
    let program = ArcProgram::from_tokens(vec![
        ArcOpToken::new(1, 0, 0, 0, 0, 0, 0, 0),
        ArcOpToken::new(1, 2, 0, 0, 0, 0, 0, 0),
    ]);
    assert_eq!(apply_program(&grid, &program).unwrap(), grid);
}

#[test]
fn program_of_two_parts_runs_them_in_turn() {
    let grid = grid_3x2();
    let a = ArcOpToken::new(2, 0, 0, 0, 0, 0, 0, 0);
    let b = ArcOpToken::new(10, 5, 0, 0, 0, 0, 0, 0);
    let whole = apply_program(&grid, &ArcProgram::from_tokens(vec![a, b])).unwrap();
    let first = apply_program(&grid, &ArcProgram::from_tokens(vec![a])).unwrap();
    let second = apply_program(&first, &ArcProgram::from_tokens(vec![b])).unwrap();
    assert_eq!(whole, second);
    assert_eq!(whole.data, vec![vec![3, 2, 1], vec![6, 0, 4]]);
}

#[test]
fn empty_program_keeps_the_grid() {
    let grid = grid_3x2();
    assert_eq!(apply_program(&grid, &ArcProgram::new()).unwrap(), grid);
}

#[test]
fn solves_train_checks_every_pair() {
    let input = ArcGrid::from_data(vec![vec![1, 2]]).unwrap();
    let flipped = ArcGrid::from_data(vec![vec![2, 1]]).unwrap();
    let program = ArcProgram::from_tokens(vec![ArcOpToken::new(2, 0, 0, 0, 0, 0, 0, 0)]);
    let good = ArcTask { train_pairs: vec![(input.clone(), flipped.clone())] };
    let bad = ArcTask { train_pairs: vec![(input.clone(), flipped.clone()), (input.clone(), input.clone())] };
    assert!(program_solves_train(&good, &program));
    assert!(!program_solves_train(&bad, &program));
    assert!(program.solves_train(&good));
    assert_eq!(program.apply_to(&input).unwrap(), flipped);
}

#[test]
fn color_counts_and_most_common() {
    let grid = ArcGrid::from_data(vec![vec![3, 3, 0], vec![7, 3, 7]]).unwrap();
    let counts = color_counts(&grid);
    assert_eq!(counts, vec![1, 0, 0, 3, 0, 0, 0, 2, 0, 0]);
    assert_eq!(most_common_color(&grid), 3);
}

#[test]
fn from_data_rejects_bad_grids() {
    assert_eq!(ArcGrid::from_data(vec![vec![1, 2], vec![3]]), Err(GridError::Ragged));
    assert_eq!(ArcGrid::from_data(vec![vec![1, 10]]), Err(GridError::InvalidColor));
    assert_eq!(ArcGrid::from_data(vec![vec![0; 31]]), Err(GridError::TooLarge));
}

#[test]
fn two_quarter_turns_make_a_half_turn() {
    let grid = grid_3x2();
    let quarter = ArcOpToken::new(1, 0, 0, 0, 0, 0, 0, 0);
    let half = ArcOpToken::new(1, 1, 0, 0, 0, 0, 0, 0);
    let twice = apply_program(&grid, &ArcProgram::from_tokens(vec![quarter, quarter])).unwrap();
    assert_eq!(twice, apply_arc_op(&grid, &half).unwrap());
    assert_eq!(twice.data, vec![vec![6, 5, 4], vec![3, 2, 1]]);
}

#[test]
fn program_with_one_more_token_applies_it_last() {
    let grid = ArcGrid::from_data(vec![vec![1, 2], vec![3, 4]]).unwrap();
    let rotate = ArcOpToken::new(1, 0, 0, 0, 0, 0, 0, 0);
    let flip = ArcOpToken::new(2, 0, 0, 0, 0, 0, 0, 0);
    let short = ArcProgram::from_tokens(vec![rotate]);
    let long = ArcProgram::from_tokens(vec![rotate, flip]);
    let step = apply_program(&grid, &short).unwrap();
    assert_eq!(apply_program(&grid, &long), apply_arc_op(&step, &flip));
    assert_eq!(apply_program(&grid, &ArcProgram::new()), Some(grid.clone()));
    let bad = ArcOpToken::new(200, 0, 0, 0, 0, 0, 0, 0);
    let failing = ArcProgram::from_tokens(vec![rotate, bad]);
    assert_eq!(apply_program(&grid, &failing), None);
}

#[test]
fn fill_with_no_color_is_refused() {
    let grid = ArcGrid::from_data(vec![vec![0]]).unwrap();
    let bad_fill = ArcOpToken::new(4, 10, 0, 0, 1, 1, 0, 0);
    assert_eq!(apply_arc_op(&grid, &bad_fill), None);
    // An empty rectangle paints nothing, so the grid comes back unchanged.
    let empty_fill = ArcOpToken::new(4, 200, 0, 0, 0, 3, 0, 0);
    assert_eq!(apply_arc_op(&grid, &empty_fill), Some(grid.clone()));
    let program = ArcProgram::from_tokens(vec![ArcOpToken::new(0, 0, 0, 0, 0, 0, 0, 0), bad_fill]);
    assert_eq!(apply_program(&grid, &program), None);
    assert_eq!(program.apply_to(&grid), None);
    let task = ArcTask { train_pairs: vec![(grid.clone(), grid.clone())] };
    assert!(!program_solves_train(&task, &program));
    assert!(!program.solves_train(&task));
}
