use game2048::board::{Board, Direction};
use game2048::event::{command_for_key, Command};
use game2048::game::{block_value, Game, HIGH_BLOCK, LOW_BLOCK};
use game2048::line::slide_line;

fn board_of(blocks: Vec<Vec<u32>>) -> Board {
    Board {
        width: blocks[0].len(),
        height: blocks.len(),
        blocks: blocks,
        updated: false,
    }
}

fn game_of(goal: u32, blocks: Vec<Vec<u32>>) -> Game {
    let board = board_of(blocks);
    Game {
        goal: goal,
        width: board.width,
        height: board.height,
        board: board,
        score: 0,
    }
}

fn count_tiles(blocks: &Vec<Vec<u32>>) -> usize {
    blocks.iter().map(|row| row.iter().filter(|v| **v != 0).count()).sum()
}

fn mirror(blocks: &Vec<Vec<u32>>) -> Vec<Vec<u32>> {
    blocks
        .iter()
        .map(|row| row.iter().rev().cloned().collect())
        .collect()
}

fn transpose(blocks: &Vec<Vec<u32>>) -> Vec<Vec<u32>> {
    let h = blocks.len();
    let w = blocks[0].len();
    (0..w).map(|j| (0..h).map(|i| blocks[i][j]).collect()).collect()
}

#[test]
fn slide_left_pair_in_middle() {
    let board = board_of(vec![
        vec![0, 4, 4, 0],
        vec![0, 0, 0, 0],
        vec![0, 0, 0, 0],
        vec![0, 0, 0, 0],
    ]);
    let (next, delta) = board.transition(Direction::Left);
    assert_eq!(next.blocks[0], vec![8, 0, 0, 0]);
    assert!(next.updated);
    assert_eq!(delta, 8);
}

#[test]
fn slide_left_three_equal_merges_once() {
    let board = board_of(vec![
        vec![4, 4, 4, 0],
        vec![0, 0, 0, 0],
        vec![0, 0, 0, 0],
        vec![0, 0, 0, 0],
    ]);
    let (next, delta) = board.transition(Direction::Left);
    assert_eq!(next.blocks[0], vec![8, 4, 0, 0]);
    assert!(next.updated);
    assert_eq!(delta, 8);
}

#[test]
fn slide_right_full_row_unchanged() {
    let blocks = vec![
        vec![4, 2, 8, 16],
        vec![0, 0, 0, 0],
        vec![0, 0, 0, 0],
        vec![0, 0, 0, 0],
    ];
    let board = board_of(blocks.clone());
    let (next, delta) = board.transition(Direction::Right);
    assert!(!next.updated);
    assert_eq!(next.blocks, blocks);
    assert_eq!(delta, 0);
}

#[test]
fn three_equal_merge_once_every_direction() {
    let row = board_of(vec![vec![2, 2, 2]]);
    assert_eq!(row.transition(Direction::Left).0.blocks, vec![vec![4, 2, 0]]);
    assert_eq!(row.transition(Direction::Right).0.blocks, vec![vec![0, 2, 4]]);
    let col = board_of(vec![vec![2], vec![2], vec![2]]);
    assert_eq!(col.transition(Direction::Up).0.blocks, vec![vec![4], vec![2], vec![0]]);
    assert_eq!(col.transition(Direction::Down).0.blocks, vec![vec![0], vec![2], vec![4]]);
}

#[test]
fn four_equal_make_two_pairs() {
    let board = board_of(vec![vec![4, 4, 4, 4]]);
    let (left, delta) = board.transition(Direction::Left);
    assert_eq!(left.blocks, vec![vec![8, 8, 0, 0]]);
    assert_eq!(delta, 16);
    let (right, _) = board.transition(Direction::Right);
    assert_eq!(right.blocks, vec![vec![0, 0, 8, 8]]);
}

#[test]
fn merged_tile_does_not_merge_again() {
    let board = board_of(vec![vec![2, 2, 4, 0]]);
    let (next, delta) = board.transition(Direction::Left);
    assert_eq!(next.blocks, vec![vec![4, 4, 0, 0]]);
    assert_eq!(delta, 4);
}

#[test]
fn packed_grid_is_fixed_in_each_direction() {
    let left_packed = board_of(vec![vec![2, 4, 0], vec![8, 0, 0], vec![0, 0, 0]]);
    let (next, delta) = left_packed.transition(Direction::Left);
    assert!(!next.updated);
    assert_eq!(next.blocks, left_packed.blocks);
    assert_eq!(delta, 0);
    let up_packed = board_of(vec![vec![2, 8, 0], vec![4, 0, 0], vec![0, 0, 0]]);
    let (next, _) = up_packed.transition(Direction::Up);
    assert!(!next.updated);
    assert_eq!(next.blocks, up_packed.blocks);
}

#[test]
fn tile_values_are_conserved() {
    let board = board_of(vec![
        vec![2, 2, 4, 8],
        vec![4, 0, 4, 4],
        vec![16, 16, 16, 0],
        vec![0, 2, 0, 2],
    ]);
    let before: u32 = board.blocks.iter().flatten().sum();
    for dir in [Direction::Up, Direction::Down, Direction::Left, Direction::Right] {
        let (next, _) = board.transition(dir);
        let after: u32 = next.blocks.iter().flatten().sum();
        assert_eq!(before, after);
    }
    let (left, delta) = board.transition(Direction::Left);
    assert_eq!(
        left.blocks,
        vec![
            vec![4, 4, 8, 0],
            vec![8, 4, 0, 0],
            vec![32, 16, 0, 0],
            vec![4, 0, 0, 0],
        ]
    );
    assert_eq!(count_tiles(&board.blocks) - count_tiles(&left.blocks), 4);
    assert_eq!(delta, 4 + 8 + 32 + 4);
}

#[test]
fn directions_are_reflections() {
    let blocks = vec![
        vec![2, 2, 4, 0],
        vec![0, 4, 4, 8],
        vec![2, 0, 2, 2],
    ];
    let board = board_of(blocks.clone());
    let left = board.transition(Direction::Left).0.blocks;
    let right_of_mirror = board_of(mirror(&blocks)).transition(Direction::Right).0.blocks;
    assert_eq!(left, mirror(&right_of_mirror));
    let up = board.transition(Direction::Up).0.blocks;
    let left_of_transpose = board_of(transpose(&blocks)).transition(Direction::Left).0.blocks;
    assert_eq!(up, transpose(&left_of_transpose));
    let down = board.transition(Direction::Down).0.blocks;
    let right_of_transpose = board_of(transpose(&blocks)).transition(Direction::Right).0.blocks;
    assert_eq!(down, transpose(&right_of_transpose));
}

#[test]
fn full_board_without_pairs_is_lost() {
    let game = game_of(
        2048,
        vec![
            vec![2, 4, 2, 4],
            vec![4, 2, 4, 2],
            vec![2, 4, 2, 4],
            vec![4, 2, 4, 2],
        ],
    );
    assert!(game.lose());
    assert!(!game.win());
}

#[test]
fn goal_tile_wins_even_on_full_board() {
    let full = game_of(
        2048,
        vec![
            vec![2, 4, 2, 4],
            vec![4, 2048, 4, 2],
            vec![2, 4, 2, 4],
            vec![4, 2, 4, 2],
        ],
    );
    assert!(full.win());
    assert!(!full.lose());
    let sparse = game_of(
        2048,
        vec![
            vec![0, 0, 0, 0],
            vec![0, 0, 0, 0],
            vec![0, 0, 0, 2048],
            vec![0, 0, 0, 0],
        ],
    );
    assert!(sparse.win());
    assert!(!sparse.lose());
}

#[test]
fn changed_move_spawns_one_tile_on_an_empty_cell() {
    let mut game = game_of(
        2048,
        vec![
            vec![0, 2, 0, 2],
            vec![0, 0, 0, 0],
            vec![4, 0, 0, 0],
            vec![0, 0, 0, 0],
        ],
    );
    let (moved, delta) = game.board.transition(Direction::Left);
    game.move_left();
    assert_eq!(delta, 4);
    assert_eq!(game.score, 4);
    assert_eq!(count_tiles(&game.board.blocks), count_tiles(&moved.blocks) + 1);
    let mut new_tiles = 0;
    for i in 0..4 {
        for j in 0..4 {
            if game.board.blocks[i][j] != moved.blocks[i][j] {
                assert_eq!(moved.blocks[i][j], 0);
                let v = game.board.blocks[i][j];
                assert!(v == 2 || v == 4);
                new_tiles += 1;
            }
        }
    }
    assert_eq!(new_tiles, 1);
}

#[test]
fn unchanged_move_spawns_nothing() {
    let blocks = vec![
        vec![2, 0, 0, 0],
        vec![4, 0, 0, 0],
        vec![0, 0, 0, 0],
        vec![0, 0, 0, 0],
    ];
    let mut game = game_of(2048, blocks.clone());
    game.move_left();
    assert_eq!(game.board.blocks, blocks);
    assert_eq!(game.score, 0);
    game.move_up();
    assert_eq!(game.board.blocks, blocks);
    game.apply_move(Direction::Left);
    assert_eq!(game.board.blocks, blocks);
}

#[test]
fn score_accumulates_over_moves() {
    let mut game = game_of(
        2048,
        vec![
            vec![2, 2, 0, 0],
            vec![8, 8, 0, 0],
            vec![0, 0, 0, 0],
            vec![0, 0, 0, 0],
        ],
    );
    game.move_right();
    assert_eq!(game.score, 4 + 16);
}

#[test]
fn empty_cells_lists_every_empty_position_in_order() {
    let board = board_of(vec![vec![0, 2, 0], vec![4, 4, 0]]);
    assert_eq!(board.empty_cells(), vec![(0, 0), (0, 2), (1, 2)]);
    assert!(board.has_empty_block());
    let full = board_of(vec![vec![2, 4], vec![8, 16]]);
    assert_eq!(full.empty_cells(), vec![]);
    assert!(!full.has_empty_block());
    assert_eq!(full.pick_empty_index(), None);
}

#[test]
fn pick_empty_index_finds_the_only_empty_cell() {
    let board = board_of(vec![vec![2, 4, 8], vec![16, 0, 32]]);
    for _ in 0..20 {
        assert_eq!(board.pick_empty_index(), Some((1, 1)));
    }
}

#[test]
fn has_block_with_finds_values() {
    let board = board_of(vec![vec![0, 2, 0], vec![4, 64, 0]]);
    assert!(board.has_block_with(64));
    assert!(board.has_block_with(0));
    assert!(!board.has_block_with(8));
}

#[test]
fn put_new_block_sets_one_cell() {
    let board = board_of(vec![vec![0, 2], vec![0, 0]]);
    let next = board.put_new_block(1, 0, 4);
    assert_eq!(next.blocks, vec![vec![0, 2], vec![4, 0]]);
    assert_eq!(next.width, 2);
    assert_eq!(next.height, 2);
}

#[test]
fn new_game_tiles_are_small() {
    for _ in 0..20 {
        let game = Game::new(2048, 3, 2);
        assert_eq!(count_tiles(&game.board.blocks), 2);
        for row in &game.board.blocks {
            for v in row {
                assert!(*v == 0 || *v == LOW_BLOCK || *v == HIGH_BLOCK);
            }
        }
    }
    let single = Game::new(2048, 1, 1);
    assert_eq!(count_tiles(&single.board.blocks), 1);
}

#[test]
fn block_value_picks_low_or_high() {
    assert_eq!(block_value(false), 2);
    assert_eq!(block_value(true), 4);
}

#[test]
fn slide_line_merges_and_pads() {
    assert_eq!(slide_line(&vec![0, 4, 4, 0]), (vec![8, 0, 0, 0], 8));
    assert_eq!(slide_line(&vec![2, 0, 2, 2]), (vec![4, 2, 0, 0], 4));
    assert_eq!(slide_line(&vec![]), (vec![], 0));
    assert_eq!(slide_line(&vec![0, 0, 0]), (vec![0, 0, 0], 0));
}

#[test]
fn largest_mergeable_tiles() {
    let board = board_of(vec![vec![0x7fff_ffff, 0x7fff_ffff]]);
    assert!(board.all_tiles_fit());
    let (next, delta) = board.transition(Direction::Left);
    assert_eq!(next.blocks, vec![vec![0xffff_fffe, 0]]);
    assert_eq!(delta, 0xffff_fffe);
    assert!(!next.all_tiles_fit());
}

#[test]
fn keys_map_to_commands() {
    assert_eq!(command_for_key('h'), Some(Command::Move(Direction::Left)));
    assert_eq!(command_for_key('j'), Some(Command::Move(Direction::Down)));
    assert_eq!(command_for_key('k'), Some(Command::Move(Direction::Up)));
    assert_eq!(command_for_key('l'), Some(Command::Move(Direction::Right)));
    assert_eq!(command_for_key('q'), Some(Command::Quit));
    assert_eq!(command_for_key('x'), None);
}

#[test]
fn step_stops_on_quit_and_ignores_moves_after_a_win() {
    let blocks = vec![vec![32, 0], vec![0, 2]];
    let mut game = game_of(32, blocks.clone());
    assert!(game.step(Command::Move(Direction::Left)));
    assert_eq!(game.board.blocks, blocks);
    assert!(!game.step(Command::Quit));

    let mut playing = game_of(2048, vec![vec![2, 2], vec![0, 0]]);
    assert!(playing.step(Command::Move(Direction::Left)));
    assert_eq!(playing.board.blocks[0][0], 4);
    assert_eq!(playing.score, 4);
}

#[test]
fn spawn_fills_the_only_empty_cell_and_leaves_a_full_board() {
    let board = board_of(vec![vec![2, 4], vec![0, 8]]);
    let next = Game::put_new_block(board);
    assert_eq!(next.blocks[0], vec![2, 4]);
    assert_eq!(next.blocks[1][1], 8);
    let v = next.blocks[1][0];
    assert!(v == LOW_BLOCK || v == HIGH_BLOCK);
    let full = board_of(vec![vec![2, 4], vec![16, 8]]);
    let same = Game::put_new_block(full.clone());
    assert_eq!(same.blocks, full.blocks);
}

#[test]
fn step_ignores_moves_when_a_tile_cannot_be_doubled() {
    let blocks = vec![vec![0x8000_0000, 0x8000_0000], vec![0, 0]];
    let mut game = game_of(2048, blocks.clone());
    assert!(!game.board.all_tiles_fit());
    assert!(game.step(Command::Move(Direction::Left)));
    assert_eq!(game.board.blocks, blocks);
    assert_eq!(game.score, 0);
}
