use vstd::prelude::*;

use crate::board::{
    has_value, lemma_changed_move_has_room, lemma_lines_score_nonneg, lemma_spawn_adds_one,
    set_cell, tile_count, Board, Direction,
};
use crate::event::Command;
use crate::line::{capped, lemma_capped_add, tiles};
use crate::random::draw_ratio;

verus! {

/// The smaller value a new tile can have.
pub const LOW_BLOCK: u32 = 2;

/// The larger value a new tile can have.
pub const HIGH_BLOCK: u32 = 4;

/// A new tile takes the larger value with probability
/// `HIGH_BLOCK_ODDS / HIGH_BLOCK_OUT_OF`.
pub const HIGH_BLOCK_ODDS: u32 = 1;

/// See `HIGH_BLOCK_ODDS`.
pub const HIGH_BLOCK_OUT_OF: u32 = 2;

/// One session: the board, the tile value that wins, and the points earned.
pub struct Game {
    pub goal: u32,
    pub board: Board,
    pub width: usize,
    pub height: usize,
    pub score: u64,
}

/// `after` is `before` with one of its empty cells given a new tile of value 2 or 4.
pub open spec fn spawned(before: Board, after: Board) -> bool {
    &&& after.wf()
    &&& after.width == before.width
    &&& after.height == before.height
    &&& after.updated == before.updated
    &&& exists|r: int, c: int, v: u32|
        0 <= r < before.height && 0 <= c < before.width && before.cells()[r][c] == 0 && (v
            == LOW_BLOCK || v == HIGH_BLOCK) && after.cells() == #[trigger] set_cell(
            before.cells(),
            r,
            c,
            v,
        )
}

/// The value of a new tile: the larger one when `high` is set.
pub fn block_value(high: bool) -> (r: u32)
    ensures
        r == if high {
            HIGH_BLOCK
        } else {
            LOW_BLOCK
        },
{
    if high {
        HIGH_BLOCK
    } else {
        LOW_BLOCK
    }
}

proof fn lemma_no_tiles(g: Seq<Seq<u32>>)
    requires
        forall|i: int, j: int| 0 <= i < g.len() && 0 <= j < g[i].len() ==> #[trigger] g[i][j] == 0,
    ensures
        tile_count(g) == 0,
    decreases g.len(),
{
    if g.len() > 0 {
        lemma_no_tiles(g.drop_last());
        lemma_empty_row(g.last());
    }
}

proof fn lemma_empty_row(row: Seq<u32>)
    requires
        forall|j: int| 0 <= j < row.len() ==> #[trigger] row[j] == 0,
    ensures
        tiles(row).len() == 0,
    decreases row.len(),
{
    if row.len() > 0 {
        lemma_empty_row(row.drop_last());
    }
}

impl Game {
    /// The board's dimensions are the game's.
    pub open spec fn wf(&self) -> bool {
        &&& self.board.wf()
        &&& self.board.width == self.width
        &&& self.board.height == self.height
    }

    /// Some tile holds the goal value.
    pub open spec fn is_won(&self) -> bool {
        has_value(self.board.cells(), self.width as nat, self.height as nat, self.goal)
    }

    /// The board is full and the goal has not been reached.
    pub open spec fn is_lost(&self) -> bool {
        !self.is_won() && !has_value(self.board.cells(), self.width as nat, self.height as nat, 0)
    }

    /// `next` is what a move in direction `d` makes of this game: an unchanged
    /// board leaves the game as it is; a changed one earns the move's points
    /// and gets one new tile on one of the cells the move left empty.
    pub open spec fn move_result(self, d: Direction, next: Game) -> bool {
        let after = self.board.after(d);
        &&& next.wf()
        &&& next.goal == self.goal
        &&& next.width == self.width
        &&& next.height == self.height
        &&& if after == self.board.cells() {
            next == self
        } else {
            &&& next.score == capped(self.score + self.board.score_of(d))
            &&& next.board.updated
            &&& exists|r: int, c: int, v: u32|
                0 <= r < self.height && 0 <= c < self.width && after[r][c] == 0 && (v == LOW_BLOCK
                    || v == HIGH_BLOCK) && next.board.cells() == #[trigger] set_cell(
                    after,
                    r,
                    c,
                    v,
                )
        }
    }

    /// A new game: an empty board of the given size with two tiles of value
    /// 2 or 4 (one, on a board of a single cell).
    pub fn new(goal: u32, width: usize, height: usize) -> (r: Game)
        requires
            width >= 1,
            height >= 1,
        ensures
            r.wf(),
            r.goal == goal,
            r.width == width,
            r.height == height,
            r.score == 0,
            !r.board.updated,
            tile_count(r.board.cells()) == if width * height >= 2 {
                2nat
            } else {
                1nat
            },
            forall|i: int, j: int|
                0 <= i < height && 0 <= j < width ==> (#[trigger] r.board.cells()[i][j] == 0
                    || r.board.cells()[i][j] == LOW_BLOCK || r.board.cells()[i][j] == HIGH_BLOCK),
    {
        let empty = Board::new(width, height);
        proof {
            lemma_no_tiles(empty.cells());
            assert(has_value(empty.cells(), width as nat, height as nat, 0)) by {
                assert(empty.cells()[0][0] == 0);
            }
        }
        let first = Game::put_new_block(empty);
        let ghost g1 = first.cells();
        proof {
            let (r, c, v) = choose|r: int, c: int, v: u32|
                0 <= r < height && 0 <= c < width && empty.cells()[r][c] == 0 && (v == LOW_BLOCK
                    || v == HIGH_BLOCK) && first.cells() == #[trigger] set_cell(
                    empty.cells(),
                    r,
                    c,
                    v,
                );
            lemma_spawn_adds_one(empty.cells(), width as nat, height as nat, r, c, v);
            if width * height >= 2 {
                let (r2, c2) = if width >= 2 {
                    (r, if c == 0 {
                        1int
                    } else {
                        0int
                    })
                } else {
                    assert(height >= 2) by (nonlinear_arith)
                        requires
                            width * height >= 2,
                            width < 2,
                    ;
                    (if r == 0 {
                        1int
                    } else {
                        0int
                    }, c)
                };
                assert(g1[r2][c2] == 0);
            } else {
                assert(width == 1 && height == 1) by (nonlinear_arith)
                    requires
                        width * height < 2,
                        width >= 1,
                        height >= 1,
                ;
                assert forall|i: int, j: int|
                    0 <= i < height && 0 <= j < width implies #[trigger] g1[i][j] != 0 by {
                    assert(i == r && j == c);
                }
            }
        }
        let board = Game::put_new_block(first);
        proof {
            if width * height >= 2 {
                let (r, c, v) = choose|r: int, c: int, v: u32|
                    0 <= r < height && 0 <= c < width && g1[r][c] == 0 && (v == LOW_BLOCK || v
                        == HIGH_BLOCK) && board.cells() == #[trigger] set_cell(g1, r, c, v);
                lemma_spawn_adds_one(g1, width as nat, height as nat, r, c, v);
            }
        }
        Game { goal, board, width, height, score: 0 }
    }

    /// Puts a tile of value 2 or 4 on an empty cell picked at random; a full
    /// board comes back unchanged.
    pub fn put_new_block(board: Board) -> (r: Board)
        requires
            board.wf(),
        ensures
            if has_value(board.cells(), board.width as nat, board.height as nat, 0) {
                spawned(board, r)
            } else {
                r == board
            },
    {
        match board.pick_empty_index() {
            Some((row, col)) => {
                let value = block_value(draw_ratio(HIGH_BLOCK_ODDS, HIGH_BLOCK_OUT_OF));
                let ghost before = board;
                let r = board.put_new_block(row, col, value);
                assert(spawned(before, r)) by {
                    assert(r.cells() == set_cell(before.cells(), row as int, col as int, value));
                }
                r
            },
            None => board,
        }
    }

    /// Whether some tile holds the goal value.
    pub fn win(&self) -> (r: bool)
        requires
            self.wf(),
        ensures
            r == self.is_won(),
    {
        self.board.has_block_with(self.goal)
    }

    /// Whether the board is full while the goal has not been reached.
    pub fn lose(&self) -> (r: bool)
        requires
            self.wf(),
        ensures
            r == self.is_lost(),
    {
        !self.win() && !self.board.has_empty_block()
    }

    /// Makes a move in direction `dir`. When it changes the board, its points
    /// are added to the score and one new tile is spawned; otherwise nothing
    /// changes.
    pub fn apply_move(&mut self, dir: Direction)
        requires
            old(self).wf(),
            old(self).board.tiles_fit(),
        ensures
            old(self).move_result(dir, *final(self)),
    {
        let (board, delta) = self.board.transition(dir);
        if board.updated {
            let ghost w = self.width as nat;
            let ghost h = self.height as nat;
            proof {
                lemma_changed_move_has_room(self.board.cells(), dir, w, h);
                lemma_lines_score_nonneg(self.board.cells(), dir, w, h, crate::board::line_count(dir, w, h));
                lemma_capped_add(self.score as int, self.board.score_of(dir));
            }
            self.score = self.score.saturating_add(delta);
            self.board = Game::put_new_block(board);
        }
    }

    /// Moves up.
    pub fn move_up(&mut self)
        requires
            old(self).wf(),
            old(self).board.tiles_fit(),
        ensures
            old(self).move_result(Direction::Up, *final(self)),
    {
        self.apply_move(Direction::Up)
    }

    /// Moves down.
    pub fn move_down(&mut self)
        requires
            old(self).wf(),
            old(self).board.tiles_fit(),
        ensures
            old(self).move_result(Direction::Down, *final(self)),
    {
        self.apply_move(Direction::Down)
    }

    /// Moves left.
    pub fn move_left(&mut self)
        requires
            old(self).wf(),
            old(self).board.tiles_fit(),
        ensures
            old(self).move_result(Direction::Left, *final(self)),
    {
        self.apply_move(Direction::Left)
    }

    /// Moves right.
    pub fn move_right(&mut self)
        requires
            old(self).wf(),
            old(self).board.tiles_fit(),
        ensures
            old(self).move_result(Direction::Right, *final(self)),
    {
        self.apply_move(Direction::Right)
    }

    /// Handles one command of an interactive session and says whether the
    /// session goes on. `Quit` ends it. A move is made only while the game is
    /// neither won nor lost and every tile can still be doubled; otherwise it
    /// is ignored.
    pub fn step(&mut self, command: Command) -> (keep_going: bool)
        requires
            old(self).wf(),
        ensures
            keep_going == (command != Command::Quit),
            match command {
                Command::Quit => *final(self) == *old(self),
                Command::Move(d) => if old(self).is_won() || old(self).is_lost()
                    || !old(self).board.tiles_fit() {
                    *final(self) == *old(self)
                } else {
                    old(self).move_result(d, *final(self))
                },
            },
    {
        match command {
            Command::Quit => false,
            Command::Move(d) => {
                if !self.win() && !self.lose() && self.board.all_tiles_fit() {
                    self.apply_move(d);
                }
                true
            },
        }
    }
}

/// Win precedence: a full board that holds the goal value is won, not lost.
pub proof fn lemma_win_precedence(game: Game)
    requires
        game.wf(),
        !has_value(game.board.cells(), game.width as nat, game.height as nat, 0),
        has_value(game.board.cells(), game.width as nat, game.height as nat, game.goal),
    ensures
        game.is_won(),
        !game.is_lost(),
{
}

/// After a move that changes the board, the game holds exactly one tile more
/// than the moved board, on a cell that the move left empty.
pub proof fn lemma_spawn_after_move(before: Game, d: Direction, after: Game)
    requires
        before.wf(),
        before.move_result(d, after),
        before.board.after(d) != before.board.cells(),
    ensures
        tile_count(after.board.cells()) == tile_count(before.board.after(d)) + 1,
        exists|r: int, c: int|
            0 <= r < before.height && 0 <= c < before.width && before.board.after(d)[r][c] == 0
                && #[trigger] after.board.cells()[r][c] != 0,
{
    let m = before.board.after(d);
    let (r, c, v) = choose|r: int, c: int, v: u32|
        0 <= r < before.height && 0 <= c < before.width && m[r][c] == 0 && (v == LOW_BLOCK || v
            == HIGH_BLOCK) && after.board.cells() == #[trigger] set_cell(m, r, c, v);
    lemma_spawn_adds_one(m, before.width as nat, before.height as nat, r, c, v);
    assert(after.board.cells()[r][c] == v);
}

} // verus!
