//! One game: a board, whose turn it is, and whether the game is over.

use vstd::prelude::*;

use crate::board::{
    is_legal, legal_positions, opposite_of, played, pos_of, BoardModel, Cell,
};

verus! {

/// `color` has at least one legal destination on `s`.
pub open spec fn can_play(s: Seq<Cell>, color: Cell) -> bool {
    legal_positions(s, color).len() > 0
}

/// The player to move may play at `(x, y)`: the game is not over and the cell is on the
/// board and a legal destination for that player.
pub open spec fn move_allowed(g: GameSession, x: int, y: int) -> bool {
    !g.over() && 0 <= x < 8 && 0 <= y < 8 && is_legal(g.cells(), g.player(), pos_of(x, y))
}

/// `after` is `before` once its player to move has played at `(x, y)`: the capture set
/// has flipped; the turn passes to the opponent if the opponent can play, stays with the
/// mover if only the mover can, and the game is over if neither can.
pub open spec fn move_made(before: GameSession, after: GameSession, x: int, y: int) -> bool {
    let cells = played(before.cells(), before.player(), pos_of(x, y));
    let mover = before.player();
    let opponent = opposite_of(mover);
    &&& after.wf()
    &&& after.cells() == cells
    &&& can_play(cells, opponent) ==> after.player() == opponent && !after.over()
    &&& !can_play(cells, opponent) && can_play(cells, mover) ==> after.player() == mover
        && !after.over()
    &&& !can_play(cells, opponent) && !can_play(cells, mover) ==> after.player() == mover
        && after.over()
}

/// A game between Black and White, Black moving first.
#[derive(Clone, Debug)]
pub struct GameSession {
    board: BoardModel,
    current_player: Cell,
    game_over: bool,
}

impl GameSession {
    /// The board has its 64 cells and the player to move is Black or White.
    pub closed spec fn wf(&self) -> bool {
        self.board.wf() && self.current_player != Cell::Empty
    }

    /// The cells of the board.
    pub closed spec fn cells(&self) -> Seq<Cell> {
        self.board@
    }

    /// The player to move (or who moved last, once the game is over).
    pub closed spec fn player(&self) -> Cell {
        self.current_player
    }

    /// Whether the game has ended.
    pub closed spec fn over(&self) -> bool {
        self.game_over
    }

    /// A game on the opening position, Black to move.
    pub fn new() -> (r: Self)
        ensures
            r.wf(),
            r.cells() == crate::board::initial_cells(),
            r.player() == Cell::Black,
            !r.over(),
    {
        GameSession { board: BoardModel::new(), current_player: Cell::Black, game_over: false }
    }

    /// A game continuing from `board`, `current_player` to move.
    pub fn with_board(board: BoardModel, current_player: Cell) -> (r: Self)
        requires
            board.wf(),
            current_player != Cell::Empty,
        ensures
            r.wf(),
            r.cells() == board@,
            r.player() == current_player,
            !r.over(),
    {
        GameSession { board, current_player, game_over: false }
    }

    /// The player to move.
    pub fn current_player(&self) -> (r: Cell)
        ensures
            r == self.player(),
    {
        self.current_player
    }

    /// Whether the game has ended.
    pub fn is_over(&self) -> (r: bool)
        ensures
            r == self.over(),
    {
        self.game_over
    }

    /// The board.
    pub fn board(&self) -> (r: &BoardModel)
        ensures
            r@ == self.cells(),
            self.wf() ==> r.wf(),
    {
        &self.board
    }

    /// The legal destinations of the player to move, in increasing order.
    pub fn legal_moves_for(&self) -> (r: Vec<usize>)
        requires
            self.wf(),
        ensures
            r@ == legal_positions(self.cells(), self.player()),
    {
        self.board.get_possibilities(self.current_player)
    }

    /// The number of Black stones and the number of White stones.
    pub fn score(&self) -> (r: (usize, usize))
        requires
            self.wf(),
        ensures
            r.0 == crate::board::count_of(self.cells(), Cell::Black, 64),
            r.1 == crate::board::count_of(self.cells(), Cell::White, 64),
    {
        self.board.score()
    }

    /// Whether `color` has a legal destination.
    fn can_play(&self, color: Cell) -> (r: bool)
        requires
            self.board.wf(),
            color != Cell::Empty,
        ensures
            r == can_play(self.board@, color),
    {
        self.board.get_possibilities(color).len() > 0
    }

    /// The player to move plays at `(x, y)`. Rejected, with nothing changed, once the game
    /// is over or when the cell is not a legal destination of the player to move.
    /// Otherwise the move is made; the turn passes to the opponent if the opponent can
    /// play, stays with the mover if only the mover can, and the game is over if neither
    /// can.
    pub fn apply_move(&mut self, x: usize, y: usize) -> (r: Result<(), ()>)
        requires
            old(self).wf(),
        ensures
            final(self).wf(),
            r is Ok <==> move_allowed(*old(self), x as int, y as int),
            r is Err ==> *final(self) == *old(self),
            r is Ok ==> move_made(*old(self), *final(self), x as int, y as int),
    {
        if self.game_over {
            return Err(());
        }
        let mover = self.current_player;
        match self.board.set_cell(x, y, mover) {
            Err(()) => Err(()),
            Ok(()) => {
                let opponent = mover.opposite();
                if self.can_play(opponent) {
                    self.current_player = opponent;
                } else if !self.can_play(mover) {
                    self.game_over = true;
                }
                Ok(())
            },
        }
    }
}

} // verus!
