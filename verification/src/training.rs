use vstd::prelude::*;
use crate::controller::GameController;
use crate::pieces::{Color, opponent};
use crate::rules::{attacked, king_square, legal_moves};

verus! {

/// How a self-play game ended, for labelling training positions.
#[derive(Debug, Clone, Copy, PartialEq, Eq, Structural)]
pub enum GameResult {
    WhiteWin,
    BlackWin,
    Draw,
}

/// The result a game stands at: with no legal move, a side in check has
/// lost and a side not in check is stalemated; a game still going counts
/// as a draw.
pub fn determine_game_result(controller: &GameController) -> (r: GameResult)
    requires
        controller.game.wf(),
        king_square(controller.game.state().board, controller.game.state().side) < 64,
    ensures
        r == (if legal_moves(controller.game.state()).len() == 0 && attacked(
            controller.game.state().board,
            king_square(controller.game.state().board, controller.game.state().side),
            opponent(controller.game.state().side),
        ) {
            if controller.game.state().side == Color::White {
                GameResult::BlackWin
            } else {
                GameResult::WhiteWin
            }
        } else {
            GameResult::Draw
        }),
{
    let (move_count, _) = controller.game.get_moves();
    if move_count == 0 {
        let side = controller.game.side();
        if controller.game.is_king_in_check(side) {
            match side {
                Color::White => GameResult::BlackWin,
                Color::Black => GameResult::WhiteWin,
            }
        } else {
            GameResult::Draw
        }
    } else {
        GameResult::Draw
    }
}

} // verus!
