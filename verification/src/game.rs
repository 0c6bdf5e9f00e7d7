//! The game lifecycle: the pre-game screen, the running playfield, and the
//! game-over screen, with the transitions between them.

use vstd::prelude::*;

use crate::board::{no_full_rows, rotate_rel, shift_rel, step_rel, Board, Input};

verus! {

/// The three phases of a game. Exactly one is active at a time: before the
/// first confirm, while a playfield is running, and after a game over with
/// the final score.
pub enum Game {
    Start,
    Play(Box<Board>),
    Over { score: usize },
}

impl Game {
    /// Well-formedness: while playing, the playfield is well formed and
    /// holds no full row (every full row is cleared in the tick that
    /// completes it).
    pub open spec fn wf(self) -> bool {
        match self {
            Game::Play(b) => b.wf() && no_full_rows(b.grid()),
            _ => true,
        }
    }

    /// Apply one input symbol. `Confirm` starts a 10 by 20 game from the
    /// start screen and returns to it from the game-over screen; while
    /// playing, every symbol but `Confirm` is forwarded to the playfield;
    /// everything else is ignored.
    pub fn input(&mut self, code: Input)
        requires
            old(self).wf(),
        ensures
            final(self).wf(),
            (match *old(self) {
                Game::Start => if code == Input::Confirm {
                    *final(self) matches Game::Play(b) && b.wf() && b.w() == 10 && b.h() == 20
                        && b.score == 0 && (forall|r: int, c: int|
                        0 <= r < 20 && 0 <= c < 10 ==> !(#[trigger] b.grid()[r][c]))
                } else {
                    *final(self) == *old(self)
                },
                Game::Play(b0) => *final(self) matches Game::Play(b1) && (match code {
                    Input::Up => *b1 == *b0,
                    Input::Down => exists|over: bool| step_rel(*b0, *b1, over),
                    Input::Left => shift_rel(*b0, *b1, -1),
                    Input::Right => shift_rel(*b0, *b1, 1),
                    Input::Rotate => rotate_rel(*b0, *b1),
                    Input::Confirm => *b1 == *b0,
                }),
                Game::Over { .. } => if code == Input::Confirm {
                    *final(self) == Game::Start
                } else {
                    *final(self) == *old(self)
                },
            }),
    {
        match self {
            Game::Start => {
                if code == Input::Confirm {
                    *self = Game::Play(Box::new(Board::new(10, 20)));
                }
            }
            Game::Play(board) => {
                board.input(code);
            }
            Game::Over { .. } => {
                if code == Input::Confirm {
                    *self = Game::Start;
                }
            }
        }
    }

    /// Advance one logic tick: outside of play nothing happens; while
    /// playing, the playfield steps, and a reported game over moves to the
    /// game-over screen carrying the final score.
    pub fn step(&mut self)
        requires
            old(self).wf(),
        ensures
            final(self).wf(),
            (match *old(self) {
                Game::Play(b0) => exists|b1: Board, over: bool|
                    {
                        &&& #[trigger] step_rel(*b0, b1, over)
                        &&& if over {
                            *final(self) == (Game::Over { score: b1.score })
                        } else {
                            *final(self) == Game::Play(Box::new(b1))
                        }
                    },
                _ => *final(self) == *old(self),
            }),
    {
        match self {
            Game::Start => {}
            Game::Play(board) => {
                let ghost b0 = **board;
                let over = board.step();
                let ghost b1 = **board;
                if over {
                    let score = board.score;
                    *self = Game::Over { score };
                    proof {
                        assert(step_rel(b0, b1, over));
                        assert(*self == (Game::Over { score: b1.score }));
                    }
                } else {
                    proof {
                        assert(step_rel(b0, b1, over));
                    }
                }
            }
            Game::Over { .. } => {}
        }
    }

    /// The final score while on the game-over screen, the running score
    /// while playing, zero before a game starts.
    pub fn score(&self) -> (s: usize)
        ensures
            (match *self {
                Game::Start => s == 0,
                Game::Play(b) => s == b.score,
                Game::Over { score } => s == score,
            }),
    {
        match self {
            Game::Start => 0,
            Game::Play(board) => board.score,
            Game::Over { score } => *score,
        }
    }
}

} // verus!
