//! The stages of a game, and how key presses move between them.

use vstd::prelude::*;

verus! {

/// The stage that the game is in.
#[derive(Clone, Copy, PartialEq, Eq, Structural, Hash, Debug)]
pub enum AppState {
    /// A board is being made.
    Load,
    /// The board is being thrown away and made anew.
    Reload,
    /// A board is in play.
    InGame,
    /// Play is halted, the board stays.
    Pause,
    /// No board is there.
    Out,
}

impl Default for AppState {
    fn default() -> (state: AppState)
        ensures
            state == AppState::Load,
    {
        AppState::Load
    }
}

/// The keys that were pressed since the stage was last looked at.
#[derive(Clone, Copy, PartialEq, Eq, Structural, Debug)]
pub struct KeyPresses {
    /// The key that clears the board away.
    pub clear: bool,
    /// The key that makes a board, or makes it anew.
    pub generate: bool,
    /// The key that halts and resumes play.
    pub pause: bool,
}

impl AppState {
    /// The stage to go to, if any.
    ///
    /// Making a board ends in play as soon as the board is there. From play
    /// the pause key halts, the generate key makes the board anew and the
    /// clear key clears it away; where several are pressed at once the pause
    /// key wins over the generate key, and that over the clear key. The pause
    /// key resumes halted play, and without a board the generate key makes one.
    pub open spec fn successor(self, board_ready: bool, keys: KeyPresses) -> Option<AppState> {
        match self {
            AppState::Load | AppState::Reload => if board_ready {
                Some(AppState::InGame)
            } else {
                None
            },
            AppState::InGame => if keys.pause {
                Some(AppState::Pause)
            } else if keys.generate {
                Some(AppState::Reload)
            } else if keys.clear {
                Some(AppState::Out)
            } else {
                None
            },
            AppState::Pause => if keys.pause {
                Some(AppState::InGame)
            } else {
                None
            },
            AppState::Out => if keys.generate {
                Some(AppState::Load)
            } else {
                None
            },
        }
    }

    /// Decides the stage to go to on the keys pressed, given whether a board
    /// is there. `None` means to stay.
    pub fn next_state(self, board_ready: bool, keys: KeyPresses) -> (next: Option<AppState>)
        ensures
            next == self.successor(board_ready, keys),
    {
        let mut next: Option<AppState> = None;
        if (self == AppState::Load || self == AppState::Reload) && board_ready {
            next = Some(AppState::InGame);
        }
        if keys.clear {
            if self == AppState::InGame {
                next = Some(AppState::Out);
            }
        }
        if keys.generate {
            if self == AppState::InGame {
                next = Some(AppState::Reload);
            } else if self == AppState::Out {
                next = Some(AppState::Load);
            }
        }
        if keys.pause {
            if self == AppState::InGame {
                next = Some(AppState::Pause);
            } else if self == AppState::Pause {
                next = Some(AppState::InGame);
            }
        }
        next
    }
}

} // verus!
