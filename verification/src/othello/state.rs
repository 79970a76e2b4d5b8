//! Players, game mode and AI difficulty.

use vstd::prelude::*;

verus! {

/// Game mode: two people, or a person (Black) against the AI (White).
#[derive(Clone, Copy, PartialEq, Eq, Structural, Debug)]
pub enum GameMode {
    PvP,
    PvAI,
}

/// Stone colour, and the player who owns it.
#[derive(Clone, Copy, PartialEq, Eq, Structural, Debug, Hash)]
pub enum Player {
    Black,
    White,
}

impl Player {
    pub open spec fn other(self) -> Player {
        match self {
            Player::Black => Player::White,
            Player::White => Player::Black,
        }
    }

    pub fn opponent(self) -> (r: Player)
        ensures
            r == self.other(),
            r != self,
    {
        match self {
            Player::Black => Player::White,
            Player::White => Player::Black,
        }
    }
}

/// Whose turn it is.
#[derive(Debug)]
pub struct CurrentTurn(pub Player);

/// Final stone counts.
#[derive(Debug)]
pub struct GameResult {
    pub black_score: u32,
    pub white_score: u32,
}

impl GameResult {
    /// The side with more stones, or `None` for a draw.
    pub fn winner(&self) -> (w: Option<Player>)
        ensures
            w == if self.black_score > self.white_score {
                Some(Player::Black)
            } else if self.white_score > self.black_score {
                Some(Player::White)
            } else {
                None
            },
    {
        if self.black_score > self.white_score {
            Some(Player::Black)
        } else if self.white_score > self.black_score {
            Some(Player::White)
        } else {
            None
        }
    }
}

/// Strength of the AI.
#[derive(Clone, Copy, PartialEq, Eq, Structural, Debug)]
pub enum AiDifficulty {
    Easy,
    Normal,
    Hard,
}

impl AiDifficulty {
    pub open spec fn plies(self) -> int {
        match self {
            AiDifficulty::Easy => 2,
            AiDifficulty::Normal => 4,
            AiDifficulty::Hard => 6,
        }
    }

    /// Search depth in plies.
    pub fn depth(self) -> (d: u8)
        ensures
            d == self.plies(),
    {
        match self {
            AiDifficulty::Easy => 2,
            AiDifficulty::Normal => 4,
            AiDifficulty::Hard => 6,
        }
    }

    /// Name shown in the menu.
    pub fn label(self) -> (s: &'static str)
        ensures
            self == AiDifficulty::Easy ==> s@ == "쉬움"@,
            self == AiDifficulty::Normal ==> s@ == "보통"@,
            self == AiDifficulty::Hard ==> s@ == "어려움"@,
    {
        match self {
            AiDifficulty::Easy => "쉬움",
            AiDifficulty::Normal => "보통",
            AiDifficulty::Hard => "어려움",
        }
    }
}

impl Default for AiDifficulty {
    fn default() -> (d: AiDifficulty)
        ensures
            d == AiDifficulty::Normal,
    {
        AiDifficulty::Normal
    }
}

} // verus!
