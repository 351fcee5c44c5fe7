//! The two sides of a game.

use vstd::prelude::*;

verus! {

/// One of the two sides of a game.
#[derive(Copy, Clone, PartialOrd, PartialEq, Eq, Structural, Debug)]
pub enum Player {
    Player1,
    Player2,
}

impl Player {
    /// The other side.
    pub open spec fn spec_opponent(self) -> Player {
        match self {
            Player::Player1 => Player::Player2,
            Player::Player2 => Player::Player1,
        }
    }

    /// Returns the other side.
    #[must_use]
    #[verifier::when_used_as_spec(spec_opponent)]
    pub fn opponent(self) -> (other: Self)
        ensures
            other == self.spec_opponent(),
    {
        if self == Self::Player1 {
            Self::Player2
        } else {
            Self::Player1
        }
    }

    /// Every player has exactly one opponent, who is somebody else, and the
    /// opponent of the opponent is the player again.
    pub proof fn lemma_opponent_is_involution(self)
        ensures
            self.opponent() != self,
            self.opponent().opponent() == self,
    {
    }
}

} // verus!
