//! The board as the player fills it in: rows of tiles, each with a letter and
//! the feedback that the puzzle gave for it.

use vstd::prelude::*;

verus! {

/// Number of tiles in a row of a fresh board.
pub const ROW_WIDTH: usize = 5;

/// The feedback for one tile.
#[derive(Copy, Clone, Debug, PartialEq, Eq, Structural)]
pub enum TileMode {
    /// The letter stands at this position.
    Correct,
    /// The letter is not in the word, or not as often as it was guessed.
    Absent,
    /// The letter is in the word, at another position.
    Present,
}

impl TileMode {
    /// The mode that follows this one when the player toggles a tile: present,
    /// correct, absent, and present again.
    pub open spec fn next(self) -> TileMode {
        match self {
            TileMode::Present => TileMode::Correct,
            TileMode::Correct => TileMode::Absent,
            TileMode::Absent => TileMode::Present,
        }
    }

    /// Toggles the mode of the current tile
    pub fn toggle(self) -> (mode: Self)
        ensures
            mode == self.next(),
    {
        match self {
            TileMode::Present => TileMode::Correct,
            TileMode::Correct => TileMode::Absent,
            TileMode::Absent => TileMode::Present,
        }
    }

    /// How many characters the input field of a tile with this mode takes: one
    /// where the letter is settled, ten otherwise.
    pub fn max_length(self) -> (n: usize)
        ensures
            n == if self == TileMode::Correct {
                1usize
            } else {
                10usize
            },
    {
        match self {
            TileMode::Correct => 1,
            _ => 10,
        }
    }

    /// The name of the mode in lowercase, as style sheets know it.
    pub fn name(&self) -> (s: &'static str)
        ensures
            s@ == match *self {
                TileMode::Correct => "correct"@,
                TileMode::Absent => "absent"@,
                TileMode::Present => "present"@,
            },
    {
        match self {
            TileMode::Correct => "correct",
            TileMode::Absent => "absent",
            TileMode::Present => "present",
        }
    }

    /// The name of the mode as an owned string.
    pub fn to_string(&self) -> (s: String)
        ensures
            s@ == match *self {
                TileMode::Correct => "correct"@,
                TileMode::Absent => "absent"@,
                TileMode::Present => "present"@,
            },
    {
        self.name().to_owned()
    }
}

/// Toggling a tile three times brings its mode back, and never leaves it as it
/// was.
pub proof fn lemma_toggle_cycle(mode: TileMode)
    ensures
        mode.next().next().next() == mode,
        mode.next() != mode,
{
}

/// One tile of a row: the feedback, and the letter if one was entered.
#[derive(Copy, Clone, Debug, PartialEq, Eq, Structural)]
pub struct TileState {
    pub mode: TileMode,
    pub char: Option<char>,
}

/// One row of the board: a guess with its feedback.
#[derive(Debug)]
pub struct Board {
    pub tiles: Vec<TileState>,
}

/// The tile of a fresh row: no letter, marked absent.
pub open spec fn blank_tile() -> TileState {
    TileState { mode: TileMode::Absent, char: None }
}

impl Clone for Board {
    fn clone(&self) -> (board: Self)
        ensures
            board.tiles@ == self.tiles@,
    {
        let mut tiles: Vec<TileState> = Vec::new();
        let mut i: usize = 0;
        while i < self.tiles.len()
            invariant
                i <= self.tiles@.len(),
                tiles@ == self.tiles@.take(i as int),
            decreases self.tiles@.len() - i,
        {
            tiles.push(self.tiles[i]);
            assert(self.tiles@.take(i + 1) =~= self.tiles@.take(i as int).push(
                self.tiles@[i as int],
            ));
            i += 1;
        }
        assert(self.tiles@.take(i as int) =~= self.tiles@);
        Board { tiles }
    }
}

impl Default for Board {
    /// A fresh row of five blank tiles.
    fn default() -> (board: Self)
        ensures
            board.tiles@.len() == ROW_WIDTH,
            forall|i: int| 0 <= i < ROW_WIDTH ==> #[trigger] board.tiles@[i] == blank_tile(),
    {
        let mut tiles: Vec<TileState> = Vec::new();
        let mut i: usize = 0;
        while i < ROW_WIDTH
            invariant
                i <= ROW_WIDTH,
                tiles@.len() == i,
                forall|j: int| 0 <= j < i ==> #[trigger] tiles@[j] == blank_tile(),
            decreases ROW_WIDTH - i,
        {
            tiles.push(TileState { mode: TileMode::Absent, char: None });
            i += 1;
        }
        Board { tiles }
    }
}

} // verus!
