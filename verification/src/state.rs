//! The state of the board between two events, and what each event does to it.

use crate::model::{blank_tile, Board, TileMode, TileState, ROW_WIDTH};
use crate::worker::{WorkerInput, WorkerOutput};
use vstd::prelude::*;

verus! {

/// What can happen to the board.
pub enum BoardMsg {
    /// The player toggles the feedback of the tile at this place of the last
    /// row.
    Toggle(usize),
    /// The player enters a letter at this place of the last row, or clears it.
    Change(usize, Option<char>),
    /// The player asks for a new row.
    AddBoard,
    /// Suggestions are to be asked for.
    RunWorker,
    /// Suggestions have arrived.
    WorkerMsg(WorkerOutput),
}

/// What can happen to a tile.
pub enum TileMsg {
    /// The player toggles the feedback.
    Toggle,
    /// The player enters a letter, or clears it.
    Change(Option<char>),
}

/// What a tile passes on to the board: the event if the player may work on
/// the tile, nothing otherwise.
pub fn tile_update(active: bool, msg: TileMsg) -> (passed: Option<TileMsg>)
    ensures
        passed == if active {
            Some(msg)
        } else {
            None
        },
{
    if active {
        Some(msg)
    } else {
        None
    }
}

/// What is to be done outside after an event.
pub enum Effect {
    /// Nothing.
    Nothing,
    /// `BoardMsg::RunWorker` is to be sent to the board itself.
    Schedule,
    /// The request is to be sent to the worker.
    Send(WorkerInput),
}

/// The outcome of an event: whether the board is to be drawn again, and what
/// is to be done outside.
pub struct Step {
    pub redraw: bool,
    pub effect: Effect,
}

/// The tiles of each board.
pub open spec fn rows_of(boards: Seq<Board>) -> Seq<Seq<TileState>> {
    boards.map_values(|b: Board| b.tiles@)
}

/// The row with the feedback of the tile at place `i` toggled.
pub open spec fn toggled(row: Seq<TileState>, i: int) -> Seq<TileState> {
    row.update(i, TileState { mode: row[i].mode.next(), char: row[i].char })
}

/// The row with the letter of the tile at place `i` replaced.
pub open spec fn changed(row: Seq<TileState>, i: int, entry: Option<char>) -> Seq<TileState> {
    row.update(i, TileState { mode: row[i].mode, char: entry })
}

/// Every tile of the row holds a letter.
pub open spec fn filled(row: Seq<TileState>) -> bool {
    forall|i: int| 0 <= i < row.len() ==> (#[trigger] row[i]).char is Some
}

/// The tile that a new row takes over from the tile above it: the tile itself
/// where it is marked correct, a blank tile otherwise.
pub open spec fn carried_tile(t: TileState) -> TileState {
    if t.mode == TileMode::Correct {
        t
    } else {
        blank_tile()
    }
}

/// The row that follows a filled row.
pub open spec fn carried(row: Seq<TileState>) -> Seq<TileState> {
    row.map_values(|t: TileState| carried_tile(t))
}

/// What an event does to the board: `after` and `step` are what follows when
/// the board `before` takes the event.
///
/// A toggle or a change alters the one tile of the last row and has new
/// suggestions asked for. A new row is added only under a last row that is
/// filled; it takes over the tiles marked correct. A request carries a copy
/// of the rows. Arrived suggestions replace those held.
pub open spec fn follows(before: Model, msg: BoardMsg, after: Model, step: Step) -> bool {
    match msg {
        BoardMsg::Toggle(index) => {
            &&& after.rows() == before.rows().update(
                before.rows().len() - 1,
                toggled(before.last_row(), index as int),
            )
            &&& after.suggested() == before.suggested()
            &&& step.redraw
            &&& step.effect is Schedule
        },
        BoardMsg::Change(index, entry) => {
            &&& after.rows() == before.rows().update(
                before.rows().len() - 1,
                changed(before.last_row(), index as int, entry),
            )
            &&& after.suggested() == before.suggested()
            &&& step.redraw
            &&& step.effect is Schedule
        },
        BoardMsg::AddBoard => {
            &&& after.rows() == if filled(before.last_row()) {
                before.rows().push(carried(before.last_row()))
            } else {
                before.rows()
            }
            &&& after.suggested() == before.suggested()
            &&& step.redraw == filled(before.last_row())
            &&& step.effect is Nothing
        },
        BoardMsg::RunWorker => {
            &&& after.rows() == before.rows()
            &&& after.suggested() == before.suggested()
            &&& !step.redraw
            &&& step.effect matches Effect::Send(input)
            &&& rows_of(input.boards@) == before.rows()
        },
        BoardMsg::WorkerMsg(output) => {
            &&& after.rows() == before.rows()
            &&& after.suggested() == output.values@
            &&& step.redraw
            &&& step.effect is Nothing
        },
    }
}

/// The board of the player: the rows, the oldest first and never none, and
/// the suggestions that arrived last.
pub struct Model {
    boards: Vec<Board>,
    outputs: Vec<String>,
}

impl Model {
    /// The board holds at least one row. Every board that `create` makes and
    /// `update` alters does.
    pub closed spec fn wf(&self) -> bool {
        self.boards@.len() >= 1
    }

    /// The rows of the board, the oldest first.
    pub closed spec fn rows(&self) -> Seq<Seq<TileState>> {
        rows_of(self.boards@)
    }

    /// The suggestions that arrived last.
    pub closed spec fn suggested(&self) -> Seq<String> {
        self.outputs@
    }

    /// The last row, which is the one that the player works on.
    pub open spec fn last_row(&self) -> Seq<TileState> {
        self.rows().last()
    }

    /// The event is one that the board can take: a toggle or a change names a
    /// place on the last row.
    pub open spec fn accepts(&self, msg: BoardMsg) -> bool {
        match msg {
            BoardMsg::Toggle(index) => index < self.last_row().len(),
            BoardMsg::Change(index, _) => index < self.last_row().len(),
            _ => true,
        }
    }

    /// A board of one fresh row, without suggestions.
    pub fn create() -> (model: Self)
        ensures
            model.wf(),
            model.rows().len() == 1,
            model.rows()[0] == Seq::new(ROW_WIDTH as nat, |i: int| blank_tile()),
            model.suggested().len() == 0,
    {
        let mut boards: Vec<Board> = Vec::new();
        let board = Board::default();
        assert(board.tiles@ =~= Seq::new(ROW_WIDTH as nat, |i: int| blank_tile()));
        boards.push(board);
        Model { boards, outputs: Vec::new() }
    }

    /// The rows of the board, the oldest first.
    pub fn boards(&self) -> (boards: &Vec<Board>)
        ensures
            rows_of(boards@) == self.rows(),
            self.wf() ==> boards@.len() >= 1,
    {
        &self.boards
    }

    /// The suggestions that arrived last.
    pub fn outputs(&self) -> (outputs: &Vec<String>)
        ensures
            outputs@ == self.suggested(),
    {
        &self.outputs
    }

    /// Whether the player may work on the tile at place `index` of the last
    /// row: not where the row above has the tile marked correct.
    pub fn is_active(&self, index: usize) -> (active: bool)
        requires
            self.rows().len() > 1 ==> index < self.rows()[self.rows().len() - 2].len(),
        ensures
            active == !(self.rows().len() > 1 && self.rows()[self.rows().len() - 2][index as int].mode
                == TileMode::Correct),
    {
        let n = self.boards.len();
        if n > 1 {
            assert(self.rows()[n - 2] == self.boards@[n - 2].tiles@);
            match self.boards[n - 2].tiles[index].mode {
                TileMode::Correct => false,
                _ => true,
            }
        } else {
            true
        }
    }

    /// Takes the event as `update` does if the board accepts it; otherwise
    /// leaves the board as it is and gives nothing.
    pub fn try_update(&mut self, msg: BoardMsg) -> (step: Option<Step>)
        ensures
            step is Some <==> old(self).wf() && old(self).accepts(msg),
            step is Some ==> final(self).wf(),
            step is None ==> final(self).rows() == old(self).rows() && final(self).suggested()
                == old(self).suggested(),
            step matches Some(taken) ==> follows(*old(self), msg, *final(self), taken),
    {
        if self.boards.len() == 0 {
            return None;
        }
        let width: usize = self.boards[self.boards.len() - 1].tiles.len();
        assert(self.last_row() == self.boards@[self.boards@.len() - 1].tiles@);
        let accepted = match &msg {
            BoardMsg::Toggle(index) => *index < width,
            BoardMsg::Change(index, _) => *index < width,
            _ => true,
        };
        if accepted {
            Some(self.update(msg))
        } else {
            None
        }
    }

    /// Takes an event and says what follows from it.
    pub fn update(&mut self, msg: BoardMsg) -> (step: Step)
        requires
            old(self).wf(),
            old(self).accepts(msg),
        ensures
            final(self).wf(),
            follows(*old(self), msg, *final(self), step),
    {
        let last: usize = self.boards.len() - 1;
        assert(self.rows()[last as int] == self.boards@[last as int].tiles@);
        match msg {
            BoardMsg::Toggle(index) => {
                let mut board = self.boards[last].clone();
                let tile: TileState = board.tiles[index];
                board.tiles.set(index, TileState { mode: tile.mode.toggle(), char: tile.char });
                self.boards.set(last, board);
                assert(self.rows() =~= old(self).rows().update(
                    last as int,
                    toggled(old(self).last_row(), index as int),
                ));
                Step { redraw: true, effect: Effect::Schedule }
            },
            BoardMsg::Change(index, entry) => {
                let mut board = self.boards[last].clone();
                let tile: TileState = board.tiles[index];
                board.tiles.set(index, TileState { mode: tile.mode, char: entry });
                self.boards.set(last, board);
                assert(self.rows() =~= old(self).rows().update(
                    last as int,
                    changed(old(self).last_row(), index as int, entry),
                ));
                Step { redraw: true, effect: Effect::Schedule }
            },
            BoardMsg::AddBoard => {
                if is_filled(&self.boards[last]) {
                    let next = carry(&self.boards[last]);
                    self.boards.push(next);
                    assert(self.rows() =~= old(self).rows().push(carried(old(self).last_row())));
                    Step { redraw: true, effect: Effect::Nothing }
                } else {
                    Step { redraw: false, effect: Effect::Nothing }
                }
            },
            BoardMsg::RunWorker => {
                let boards = copy_boards(&self.boards);
                Step { redraw: false, effect: Effect::Send(WorkerInput { boards }) }
            },
            BoardMsg::WorkerMsg(output) => {
                self.outputs = output.values;
                Step { redraw: true, effect: Effect::Nothing }
            },
        }
    }
}

/// Tells whether every tile of the row holds a letter.
pub fn is_filled(board: &Board) -> (yes: bool)
    ensures
        yes == filled(board.tiles@),
{
    let mut i: usize = 0;
    while i < board.tiles.len()
        invariant
            i <= board.tiles@.len(),
            forall|j: int| 0 <= j < i ==> (#[trigger] board.tiles@[j]).char is Some,
        decreases board.tiles@.len() - i,
    {
        if board.tiles[i].char.is_none() {
            return false;
        }
        i += 1;
    }
    true
}

/// The row that follows the given row: its tiles marked correct, and blank
/// tiles in place of the others.
pub fn carry(board: &Board) -> (next: Board)
    ensures
        next.tiles@ == carried(board.tiles@),
{
    let mut tiles: Vec<TileState> = Vec::new();
    let mut i: usize = 0;
    while i < board.tiles.len()
        invariant
            i <= board.tiles@.len(),
            tiles@.len() == i,
            forall|j: int| 0 <= j < i ==> #[trigger] tiles@[j] == carried_tile(board.tiles@[j]),
        decreases board.tiles@.len() - i,
    {
        let tile: TileState = board.tiles[i];
        match tile.mode {
            TileMode::Correct => tiles.push(tile),
            _ => tiles.push(TileState { mode: TileMode::Absent, char: None }),
        }
        i += 1;
    }
    assert(tiles@ =~= carried(board.tiles@));
    Board { tiles }
}

/// A copy of the rows.
pub fn copy_boards(boards: &Vec<Board>) -> (copy: Vec<Board>)
    ensures
        rows_of(copy@) == rows_of(boards@),
{
    let mut copy: Vec<Board> = Vec::new();
    let mut i: usize = 0;
    while i < boards.len()
        invariant
            i <= boards@.len(),
            copy@.len() == i,
            forall|j: int| 0 <= j < i ==> (#[trigger] copy@[j]).tiles@ == boards@[j].tiles@,
        decreases boards@.len() - i,
    {
        copy.push(boards[i].clone());
        i += 1;
    }
    assert(rows_of(copy@) =~= rows_of(boards@));
    copy
}

} // verus!
