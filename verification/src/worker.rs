//! From the board to suggestions: the inferences that the rows of a board
//! yield, and the words that a dictionary offers under them.

use crate::alphabet::{is_letter, is_lower, is_word, lemma_letter_index, lower, to_lower};
use crate::engine::{
    has_length, meets, partial_score, total_score, valid_words, views, Engine,
};
use crate::inference::{satisfies_all, Inference, InferenceKind};
use crate::model::{Board, TileMode, TileState, ROW_WIDTH};
use crate::rank::{key_of, keyed, rank, ranking_of, texts, Ranked};
use crate::theorems::lemma_filter_agree;
use vstd::prelude::*;

verus! {

/// The tile holds the letter `c`, case ignored, with the mode `m`.
pub open spec fn is_marked(t: TileState, c: char, m: TileMode) -> bool {
    t.char is Some && lower(t.char->0) == c && t.mode == m
}

/// Number of tiles among the first `n` of the row that hold the letter `c`
/// with the mode `m`.
pub open spec fn marked_upto(row: Seq<TileState>, c: char, m: TileMode, n: nat) -> nat
    decreases n,
{
    if n == 0 {
        0
    } else {
        marked_upto(row, c, m, (n - 1) as nat) + if is_marked(row[n - 1], c, m) {
            1nat
        } else {
            0nat
        }
    }
}

/// Number of tiles of the row that hold the letter `c` with the mode `m`.
pub open spec fn marked(row: Seq<TileState>, c: char, m: TileMode) -> nat {
    marked_upto(row, c, m, row.len())
}

/// What the feedback for one tile says of its letter at its position.
pub open spec fn tile_kind(m: TileMode) -> InferenceKind {
    match m {
        TileMode::Correct => InferenceKind::Correct,
        TileMode::Present => InferenceKind::Present,
        TileMode::Absent => InferenceKind::AbsentLocal,
    }
}

/// What a row says of the letter `c` in the whole word. Where no tile with
/// the letter is marked correct or present, the letter is absent. Otherwise
/// the tiles so marked are counted: the word holds the letter at least that
/// often, and exactly that often if a further tile with the letter is marked
/// absent.
pub open spec fn letter_kind(row: Seq<TileState>, c: char) -> InferenceKind {
    let hits = marked(row, c, TileMode::Correct) + marked(row, c, TileMode::Present);
    if hits == 0 {
        InferenceKind::AbsentGlobal
    } else if marked(row, c, TileMode::Absent) > 0 {
        InferenceKind::Count(hits as usize)
    } else {
        InferenceKind::AtLeast(hits as usize)
    }
}

/// The inference that the tile at position `i` yields for its own position.
pub open spec fn tile_inference(row: Seq<TileState>, i: int) -> Inference {
    Inference { c: lower(row[i].char->0), position: i as usize, kind: tile_kind(row[i].mode) }
}

/// The inference that the row yields for the letter of the tile at position
/// `i`.
pub open spec fn letter_inference(row: Seq<TileState>, i: int) -> Inference {
    Inference { c: lower(row[i].char->0), position: 0, kind: letter_kind(row, lower(row[i].char->0)) }
}

/// The tile at position `i` holds a letter, and `x` is the inference for that
/// tile.
pub open spec fn tile_yields(row: Seq<TileState>, i: int, x: Inference) -> bool {
    row[i].char is Some && x == tile_inference(row, i)
}

/// The tile at position `i` holds a letter, and `x` is the inference for that
/// letter in the whole row.
pub open spec fn letter_yields(row: Seq<TileState>, i: int, x: Inference) -> bool {
    row[i].char is Some && x == letter_inference(row, i)
}

/// One of the first `n` tiles of the row holds a letter, and `x` is the
/// inference for that tile.
pub open spec fn tiles_yield(row: Seq<TileState>, n: int, x: Inference) -> bool {
    exists|i: int| 0 <= i < n && #[trigger] tile_yields(row, i, x)
}

/// One of the first `n` tiles of the row holds a letter, and `x` is the
/// inference for that letter in the whole row.
pub open spec fn letters_yield(row: Seq<TileState>, n: int, x: Inference) -> bool {
    exists|i: int| 0 <= i < n && #[trigger] letter_yields(row, i, x)
}

/// The row yields the inference `x`: for one of its tiles that hold a letter,
/// `x` is the inference for the tile or for its letter. A tile without a
/// letter yields nothing.
pub open spec fn row_yields(row: Seq<TileState>, x: Inference) -> bool {
    tiles_yield(row, row.len() as int, x) || letters_yield(row, row.len() as int, x)
}

/// One of the first `n` boards yields the inference `x`.
pub open spec fn yields_upto(boards: Seq<Board>, n: int, x: Inference) -> bool {
    exists|b: int| 0 <= b < n && #[trigger] row_yields(boards[b].tiles@, x)
}

/// One of the boards yields the inference `x`.
pub open spec fn history_yields(boards: Seq<Board>, x: Inference) -> bool {
    yields_upto(boards, boards.len() as int, x)
}

/// The inferences that the boards yield, each once. Each board is read by
/// itself, and the order of the boards does not matter to what is yielded.
pub fn determine_inferences(boards: &[Board]) -> (inferences: Vec<Inference>)
    ensures
        inferences@.no_duplicates(),
        forall|x: Inference|
            #![trigger inferences@.contains(x)]
            inferences@.contains(x) <==> history_yields(boards@, x),
{
    let mut inferences: Vec<Inference> = Vec::new();
    let mut b: usize = 0;
    while b < boards.len()
        invariant
            b <= boards@.len(),
            inferences@.no_duplicates(),
            forall|x: Inference|
                #![trigger inferences@.contains(x)]
                inferences@.contains(x) <==> yields_upto(boards@, b as int, x),
        decreases boards@.len() - b,
    {
        let ghost gathered = inferences@;
        add_row(&boards[b].tiles, &mut inferences);
        proof {
            assert forall|x: Inference| #![trigger inferences@.contains(x)]
                inferences@.contains(x) <==> yields_upto(boards@, b + 1, x) by {
                lemma_yields_step(boards@, b as int, x);
                assert(gathered.contains(x) <==> yields_upto(boards@, b as int, x));
                assert(inferences@.contains(x) <==> gathered.contains(x) || row_yields(
                    boards@[b as int].tiles@,
                    x,
                ));
            }
        }
        b += 1;
    }
    inferences
}

/// Adds the inferences that one row yields to those gathered so far.
pub fn add_row(row: &Vec<TileState>, inferences: &mut Vec<Inference>)
    requires
        old(inferences)@.no_duplicates(),
    ensures
        final(inferences)@.no_duplicates(),
        forall|x: Inference|
            #![trigger final(inferences)@.contains(x)]
            final(inferences)@.contains(x) <==> old(inferences)@.contains(x) || row_yields(row@, x),
{
    add_tile_inferences(row, inferences);
    add_letter_inferences(row, inferences);
}

/// Counts the tiles of the row that hold the letter `c` with the mode `m`.
pub fn count_marked(row: &Vec<TileState>, c: char, m: TileMode) -> (n: usize)
    ensures
        n == marked(row@, c, m),
{
    let mut n: usize = 0;
    let mut i: usize = 0;
    while i < row.len()
        invariant
            i <= row@.len(),
            n == marked_upto(row@, c, m, i as nat),
            n <= i,
        decreases row@.len() - i,
    {
        let tile: TileState = row[i];
        match tile.char {
            Some(ch) => {
                if to_lower(ch) == c && tile.mode == m {
                    n += 1;
                }
            },
            None => {},
        }
        i += 1;
    }
    n
}

/// What the row says of the letter `c` in the whole word.
pub fn kind_of_letter(row: &Vec<TileState>, c: char) -> (kind: InferenceKind)
    ensures
        kind == letter_kind(row@, c),
{
    let correct: usize = count_marked(row, c, TileMode::Correct);
    let present: usize = count_marked(row, c, TileMode::Present);
    let width: usize = row.len();
    proof {
        lemma_marked_bound(row@, c, row@.len());
        assert(correct + present <= width);
    }
    let hits: usize = correct + present;
    if hits == 0 {
        InferenceKind::AbsentGlobal
    } else if count_marked(row, c, TileMode::Absent) > 0 {
        InferenceKind::Count(hits)
    } else {
        InferenceKind::AtLeast(hits)
    }
}

/// Adds, for each tile of the row that holds a letter, the inference for that
/// tile.
fn add_tile_inferences(row: &Vec<TileState>, inferences: &mut Vec<Inference>)
    requires
        old(inferences)@.no_duplicates(),
    ensures
        final(inferences)@.no_duplicates(),
        forall|x: Inference|
            #![trigger final(inferences)@.contains(x)]
            final(inferences)@.contains(x) <==> old(inferences)@.contains(x) || tiles_yield(
                row@,
                row@.len() as int,
                x,
            ),
{
    let ghost before = inferences@;
    let mut i: usize = 0;
    while i < row.len()
        invariant
            i <= row@.len(),
            inferences@.no_duplicates(),
            forall|x: Inference|
                #![trigger inferences@.contains(x)]
                inferences@.contains(x) <==> before.contains(x) || tiles_yield(row@, i as int, x),
        decreases row@.len() - i,
    {
        let tile: TileState = row[i];
        let ghost gathered = inferences@;
        match tile.char {
            Some(ch) => {
                let kind = match tile.mode {
                    TileMode::Correct => InferenceKind::Correct,
                    TileMode::Present => InferenceKind::Present,
                    TileMode::Absent => InferenceKind::AbsentLocal,
                };
                let added = Inference::new(to_lower(ch), i, kind);
                assert(added == tile_inference(row@, i as int));
                add_once(inferences, added);
            },
            None => {},
        }
        proof {
            assert forall|x: Inference| #![trigger inferences@.contains(x)]
                inferences@.contains(x) <==> before.contains(x) || tiles_yield(
                    row@,
                    i + 1,
                    x,
                ) by {
                lemma_tiles_step(row@, i as int, x);
                assert(gathered.contains(x) <==> before.contains(x) || tiles_yield(
                    row@,
                    i as int,
                    x,
                ));
                assert(inferences@.contains(x) <==> gathered.contains(x) || tile_yields(
                    row@,
                    i as int,
                    x,
                ));
            }
        }
        i += 1;
    }
}

/// Adds, for each tile of the row that holds a letter, the inference for that
/// letter in the whole row.
fn add_letter_inferences(row: &Vec<TileState>, inferences: &mut Vec<Inference>)
    requires
        old(inferences)@.no_duplicates(),
    ensures
        final(inferences)@.no_duplicates(),
        forall|x: Inference|
            #![trigger final(inferences)@.contains(x)]
            final(inferences)@.contains(x) <==> old(inferences)@.contains(x) || letters_yield(
                row@,
                row@.len() as int,
                x,
            ),
{
    let ghost before = inferences@;
    let mut i: usize = 0;
    while i < row.len()
        invariant
            i <= row@.len(),
            inferences@.no_duplicates(),
            forall|x: Inference|
                #![trigger inferences@.contains(x)]
                inferences@.contains(x) <==> before.contains(x) || letters_yield(
                    row@,
                    i as int,
                    x,
                ),
        decreases row@.len() - i,
    {
        let tile: TileState = row[i];
        let ghost gathered = inferences@;
        match tile.char {
            Some(ch) => {
                let c: char = to_lower(ch);
                let added = Inference::new(c, 0, kind_of_letter(row, c));
                assert(added == letter_inference(row@, i as int));
                add_once(inferences, added);
            },
            None => {},
        }
        proof {
            assert forall|x: Inference| #![trigger inferences@.contains(x)]
                inferences@.contains(x) <==> before.contains(x) || letters_yield(
                    row@,
                    i + 1,
                    x,
                ) by {
                lemma_letters_step(row@, i as int, x);
                assert(gathered.contains(x) <==> before.contains(x) || letters_yield(
                    row@,
                    i as int,
                    x,
                ));
                assert(inferences@.contains(x) <==> gathered.contains(x) || letter_yields(
                    row@,
                    i as int,
                    x,
                ));
            }
        }
        i += 1;
    }
}

/// Adds an inference to those gathered so far, unless it is among them.
pub fn add_once(inferences: &mut Vec<Inference>, x: Inference)
    requires
        old(inferences)@.no_duplicates(),
    ensures
        final(inferences)@.no_duplicates(),
        forall|y: Inference|
            #![trigger final(inferences)@.contains(y)]
            final(inferences)@.contains(y) <==> old(inferences)@.contains(y) || y == x,
        final(inferences)@ == if old(inferences)@.contains(x) {
            old(inferences)@
        } else {
            old(inferences)@.push(x)
        },
{
    let mut i: usize = 0;
    while i < inferences.len()
        invariant
            i <= inferences@.len(),
            inferences@ == old(inferences)@,
            inferences@.no_duplicates(),
            forall|j: int| 0 <= j < i ==> inferences@[j] != x,
        decreases inferences@.len() - i,
    {
        if inferences[i] == x {
            assert(inferences@[i as int] == x);
            return ;
        }
        i += 1;
    }
    inferences.push(x);
    proof {
        let before = old(inferences)@;
        assert forall|y: Inference| inferences@.contains(y) <==> before.contains(y) || y == x by {
            if before.contains(y) {
                let j = choose|j: int| 0 <= j < before.len() && before[j] == y;
                assert(inferences@[j] == y);
            }
            if y == x {
                assert(inferences@[before.len() as int] == x);
            }
        }
    }
}

proof fn lemma_tiles_step(row: Seq<TileState>, n: int, x: Inference)
    requires
        0 <= n,
    ensures
        tiles_yield(row, n + 1, x) <==> tiles_yield(row, n, x) || tile_yields(row, n, x),
{
    if tiles_yield(row, n, x) {
        let i = choose|i: int| 0 <= i < n && #[trigger] tile_yields(row, i, x);
        assert(0 <= i < n + 1 && tile_yields(row, i, x));
        assert(tiles_yield(row, n + 1, x));
    }
    if tile_yields(row, n, x) {
        assert(0 <= n < n + 1 && tile_yields(row, n, x));
        assert(tiles_yield(row, n + 1, x));
    }
    if tiles_yield(row, n + 1, x) {
        let i = choose|i: int| 0 <= i < n + 1 && #[trigger] tile_yields(row, i, x);
        if i < n {
            assert(tiles_yield(row, n, x));
        } else {
            assert(i == n);
        }
    }
}

proof fn lemma_letters_step(row: Seq<TileState>, n: int, x: Inference)
    requires
        0 <= n,
    ensures
        letters_yield(row, n + 1, x) <==> letters_yield(row, n, x) || letter_yields(row, n, x),
{
    if letters_yield(row, n, x) {
        let i = choose|i: int| 0 <= i < n && #[trigger] letter_yields(row, i, x);
        assert(0 <= i < n + 1 && letter_yields(row, i, x));
        assert(letters_yield(row, n + 1, x));
    }
    if letter_yields(row, n, x) {
        assert(0 <= n < n + 1 && letter_yields(row, n, x));
        assert(letters_yield(row, n + 1, x));
    }
    if letters_yield(row, n + 1, x) {
        let i = choose|i: int| 0 <= i < n + 1 && #[trigger] letter_yields(row, i, x);
        if i < n {
            assert(letters_yield(row, n, x));
        } else {
            assert(i == n);
        }
    }
}

proof fn lemma_yields_step(boards: Seq<Board>, n: int, x: Inference)
    requires
        0 <= n < boards.len(),
    ensures
        yields_upto(boards, n + 1, x) <==> yields_upto(boards, n, x) || row_yields(
            boards[n].tiles@,
            x,
        ),
{
    if yields_upto(boards, n, x) {
        let b = choose|b: int| 0 <= b < n && #[trigger] row_yields(boards[b].tiles@, x);
        assert(0 <= b < n + 1 && row_yields(boards[b].tiles@, x));
        assert(yields_upto(boards, n + 1, x));
    }
    if row_yields(boards[n].tiles@, x) {
        assert(0 <= n < n + 1 && row_yields(boards[n].tiles@, x));
        assert(yields_upto(boards, n + 1, x));
    }
    if yields_upto(boards, n + 1, x) {
        let b = choose|b: int| 0 <= b < n + 1 && #[trigger] row_yields(boards[b].tiles@, x);
        if b < n {
            assert(yields_upto(boards, n, x));
        } else {
            assert(b == n);
        }
    }
}

/// Number of suggestions in an answer.
pub const SUGGESTIONS: usize = 20;

/// A request for suggestions: the rows of the board, the oldest first.
pub struct WorkerInput {
    pub boards: Vec<Board>,
}

/// The answer to a request: the suggested words, the best first.
pub struct WorkerOutput {
    pub values: Vec<String>,
}

/// The words that meet every inference that the boards yield, as a predicate.
pub open spec fn consistent(boards: Seq<Board>) -> spec_fn(Seq<char>) -> bool {
    |w: Seq<char>| forall|x: Inference| #[trigger] history_yields(boards, x) ==> x.satisfied_by(w)
}

/// The words of the pool that meet every inference that the boards yield, in
/// the order of the pool.
pub open spec fn candidates(pool: Seq<Seq<char>>, boards: Seq<Board>) -> Seq<Seq<char>> {
    pool.filter(consistent(boards))
}

/// Each of the words with the rank key of its overlap with all of them.
pub open spec fn scores(valid: Seq<Seq<char>>) -> Seq<Ranked> {
    Seq::new(
        valid.len(),
        |i: int| (key_of(total_score(valid, valid[i]), partial_score(valid, valid[i])), valid[i]),
    )
}

/// The suggestions for a board: the words of the pool that the board leaves
/// possible, ranked by their overlap with each other, and of these the first
/// `k`.
pub open spec fn suggestions(pool: Seq<Seq<char>>, boards: Seq<Board>, k: nat) -> Seq<Seq<char>> {
    ranking_of(scores(candidates(pool, boards)), k)
}

/// No row is wider than the board.
pub open spec fn well_formed(boards: Seq<Board>) -> bool {
    forall|b: int| 0 <= b < boards.len() ==> (#[trigger] boards[b]).tiles@.len() <= ROW_WIDTH
}

/// Answers requests for suggestions from a dictionary.
pub struct Worker {
    engine: Engine<ROW_WIDTH>,
}

impl Worker {
    /// The words that the worker chooses from, in their order.
    pub closed spec fn pool(&self) -> Seq<Seq<char>> {
        self.engine.pool()
    }

    /// A worker that chooses from those words of the dictionary that are as
    /// long as a row is wide.
    pub fn create(dictionary: Vec<&'static str>) -> (worker: Self)
        requires
            forall|i: int| 0 <= i < dictionary@.len() ==> is_word((#[trigger] dictionary@[i])@),
            dictionary@.len() * ROW_WIDTH <= usize::MAX,
        ensures
            worker.pool() == views(dictionary@).filter(has_length(ROW_WIDTH as nat)),
    {
        Worker { engine: Engine::new(dictionary) }
    }

    /// The worker as `create` makes it, where the words of the dictionary are
    /// words and not too many for the counters of an overlap; nothing
    /// otherwise.
    pub fn try_create(dictionary: Vec<&'static str>) -> (made: Option<Self>)
        ensures
            made is Some <==> (forall|i: int|
                0 <= i < dictionary@.len() ==> is_word((#[trigger] dictionary@[i])@))
                && dictionary@.len() * ROW_WIDTH <= usize::MAX,
            made matches Some(worker) ==> worker.pool() == views(dictionary@).filter(
                has_length(ROW_WIDTH as nat),
            ),
    {
        match Engine::try_new(dictionary) {
            Some(engine) => Some(Worker { engine }),
            None => None,
        }
    }

    /// The suggestions for the board of the request, where no row is wider
    /// than the board; nothing otherwise.
    pub fn try_handle_input(&self, msg: &WorkerInput) -> (answer: Option<WorkerOutput>)
        ensures
            answer is Some <==> well_formed(msg.boards@),
            answer matches Some(output) ==> texts(output.values@) == suggestions(
                self.pool(),
                msg.boards@,
                SUGGESTIONS as nat,
            ),
    {
        let mut b: usize = 0;
        while b < msg.boards.len()
            invariant
                b <= msg.boards@.len(),
                forall|j: int| 0 <= j < b ==> (#[trigger] msg.boards@[j]).tiles@.len() <= ROW_WIDTH,
            decreases msg.boards@.len() - b,
        {
            if msg.boards[b].tiles.len() > ROW_WIDTH {
                return None;
            }
            b += 1;
        }
        Some(self.handle_input(msg))
    }

    /// The suggestions for the board of the request.
    pub fn handle_input(&self, msg: &WorkerInput) -> (answer: WorkerOutput)
        requires
            well_formed(msg.boards@),
        ensures
            texts(answer.values@) == suggestions(self.pool(), msg.boards@, SUGGESTIONS as nat),
    {
        let inferences = determine_inferences(msg.boards.as_slice());
        proof {
            assert forall|i: int| 0 <= i < inferences@.len() implies (#[trigger] inferences@[i]).position
                < ROW_WIDTH by {
                let x = inferences@[i];
                assert(inferences@.contains(x));
                let b = choose|b: int|
                    0 <= b < msg.boards@.len() && #[trigger] row_yields(msg.boards@[b].tiles@, x);
                lemma_yielded(msg.boards@[b].tiles@, x);
            }
        }
        let scored = self.engine.evaluate(inferences.as_slice());
        proof {
            let pool = self.pool();
            let valid = valid_words(pool, inferences@);
            assert forall|i: int| 0 <= i < pool.len() implies meets(inferences@)(
                #[trigger] pool[i],
            ) == consistent(msg.boards@)(pool[i]) by {
                lemma_meets_yielded(inferences@, msg.boards@, pool[i]);
            }
            lemma_filter_agree(pool, meets(inferences@), consistent(msg.boards@));
            assert(valid == candidates(pool, msg.boards@));
            assert(keyed(scored@) =~= scores(valid));
        }
        WorkerOutput { values: rank(&scored, SUGGESTIONS) }
    }
}

/// A word meets the inferences gathered from the boards exactly if it meets
/// every inference that the boards yield.
proof fn lemma_meets_yielded(inferences: Seq<Inference>, boards: Seq<Board>, w: Seq<char>)
    requires
        forall|x: Inference|
            #![trigger inferences.contains(x)]
            inferences.contains(x) <==> history_yields(boards, x),
    ensures
        satisfies_all(inferences, w) <==> consistent(boards)(w),
{
    if satisfies_all(inferences, w) {
        assert forall|x: Inference| #[trigger] history_yields(boards, x) implies x.satisfied_by(
            w,
        ) by {
            assert(inferences.contains(x));
            let i = choose|i: int| 0 <= i < inferences.len() && inferences[i] == x;
            assert(inferences[i].satisfied_by(w));
        }
    }
    if consistent(boards)(w) {
        assert forall|i: int| 0 <= i < inferences.len() implies (#[trigger] inferences[i]).satisfied_by(
            w,
        ) by {
            assert(inferences.contains(inferences[i]));
            assert(history_yields(boards, inferences[i]));
        }
    }
}

/// No more tiles hold a letter with a mode than the row has tiles.
pub proof fn lemma_marked_bound(row: Seq<TileState>, c: char, n: nat)
    ensures
        marked_upto(row, c, TileMode::Correct, n) + marked_upto(row, c, TileMode::Present, n)
            + marked_upto(row, c, TileMode::Absent, n) <= n,
    decreases n,
{
    if n > 0 {
        lemma_marked_bound(row, c, (n - 1) as nat);
    }
}

/// Every letter on the row is an ASCII letter.
pub open spec fn lettered(row: Seq<TileState>) -> bool {
    forall|i: int|
        0 <= i < row.len() && (#[trigger] row[i]).char is Some ==> is_letter(row[i].char->0)
}

/// What a row yields is an inference about a word as long as the row is wide:
/// its position lies on the row, the number of times that it asks for is at
/// least one and no more than the row has tiles, and its letter is a lowercase
/// letter if the letters on the row are letters.
pub proof fn lemma_yielded(row: Seq<TileState>, x: Inference)
    requires
        row.len() <= usize::MAX,
        row_yields(row, x),
    ensures
        x.position < row.len(),
        match x.kind {
            InferenceKind::Count(n) => 1 <= n <= row.len(),
            InferenceKind::AtLeast(n) => 1 <= n <= row.len(),
            _ => true,
        },
        lettered(row) ==> is_lower(x.c),
{
    if tiles_yield(row, row.len() as int, x) {
        let i = choose|i: int| 0 <= i < row.len() && #[trigger] tile_yields(row, i, x);
        if lettered(row) {
            assert(is_letter(row[i].char->0));
            lemma_letter_index(row[i].char->0);
        }
    } else {
        let i = choose|i: int| 0 <= i < row.len() && #[trigger] letter_yields(row, i, x);
        if lettered(row) {
            assert(is_letter(row[i].char->0));
            lemma_letter_index(row[i].char->0);
        }
        lemma_marked_bound(row, x.c, row.len());
    }
}

/// One of the boards has these tiles.
pub open spec fn has_row(boards: Seq<Board>, row: Seq<TileState>) -> bool {
    exists|b: int| 0 <= b < boards.len() && (#[trigger] boards[b]).tiles@ == row
}

/// What the boards yield does not depend on their order, nor on how often a
/// row is given: two histories in which the same rows occur yield the same
/// inferences.
pub proof fn theorem_yield_ignores_order(first: Seq<Board>, second: Seq<Board>, x: Inference)
    requires
        forall|i: int| 0 <= i < first.len() ==> has_row(second, (#[trigger] first[i]).tiles@),
        forall|j: int| 0 <= j < second.len() ==> has_row(first, (#[trigger] second[j]).tiles@),
    ensures
        history_yields(first, x) <==> history_yields(second, x),
{
    if history_yields(first, x) {
        let i = choose|i: int| 0 <= i < first.len() && #[trigger] row_yields(first[i].tiles@, x);
        assert(has_row(second, first[i].tiles@));
        let j = choose|j: int|
            0 <= j < second.len() && (#[trigger] second[j]).tiles@ == first[i].tiles@;
        assert(row_yields(second[j].tiles@, x));
    }
    if history_yields(second, x) {
        let j = choose|j: int| 0 <= j < second.len() && #[trigger] row_yields(second[j].tiles@, x);
        assert(has_row(first, second[j].tiles@));
        let i = choose|i: int|
            0 <= i < first.len() && (#[trigger] first[i]).tiles@ == second[j].tiles@;
        assert(row_yields(first[i].tiles@, x));
    }
}

} // verus!
