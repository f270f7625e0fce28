use wordle_lib::model::{Board, TileMode, TileState};
use wordle_lib::state::{
    carry, copy_boards, is_filled, tile_update, BoardMsg, Effect, Model, TileMsg,
};
use wordle_lib::worker::WorkerOutput;

fn tile(mode: TileMode, letter: char) -> TileState {
    TileState { mode, char: Some(letter) }
}

fn blank() -> TileState {
    TileState { mode: TileMode::Absent, char: None }
}

fn enter(model: &mut Model, word: &str) {
    for (index, letter) in word.chars().enumerate() {
        let step = model.update(BoardMsg::Change(index, Some(letter)));
        assert!(step.redraw);
        assert!(matches!(step.effect, Effect::Schedule));
    }
}

#[test]
fn tile_mode_toggles_in_a_cycle() {
    assert_eq!(TileMode::Present.toggle(), TileMode::Correct);
    assert_eq!(TileMode::Correct.toggle(), TileMode::Absent);
    assert_eq!(TileMode::Absent.toggle(), TileMode::Present);

    for mode in [TileMode::Correct, TileMode::Absent, TileMode::Present] {
        assert_ne!(mode.toggle(), mode);
        assert_eq!(mode.toggle().toggle().toggle(), mode);
    }
}

#[test]
fn tile_mode_names() {
    assert_eq!(TileMode::Correct.to_string(), "correct");
    assert_eq!(TileMode::Absent.to_string(), "absent");
    assert_eq!(TileMode::Present.to_string(), "present");
    assert_eq!(TileMode::Correct.name(), "correct");
    assert_eq!(TileMode::Absent.name(), "absent");
    assert_eq!(TileMode::Present.name(), "present");
}

#[test]
fn tile_mode_limits_the_input() {
    assert_eq!(TileMode::Correct.max_length(), 1);
    assert_eq!(TileMode::Absent.max_length(), 10);
    assert_eq!(TileMode::Present.max_length(), 10);
}

#[test]
fn board_default_is_five_blank_tiles() {
    let board = Board::default();

    assert_eq!(board.tiles, vec![blank(); 5]);
}

#[test]
fn board_clone_keeps_the_tiles() {
    let board = Board {
        tiles: vec![tile(TileMode::Correct, 'a'), blank(), tile(TileMode::Present, 'b')],
    };

    assert_eq!(board.clone().tiles, board.tiles);
}

#[test]
fn model_starts_with_one_fresh_row() {
    let model = Model::create();

    assert_eq!(model.boards().len(), 1);
    assert_eq!(model.boards()[0].tiles, vec![blank(); 5]);
    assert!(model.outputs().is_empty());
    for index in 0..5 {
        assert!(model.is_active(index));
    }
}

#[test]
fn model_change_sets_the_letter() {
    let mut model = Model::create();

    let step = model.update(BoardMsg::Change(3, Some('q')));
    assert!(step.redraw);
    assert!(matches!(step.effect, Effect::Schedule));
    assert_eq!(
        model.boards()[0].tiles,
        vec![blank(), blank(), blank(), tile(TileMode::Absent, 'q'), blank()]
    );

    model.update(BoardMsg::Change(3, None));
    assert_eq!(model.boards()[0].tiles, vec![blank(); 5]);
}

#[test]
fn model_toggle_changes_the_mode() {
    let mut model = Model::create();
    model.update(BoardMsg::Change(1, Some('x')));

    let step = model.update(BoardMsg::Toggle(1));
    assert!(step.redraw);
    assert!(matches!(step.effect, Effect::Schedule));
    assert_eq!(model.boards()[0].tiles[1], tile(TileMode::Present, 'x'));

    model.update(BoardMsg::Toggle(1));
    assert_eq!(model.boards()[0].tiles[1], tile(TileMode::Correct, 'x'));
    model.update(BoardMsg::Toggle(1));
    assert_eq!(model.boards()[0].tiles[1], tile(TileMode::Absent, 'x'));
    assert_eq!(model.boards()[0].tiles[0], blank());
    assert_eq!(model.boards().len(), 1);
}

#[test]
fn model_adds_a_row_only_under_a_filled_row() {
    let mut model = Model::create();

    let step = model.update(BoardMsg::AddBoard);
    assert!(!step.redraw);
    assert!(matches!(step.effect, Effect::Nothing));
    assert_eq!(model.boards().len(), 1);

    enter(&mut model, "appl");
    let step = model.update(BoardMsg::AddBoard);
    assert!(!step.redraw);
    assert_eq!(model.boards().len(), 1);

    model.update(BoardMsg::Change(4, Some('e')));
    let step = model.update(BoardMsg::AddBoard);
    assert!(step.redraw);
    assert!(matches!(step.effect, Effect::Nothing));
    assert_eq!(model.boards().len(), 2);
}

#[test]
fn model_new_row_takes_over_the_correct_tiles() {
    let mut model = Model::create();
    enter(&mut model, "apple");
    // a: correct, p: present, the others absent.
    model.update(BoardMsg::Toggle(0));
    model.update(BoardMsg::Toggle(0));
    model.update(BoardMsg::Toggle(1));
    model.update(BoardMsg::AddBoard);

    assert_eq!(
        model.boards()[0].tiles,
        vec![
            tile(TileMode::Correct, 'a'),
            tile(TileMode::Present, 'p'),
            tile(TileMode::Absent, 'p'),
            tile(TileMode::Absent, 'l'),
            tile(TileMode::Absent, 'e'),
        ]
    );
    assert_eq!(
        model.boards()[1].tiles,
        vec![tile(TileMode::Correct, 'a'), blank(), blank(), blank(), blank()]
    );
    assert!(!model.is_active(0));
    for index in 1..5 {
        assert!(model.is_active(index));
    }

    // The events go to the last row.
    model.update(BoardMsg::Change(2, Some('z')));
    assert_eq!(model.boards()[0].tiles[2], tile(TileMode::Absent, 'p'));
    assert_eq!(model.boards()[1].tiles[2], tile(TileMode::Absent, 'z'));
}

#[test]
fn model_request_carries_the_rows() {
    let mut model = Model::create();
    enter(&mut model, "apple");
    model.update(BoardMsg::Toggle(4));
    model.update(BoardMsg::AddBoard);

    let step = model.update(BoardMsg::RunWorker);
    assert!(!step.redraw);
    match step.effect {
        Effect::Send(input) => {
            assert_eq!(input.boards.len(), 2);
            assert_eq!(input.boards[0].tiles, model.boards()[0].tiles);
            assert_eq!(input.boards[1].tiles, model.boards()[1].tiles);
            assert_eq!(input.boards[0].tiles[4], tile(TileMode::Present, 'e'));
        }
        _ => panic!("a request is to be sent"),
    }
    assert_eq!(model.boards().len(), 2);
}

#[test]
fn model_holds_the_suggestions_that_arrived_last() {
    let mut model = Model::create();

    let values = vec![String::from("apple"), String::from("taple")];
    let step = model.update(BoardMsg::WorkerMsg(WorkerOutput { values: values.clone() }));
    assert!(step.redraw);
    assert!(matches!(step.effect, Effect::Nothing));
    assert_eq!(*model.outputs(), values);

    model.update(BoardMsg::WorkerMsg(WorkerOutput { values: Vec::new() }));
    assert!(model.outputs().is_empty());
    assert_eq!(model.boards().len(), 1);
}

#[test]
fn rows_are_filled_when_every_tile_has_a_letter() {
    assert!(is_filled(&Board { tiles: Vec::new() }));
    assert!(!is_filled(&Board::default()));
    assert!(is_filled(&Board { tiles: vec![tile(TileMode::Absent, 'a'); 5] }));
    assert!(!is_filled(&Board {
        tiles: vec![tile(TileMode::Absent, 'a'), blank(), tile(TileMode::Correct, 'b')],
    }));
}

#[test]
fn carry_blanks_what_is_not_correct() {
    let board = Board {
        tiles: vec![
            tile(TileMode::Present, 'a'),
            tile(TileMode::Correct, 'b'),
            tile(TileMode::Absent, 'c'),
            TileState { mode: TileMode::Correct, char: None },
        ],
    };

    assert_eq!(
        carry(&board).tiles,
        vec![
            blank(),
            tile(TileMode::Correct, 'b'),
            blank(),
            TileState { mode: TileMode::Correct, char: None },
        ]
    );
}

#[test]
fn copy_boards_keeps_every_row() {
    let boards = vec![
        Board { tiles: vec![tile(TileMode::Present, 'a'), blank()] },
        Board::default(),
        Board { tiles: Vec::new() },
    ];
    let copy = copy_boards(&boards);

    assert_eq!(copy.len(), 3);
    for (a, b) in copy.iter().zip(boards.iter()) {
        assert_eq!(a.tiles, b.tiles);
    }
}

#[test]
fn try_update_takes_places_on_the_last_row_only() {
    let mut model = Model::create();

    assert!(model.try_update(BoardMsg::Toggle(5)).is_none());
    assert!(model.try_update(BoardMsg::Change(5, Some('a'))).is_none());
    assert!(model.try_update(BoardMsg::Change(usize::MAX, None)).is_none());
    assert_eq!(model.boards().len(), 1);
    assert_eq!(model.boards()[0].tiles, vec![blank(); 5]);

    let step = model.try_update(BoardMsg::Change(4, Some('a'))).expect("the place is on the row");
    assert!(step.redraw);
    assert!(matches!(step.effect, Effect::Schedule));
    let step = model.try_update(BoardMsg::Toggle(4)).expect("the place is on the row");
    assert!(step.redraw);
    assert_eq!(model.boards()[0].tiles[4], tile(TileMode::Present, 'a'));

    assert!(model.try_update(BoardMsg::AddBoard).is_some());
    assert!(model.try_update(BoardMsg::RunWorker).is_some());
    let output = WorkerOutput { values: vec![String::from("apple")] };
    assert!(model.try_update(BoardMsg::WorkerMsg(output)).is_some());
    assert_eq!(*model.outputs(), vec![String::from("apple")]);
}

#[test]
fn tiles_pass_events_on_only_when_active() {
    assert!(matches!(tile_update(true, TileMsg::Toggle), Some(TileMsg::Toggle)));
    assert!(matches!(
        tile_update(true, TileMsg::Change(Some('a'))),
        Some(TileMsg::Change(Some('a')))
    ));
    assert!(matches!(tile_update(true, TileMsg::Change(None)), Some(TileMsg::Change(None))));
    assert!(tile_update(false, TileMsg::Toggle).is_none());
    assert!(tile_update(false, TileMsg::Change(Some('a'))).is_none());
}
