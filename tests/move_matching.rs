use renju_move_matching::move_matching::{Game, MoveMatching, MoveMatchingTask};
use renju_move_matching::protocol::{Command, EngineError, Response};

fn game(black_elo: u64, white_elo: u64, plies: usize) -> Game {
    Game {
        black_elo,
        white_elo,
        moves: (0..plies).map(|i| (i as u8, (i * 2) as u8)).collect(),
    }
}

/// Runs a task to its end; `answer` gets the exchange number and the board.
fn run<F>(task: &mut MoveMatchingTask, mut answer: F) -> (Vec<usize>, Result<(), EngineError>)
where
    F: FnMut(usize, &[(u8, u8)]) -> Result<Response, EngineError>,
{
    let mut boards = vec![];
    loop {
        let board: Vec<(u8, u8)> = match task.next_command() {
            Some(Command::Board(b)) => b.to_vec(),
            Some(_) => panic!("a task only sends boards"),
            None => return (boards, Ok(())),
        };
        let reply = answer(boards.len(), &board);
        boards.push(board.len());
        if let Err(e) = task.record_response(reply) {
            return (boards, Err(e));
        }
    }
}

fn row(m: &MoveMatching, elo: u64) -> (u32, u32) {
    let rows = m.snapshot();
    let found: Vec<_> = rows.iter().filter(|r| r.0 == elo).collect();
    assert_eq!(found.len(), 1);
    (found[0].1, found[0].2)
}

#[test]
fn ten_ply_game_evaluates_three_positions_and_echo_matches_all() {
    let g = game(1500, 1600, 10);
    let moves = g.moves.clone();
    let mut m = MoveMatching::from_games(&[g]);
    assert_eq!(m.total_positions(), 3);
    let mut task = m.get_next_task().unwrap();
    let (boards, result) = run(&mut task, |_, b| Ok(Response::Move(moves[b.len()])));
    assert!(result.is_ok());
    assert_eq!(boards, vec![5, 6, 7]);
    m.complete_task(task);
    assert_eq!(row(&m, 1500), (1, 1));
    assert_eq!(row(&m, 1600), (2, 2));
    assert_eq!(m.completed_games(), 1);
    assert_eq!(m.completed_positions(), 3);
    assert!(m.is_completed());
}

#[test]
fn engine_error_on_second_exchange_keeps_first_result() {
    let g = game(1500, 1600, 10);
    let moves = g.moves.clone();
    let mut m = MoveMatching::from_games(&[g]);
    let mut task = m.get_next_task().unwrap();
    let (boards, result) = run(&mut task, |n, b| {
        if n == 1 {
            Err(EngineError::Error("crashed".to_string()))
        } else {
            Ok(Response::Move(moves[b.len()]))
        }
    });
    assert_eq!(boards, vec![5, 6]);
    match result {
        Err(EngineError::Error(s)) => assert_eq!(s, "crashed"),
        _ => panic!("the error is handed back"),
    }
    assert!(task.next_command().is_none());
    m.complete_task(task);
    assert_eq!(row(&m, 1600), (1, 1));
    assert_eq!(row(&m, 1500), (0, 0));
    assert_eq!(m.completed_games(), 1);
    assert_eq!(m.completed_positions(), 1);
    assert!(m.is_completed());
}

#[test]
fn unexpected_response_ends_the_task() {
    let mut m = MoveMatching::from_games(&[game(1500, 1600, 12)]);
    let mut task = m.get_next_task().unwrap();
    let (boards, result) = run(&mut task, |_, _| Ok(Response::Acknowledged));
    assert_eq!(boards, vec![5]);
    assert!(matches!(
        result,
        Err(EngineError::UnexpectedResponse(Response::Acknowledged))
    ));
    m.complete_task(task);
    assert_eq!(row(&m, 1500), (0, 0));
    assert_eq!(row(&m, 1600), (0, 0));
    assert_eq!(m.completed_games(), 1);
}

#[test]
fn wrong_answers_count_without_matching() {
    let mut m = MoveMatching::from_games(&[game(1500, 1600, 11)]);
    let mut task = m.get_next_task().unwrap();
    let (boards, result) = run(&mut task, |_, _| Ok(Response::Move((200, 200))));
    assert!(result.is_ok());
    assert_eq!(boards, vec![5, 6, 7, 8]);
    m.complete_task(task);
    assert_eq!(row(&m, 1500), (0, 2));
    assert_eq!(row(&m, 1600), (0, 2));
}

#[test]
fn each_game_handed_out_once_then_none() {
    let games = [game(1500, 1600, 10), game(1700, 1800, 9), game(1500, 1800, 20)];
    let mut m = MoveMatching::from_games(&games);
    let mut handed = vec![];
    for _ in 0..(games.len() + 4) {
        handed.push(m.get_next_task().map(|t| t.game()));
    }
    assert_eq!(
        handed,
        vec![Some(0), Some(1), Some(2), None, None, None, None]
    );
    assert_eq!(m.total_games(), 3);
    assert_eq!(m.completed_games(), 0);
    assert!(!m.is_completed());
}

#[test]
fn short_games_have_nothing_to_evaluate() {
    let mut m = MoveMatching::from_games(&[game(1500, 1600, 7), game(1500, 1600, 3)]);
    assert_eq!(m.total_positions(), 0);
    let task = m.get_next_task().unwrap();
    assert!(task.next_command().is_none());
    m.complete_task(task);
    let task = m.get_next_task().unwrap();
    assert!(task.next_command().is_none());
    m.complete_task(task);
    assert!(m.is_completed());
    assert_eq!(m.completed_positions(), 0);
}

#[test]
fn one_row_per_rating() {
    let m = MoveMatching::from_games(&[game(1500, 1600, 10), game(1600, 1700, 10)]);
    let mut rows = m.snapshot();
    rows.sort();
    assert_eq!(rows, vec![(1500, 0, 0), (1600, 0, 0), (1700, 0, 0)]);
    assert_eq!(m.total_positions(), 6);
}

#[test]
fn equal_ratings_share_a_row() {
    let g = game(1500, 1500, 10);
    let moves = g.moves.clone();
    let mut m = MoveMatching::from_games(&[g]);
    let mut task = m.get_next_task().unwrap();
    let (_, result) = run(&mut task, |_, b| Ok(Response::Move(moves[b.len()])));
    assert!(result.is_ok());
    m.complete_task(task);
    assert_eq!(m.snapshot(), vec![(1500, 3, 3)]);
}

fn three_games() -> Vec<Game> {
    // 3, 5 and 2 positions to evaluate.
    vec![game(1500, 1600, 10), game(1700, 1500, 12), game(1600, 1700, 9)]
}

#[test]
fn checkpoint_with_nothing_done_resumes_at_start() {
    let games = three_games();
    let mut m = MoveMatching::from_checkpoint(&games, &[]);
    assert_eq!(m.completed_games(), 0);
    assert_eq!(m.completed_positions(), 0);
    assert_eq!(m.get_next_task().map(|t| t.game()), Some(0));
}

#[test]
fn checkpoint_after_first_game_resumes_at_second() {
    let games = three_games();
    let rows = [(1500, 1, 1), (1600, 2, 2)];
    let mut m = MoveMatching::from_checkpoint(&games, &rows);
    assert_eq!(m.completed_games(), 1);
    assert_eq!(m.completed_positions(), 3);
    assert_eq!(row(&m, 1500), (1, 1));
    assert_eq!(row(&m, 1600), (2, 2));
    assert_eq!(row(&m, 1700), (0, 0));
    assert_eq!(m.total_positions(), 10);
    assert_eq!(m.get_next_task().map(|t| t.game()), Some(1));
}

#[test]
fn checkpoint_after_all_games_is_complete() {
    let games = three_games();
    let rows = [(1500, 3, 4), (1600, 1, 3), (1700, 0, 3)];
    let mut m = MoveMatching::from_checkpoint(&games, &rows);
    assert_eq!(m.completed_games(), 3);
    assert_eq!(m.completed_positions(), 10);
    assert!(m.is_completed());
    assert!(m.get_next_task().is_none());
}

#[test]
fn checkpoint_rows_overwrite_and_add() {
    let games = three_games();
    let rows = [(1500, 9, 9), (2100, 1, 2), (1500, 0, 1)];
    let m = MoveMatching::from_checkpoint(&games, &rows);
    assert_eq!(row(&m, 1500), (0, 1));
    assert_eq!(row(&m, 2100), (1, 2));
    assert_eq!(row(&m, 1600), (0, 0));
    // 1 + 2 = 3 positions cover the first game exactly.
    assert_eq!(m.completed_games(), 1);
    assert_eq!(m.completed_positions(), 3);
}

#[test]
fn checkpoint_short_of_a_game_resumes_at_it() {
    let games = three_games();
    let rows = [(1500, 0, 7)];
    let m = MoveMatching::from_checkpoint(&games, &rows);
    assert_eq!(m.completed_games(), 1);
    assert_eq!(m.completed_positions(), 3);
}

#[test]
fn duplicate_copies_a_game() {
    let g = game(1500, 1600, 4);
    let d = g.duplicate();
    assert_eq!(d.black_elo, 1500);
    assert_eq!(d.white_elo, 1600);
    assert_eq!(d.moves, g.moves);
}

#[test]
fn counters_stop_at_their_largest_value() {
    let g = game(1500, 1600, 10);
    let moves = g.moves.clone();
    let rows = [(1600, u32::MAX - 1, u32::MAX)];
    let mut m = MoveMatching::from_checkpoint(&[g], &rows);
    // The budget covers the only game, so nothing is left to hand out.
    assert!(m.get_next_task().is_none());
    // A total of 2 is short of the 3 plies of the game, which is handed out again.
    let g = game(1500, 1600, 10);
    let mut m2 = MoveMatching::from_checkpoint(&[g], &[(1600, u32::MAX - 1, 2)]);
    let mut task = m2.get_next_task().unwrap();
    assert_eq!(task.game(), 0);
    let (_, result) = run(&mut task, |_, b| Ok(Response::Move(moves[b.len()])));
    assert!(result.is_ok());
    m2.complete_task(task);
    assert_eq!(row(&m2, 1600), (u32::MAX, 4));
    assert_eq!(row(&m, 1600), (u32::MAX - 1, u32::MAX));
}

#[test]
fn resume_after_first_of_two_games() {
    let games = [game(2000, 2100, 10), game(2100, 2200, 10)];
    let mut m = MoveMatching::from_checkpoint(&games, &[(2000, 1, 1), (2100, 1, 2)]);
    assert_eq!(m.completed_games(), 1);
    assert_eq!(m.completed_positions(), 3);
    let mut rows = m.snapshot();
    rows.sort();
    assert_eq!(rows, vec![(2000, 1, 1), (2100, 1, 2), (2200, 0, 0)]);
    assert_eq!(m.get_next_task().map(|t| t.game()), Some(1));
}
