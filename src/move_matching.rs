//! Handing out games to workers, scoring an engine's answers against the
//! moves humans played, and accounting for them per rating.
use vstd::prelude::*;

use crate::protocol::{Command, EngineError, Response};

verus! {

/// Opening plies that are never evaluated.
pub const HEAD_SKIP: usize = 5;

/// Closing plies that are never evaluated.
pub const TAIL_SKIP: usize = 2;

/// A rated game: both players' ratings and the board coordinate of each ply.
#[derive(Debug)]
pub struct Game {
    pub black_elo: u64,
    pub white_elo: u64,
    pub moves: Vec<(u8, u8)>,
}

pub struct GameView {
    pub black_elo: u64,
    pub white_elo: u64,
    pub moves: Seq<(u8, u8)>,
}

impl View for Game {
    type V = GameView;

    open spec fn view(&self) -> GameView {
        GameView { black_elo: self.black_elo, white_elo: self.white_elo, moves: self.moves@ }
    }
}

impl Clone for Game {
    fn clone(&self) -> (r: Game)
        ensures
            r@ == self@,
    {
        self.duplicate()
    }
}

impl Game {
    /// A copy of the game.
    pub fn duplicate(&self) -> (r: Game)
        ensures
            r@ == self@,
    {
        Game {
            black_elo: self.black_elo,
            white_elo: self.white_elo,
            moves: vstd::slice::slice_to_vec(self.moves.as_slice()),
        }
    }
}

/// One past the last evaluated ply of a game of `len` plies.
pub open spec fn eval_end(len: int) -> int {
    if len >= HEAD_SKIP + TAIL_SKIP {
        len - TAIL_SKIP
    } else {
        HEAD_SKIP as int
    }
}

/// How many plies of a game of `len` plies are evaluated.
pub open spec fn evaluated_count(len: int) -> int {
    eval_end(len) - HEAD_SKIP
}

/// How many plies `p` in `[lo, hi)` have `p % 2 == parity`; parity 0 is the
/// first mover (black), parity 1 the second (white).
pub open spec fn side_count(lo: int, hi: int, parity: int) -> nat
    decreases hi - lo,
{
    if hi <= lo {
        0
    } else {
        side_count(lo, hi - 1, parity) + if (hi - 1) % 2 == parity {
            1nat
        } else {
            0nat
        }
    }
}

/// What a finished task contributed: the game, its players' ratings and,
/// per side, the matched and the evaluated plies.
pub struct TaskRecord {
    pub game: int,
    pub black_elo: u64,
    pub white_elo: u64,
    pub black: (nat, nat),
    pub white: (nat, nat),
}

/// The evaluation of one game against an engine, one ply at a time.
///
/// The caller asks `next_command` for the board to send, sends it, and hands
/// the engine's answer to `record_response`, until `next_command` returns
/// `None`; then it hands the task back to the coordinator.
pub struct MoveMatchingTask {
    game: usize,
    black_elo: u64,
    white_elo: u64,
    moves: Vec<(u8, u8)>,
    idx: usize,
    black: (usize, usize),
    white: (usize, usize),
    stopped: bool,
}

impl MoveMatchingTask {
    pub closed spec fn game_index(&self) -> int {
        self.game as int
    }

    pub closed spec fn players(&self) -> (u64, u64) {
        (self.black_elo, self.white_elo)
    }

    pub closed spec fn moves_view(&self) -> Seq<(u8, u8)> {
        self.moves@
    }

    /// The ply that is evaluated next.
    pub closed spec fn ply(&self) -> int {
        self.idx as int
    }

    /// Matched and evaluated plies of the first mover so far.
    pub closed spec fn black_counts(&self) -> (nat, nat) {
        (self.black.0 as nat, self.black.1 as nat)
    }

    /// Matched and evaluated plies of the second mover so far.
    pub closed spec fn white_counts(&self) -> (nat, nat) {
        (self.white.0 as nat, self.white.1 as nat)
    }

    /// Whether an exchange failed and ended the task.
    pub closed spec fn aborted(&self) -> bool {
        self.stopped
    }

    /// Whether a ply is left to evaluate.
    pub open spec fn running(&self) -> bool {
        !self.aborted() && self.ply() < eval_end(self.moves_view().len() as int)
    }

    pub closed spec fn wf(&self) -> bool {
        &&& HEAD_SKIP <= self.idx
        &&& self.idx <= eval_end(self.moves@.len() as int)
        &&& self.black.1 == side_count(HEAD_SKIP as int, self.idx as int, 0)
        &&& self.white.1 == side_count(HEAD_SKIP as int, self.idx as int, 1)
        &&& self.black.1 + self.white.1 == self.idx - HEAD_SKIP
        &&& self.black.0 <= self.black.1
        &&& self.white.0 <= self.white.1
    }

    pub open spec fn record(&self) -> TaskRecord {
        TaskRecord {
            game: self.game_index(),
            black_elo: self.players().0,
            white_elo: self.players().1,
            black: self.black_counts(),
            white: self.white_counts(),
        }
    }

    /// Index of the evaluated game among the coordinator's games.
    pub fn game(&self) -> (r: usize)
        ensures
            r == self.game_index(),
    {
        self.game
    }

    /// The board to send next: every move before the evaluated ply, or
    /// `None` once the task is over.
    pub fn next_command(&self) -> (r: Option<Command<'_>>)
        requires
            self.wf(),
        ensures
            self.running() ==> (r matches Some(Command::Board(b)) && b@ == self.moves_view().subrange(
                0,
                self.ply(),
            )),
            !self.running() ==> r is None,
    {
        let end: usize = if self.moves.len() >= HEAD_SKIP + TAIL_SKIP {
            self.moves.len() - TAIL_SKIP
        } else {
            HEAD_SKIP
        };
        if self.stopped || self.idx >= end {
            None
        } else {
            Some(Command::Board(vstd::slice::slice_subrange(self.moves.as_slice(), 0, self.idx)))
        }
    }

    /// Scores the engine's answer to the last board sent. A committed move
    /// counts one evaluated ply for the side to move, and one match when it
    /// is the move that was played; any other answer, or a failed exchange,
    /// ends the task and is handed back.
    pub fn record_response(&mut self, reply: Result<Response, EngineError>) -> (r: Result<
        (),
        EngineError,
    >)
        requires
            old(self).wf(),
            old(self).running(),
        ensures
            final(self).wf(),
            final(self).game_index() == old(self).game_index(),
            final(self).players() == old(self).players(),
            final(self).moves_view() == old(self).moves_view(),
            match reply {
                Ok(Response::Move(q)) => {
                    let hit: nat = if q == old(self).moves_view()[old(self).ply()] {
                        1
                    } else {
                        0
                    };
                    &&& r is Ok
                    &&& !final(self).aborted()
                    &&& final(self).ply() == old(self).ply() + 1
                    &&& if old(self).ply() % 2 == 0 {
                        &&& final(self).black_counts() == (
                        old(self).black_counts().0 + hit,
                        old(self).black_counts().1 + 1,
                        )
                        &&& final(self).white_counts() == old(self).white_counts()
                    } else {
                        &&& final(self).white_counts() == (
                        old(self).white_counts().0 + hit,
                        old(self).white_counts().1 + 1,
                        )
                        &&& final(self).black_counts() == old(self).black_counts()
                    }
                },
                Ok(other) => {
                    &&& r matches Err(EngineError::UnexpectedResponse(x)) && x == other
                    &&& final(self).aborted()
                    &&& final(self).ply() == old(self).ply()
                    &&& final(self).black_counts() == old(self).black_counts()
                    &&& final(self).white_counts() == old(self).white_counts()
                },
                Err(e) => {
                    &&& r == Err::<(), EngineError>(e)
                    &&& final(self).aborted()
                    &&& final(self).ply() == old(self).ply()
                    &&& final(self).black_counts() == old(self).black_counts()
                    &&& final(self).white_counts() == old(self).white_counts()
                },
            },
    {
        match reply {
            Ok(Response::Move(q)) => {
                let n = self.moves.len();
                assert(self.idx < n);
                let played = self.moves[self.idx];
                let hit: usize = if q.0 == played.0 && q.1 == played.1 {
                    1
                } else {
                    0
                };
                if self.idx % 2 == 0 {
                    self.black = (self.black.0 + hit, self.black.1 + 1);
                } else {
                    self.white = (self.white.0 + hit, self.white.1 + 1);
                }
                self.idx = self.idx + 1;
                Ok(())
            },
            Ok(other) => {
                self.stopped = true;
                Err(EngineError::UnexpectedResponse(other))
            },
            Err(e) => {
                self.stopped = true;
                Err(e)
            },
        }
    }
}

/// Plies expected from the first `k` games.
pub open spec fn positions_before(games: Seq<GameView>, k: int) -> int
    decreases k,
{
    if k <= 0 {
        0
    } else {
        positions_before(games, k - 1) + evaluated_count(games[k - 1].moves.len() as int)
    }
}

/// `x`, held at `u64::MAX` once it is larger.
pub open spec fn capped(x: int) -> int {
    if x > u64::MAX {
        u64::MAX as int
    } else {
        x
    }
}

pub open spec fn games_view(games: Seq<Game>) -> Seq<GameView> {
    games.map_values(|g: Game| g@)
}

/// `x`, held at `u32::MAX` once it is larger: counters never go down.
pub open spec fn capped32(x: int) -> int {
    if x > u32::MAX {
        u32::MAX as int
    } else {
        x
    }
}

/// Matched and evaluated plies that one record gives to players rated `elo`.
pub open spec fn contribution(e: TaskRecord, elo: u64) -> (nat, nat) {
    let b: (nat, nat) = if e.black_elo == elo {
        e.black
    } else {
        (0, 0)
    };
    let w: (nat, nat) = if e.white_elo == elo {
        e.white
    } else {
        (0, 0)
    };
    (b.0 + w.0, b.1 + w.1)
}

/// Evaluated plies that the records give to players rated `elo`.
pub open spec fn total_for(log: Seq<TaskRecord>, elo: u64) -> nat
    decreases log.len(),
{
    if log.len() == 0 {
        0
    } else {
        total_for(log.drop_last(), elo) + contribution(log.last(), elo).1
    }
}

/// Matched plies that the records give to players rated `elo`.
pub open spec fn matched_for(log: Seq<TaskRecord>, elo: u64) -> nat
    decreases log.len(),
{
    if log.len() == 0 {
        0
    } else {
        matched_for(log.drop_last(), elo) + contribution(log.last(), elo).0
    }
}

/// Whether `rows` are counters that started at `base` and took in `log`.
pub open spec fn rows_account(
    rows: Seq<(u64, u32, u32)>,
    base: Seq<(u64, u32, u32)>,
    log: Seq<TaskRecord>,
) -> bool {
    &&& base.len() == rows.len()
    &&& forall|i: int|
        0 <= i < rows.len() ==> {
            let r = #[trigger] rows[i];
            let b = base[i];
            &&& r.0 == b.0
            &&& r.1 == capped32(b.1 + matched_for(log, r.0))
            &&& r.2 == capped32(b.2 + total_for(log, r.0))
        }
}

/// Counters that took in `rec` on top of what they held.
proof fn lemma_rows_take_record(
    old_rows: Seq<(u64, u32, u32)>,
    new_rows: Seq<(u64, u32, u32)>,
    base: Seq<(u64, u32, u32)>,
    log: Seq<TaskRecord>,
    rec: TaskRecord,
)
    requires
        rows_account(old_rows, base, log),
        new_rows.len() == old_rows.len(),
        forall|i: int|
            0 <= i < new_rows.len() ==> {
                let n = #[trigger] new_rows[i];
                let o = old_rows[i];
                let c = contribution(rec, o.0);
                &&& n.0 == o.0
                &&& n.1 == capped32(o.1 + c.0)
                &&& n.2 == capped32(o.2 + c.1)
            },
    ensures
        rows_account(new_rows, base, log.push(rec)),
{
    let nl = log.push(rec);
    assert(nl.drop_last() == log);
    assert forall|i: int| 0 <= i < new_rows.len() implies {
        let r = #[trigger] new_rows[i];
        let b = base[i];
        &&& r.0 == b.0
        &&& r.1 == capped32(b.1 + matched_for(nl, r.0))
        &&& r.2 == capped32(b.2 + total_for(nl, r.0))
    } by {
        let b = base[i];
        let k = old_rows[i].0;
        let c = contribution(rec, k);
    }
}

/// Whether some row of `rows` is keyed by `elo`.
pub open spec fn has_row(rows: Seq<(u64, u32, u32)>, elo: u64) -> bool {
    exists|i: int| 0 <= i < rows.len() && (#[trigger] rows[i]).0 == elo
}

pub open spec fn keys_unique(rows: Seq<(u64, u32, u32)>) -> bool {
    forall|i: int, j: int| 0 <= i < j < rows.len() ==> (#[trigger] rows[i]).0 != (#[trigger] rows[j]).0
}

/// Whether `elo` is the rating of a player of one of `games`.
pub open spec fn plays_in(games: Seq<GameView>, elo: u64) -> bool {
    exists|i: int| 0 <= i < games.len() && ((#[trigger] games[i]).black_elo == elo || games[i].white_elo == elo)
}


/// `c + d` on a counter, held at `u32::MAX` once it would pass it.
fn bump(c: u32, d: usize) -> (r: u32)
    ensures
        r == capped32(c + d),
{
    if d as u64 > (u32::MAX - c) as u64 {
        u32::MAX
    } else {
        c + d as u32
    }
}

/// The index of the row keyed by `elo`.
fn find_row(rows: &Vec<(u64, u32, u32)>, elo: u64) -> (r: Option<usize>)
    ensures
        match r {
            Some(i) => i < rows@.len() && rows@[i as int].0 == elo,
            None => !has_row(rows@, elo),
        },
{
    let mut i: usize = 0;
    while i < rows.len()
        invariant
            i <= rows@.len(),
            forall|j: int| 0 <= j < i ==> (#[trigger] rows@[j]).0 != elo,
        decreases rows@.len() - i,
    {
        if rows[i].0 == elo {
            return Some(i);
        }
        i = i + 1;
    }
    None
}

proof fn lemma_positions_monotone(games: Seq<GameView>, i: int, j: int)
    requires
        0 <= i <= j,
    ensures
        positions_before(games, i) <= positions_before(games, j),
    decreases j - i,
{
    if i < j {
        lemma_positions_monotone(games, i, j - 1);
    }
}


/// The counters of the last checkpoint row keyed by `elo`.
pub open spec fn last_row(rows: Seq<(u64, u32, u32)>, elo: u64) -> Option<(u32, u32)>
    decreases rows.len(),
{
    if rows.len() == 0 {
        None
    } else if rows.last().0 == elo {
        Some((rows.last().1, rows.last().2))
    } else {
        last_row(rows.drop_last(), elo)
    }
}

/// The counters that a checkpoint gives to `elo`: those of its last row
/// for `elo`, zero where it has none.
pub open spec fn checkpoint_value(rows: Seq<(u64, u32, u32)>, elo: u64) -> (u32, u32) {
    match last_row(rows, elo) {
        Some(v) => v,
        None => (0, 0),
    }
}

/// The sum of the `total` column.
pub open spec fn sum_totals(rows: Seq<(u64, u32, u32)>) -> int
    decreases rows.len(),
{
    if rows.len() == 0 {
        0
    } else {
        sum_totals(rows.drop_last()) + rows.last().2
    }
}

/// Walking the games from `i` on, subtracting each game's expected plies
/// from `budget` while that does not go below zero: the first game that
/// does not fit.
pub open spec fn resume_from(games: Seq<GameView>, i: int, budget: int) -> int
    decreases games.len() - i,
{
    if 0 <= i < games.len() && evaluated_count(games[i].moves.len() as int) <= budget {
        resume_from(games, i + 1, budget - evaluated_count(games[i].moves.len() as int))
    } else {
        i
    }
}

/// What one call of `get_next_task` does to the cursor over `n` games: the
/// game handed out, and the new cursor.
pub open spec fn next_step(cursor: int, n: int) -> (Option<int>, int) {
    if cursor < n {
        (Some(cursor), cursor + 1)
    } else {
        (None, cursor)
    }
}

/// The results of `calls` calls of `get_next_task`, one after another,
/// from `cursor` over `n` games.
pub open spec fn dispense(n: int, cursor: int, calls: nat) -> Seq<Option<int>>
    decreases calls,
{
    if calls == 0 {
        Seq::empty()
    } else {
        let (r, c) = next_step(cursor, n);
        seq![r] + dispense(n, c, (calls - 1) as nat)
    }
}

proof fn lemma_dispense_from(n: int, cursor: int, calls: nat)
    requires
        0 <= cursor <= n,
    ensures
        dispense(n, cursor, calls) == Seq::new(
            calls,
            |i: int|
                if cursor + i < n {
                    Some(cursor + i)
                } else {
                    None::<int>
                },
        ),
    decreases calls,
{
    if calls > 0 {
        let c = next_step(cursor, n).1;
        lemma_dispense_from(n, c, (calls - 1) as nat);
        assert(dispense(n, cursor, calls) =~= Seq::new(
            calls,
            |i: int|
                if cursor + i < n {
                    Some(cursor + i)
                } else {
                    None::<int>
                },
        ));
    }
}

/// Over `n` games, `n + k` calls of `get_next_task` from a fresh start hand
/// out every game exactly once, in order, and then `None` `k` times.
pub proof fn lemma_each_game_once(n: nat, k: nat)
    ensures
        dispense(n as int, 0, n + k) == Seq::new(
            n + k,
            |i: int|
                if i < n {
                    Some(i)
                } else {
                    None::<int>
                },
        ),
{
    lemma_dispense_from(n as int, 0, n + k);
    assert(dispense(n as int, 0, n + k) =~= Seq::new(
        n + k,
        |i: int|
            if i < n {
                Some(i)
            } else {
                None::<int>
            },
    ));
}

proof fn lemma_resume_between(games: Seq<GameView>, i: int, k: int)
    requires
        0 <= i <= k <= games.len(),
        k < games.len() ==> evaluated_count(games[k].moves.len() as int) > 0,
    ensures
        resume_from(games, i, positions_before(games, k) - positions_before(games, i)) == k,
    decreases k - i,
{
    if i < k {
        lemma_positions_monotone(games, i + 1, k);
        lemma_resume_between(games, i + 1, k);
    }
}

/// A checkpoint taken when exactly the first `k` games were finished gives
/// back `k` as the game to resume from, where the game at `k` has plies to
/// evaluate (or `k` is the number of games).
pub proof fn lemma_resume_after_whole_games(games: Seq<GameView>, k: int)
    requires
        0 <= k <= games.len(),
        k < games.len() ==> evaluated_count(games[k].moves.len() as int) > 0,
    ensures
        resume_from(games, 0, positions_before(games, k)) == k,
{
    lemma_resume_between(games, 0, k);
}


/// The sum of the `total` column, held at `u64::MAX` once it is larger.
fn sum_capped(rows: &Vec<(u64, u32, u32)>) -> (r: u64)
    ensures
        r == capped(sum_totals(rows@)),
{
    let mut budget: u64 = 0;
    let mut b: usize = 0;
    while b < rows.len()
        invariant
            b <= rows@.len(),
            budget == capped(sum_totals(rows@.subrange(0, b as int))),
        decreases rows@.len() - b,
    {
        assert(rows@.subrange(0, b + 1 as int).drop_last() == rows@.subrange(0, b as int));
        budget = budget.saturating_add(rows[b].2 as u64);
        b = b + 1;
    }
    assert(rows@.subrange(0, b as int) == rows@);
    budget
}

/// The game to resume from with `budget` plies done, and the plies that
/// the games before it expect.
fn walk(games: &Vec<Game>, budget: u64) -> (r: (usize, u64))
    ensures
        r.0 == resume_from(games_view(games@), 0, budget as int),
        r.0 <= games@.len(),
        r.1 == positions_before(games_view(games@), r.0 as int),
{
    let ghost gv = games_view(games@);
    let mut left = budget;
    let mut k: usize = 0;
    let mut done: u64 = 0;
    while k < games.len()
        invariant
            k <= games@.len(),
            gv == games_view(games@),
            resume_from(gv, k as int, left as int) == resume_from(gv, 0, budget as int),
            done == positions_before(gv, k as int),
            done + left == budget,
        decreases games@.len() - k,
    {
        let len = games[k].moves.len();
        assert(gv[k as int] == games@[k as int]@);
        let count: usize = if len >= HEAD_SKIP + TAIL_SKIP {
            len - HEAD_SKIP - TAIL_SKIP
        } else {
            0
        };
        if count as u64 > left {
            assert(resume_from(gv, k as int, left as int) == k as int);
            return (k, done);
        }
        left = left - count as u64;
        done = done + count as u64;
        k = k + 1;
    }
    (k, done)
}


proof fn lemma_sum_update(s: Seq<(u64, u32, u32)>, i: int, x: (u64, u32, u32))
    requires
        0 <= i < s.len(),
    ensures
        sum_totals(s.update(i, x)) == sum_totals(s) - s[i].2 + x.2,
    decreases s.len(),
{
    let u = s.update(i, x);
    if i == s.len() - 1 {
        assert(u.drop_last() == s.drop_last());
    } else {
        lemma_sum_update(s.drop_last(), i, x);
        assert(u.drop_last() == s.drop_last().update(i, x));
    }
}

proof fn lemma_sum_zero(s: Seq<(u64, u32, u32)>)
    requires
        forall|i: int| 0 <= i < s.len() ==> (#[trigger] s[i]).2 == 0,
    ensures
        sum_totals(s) == 0,
    decreases s.len(),
{
    if s.len() > 0 {
        lemma_sum_zero(s.drop_last());
    }
}

proof fn lemma_last_row_absent(rows: Seq<(u64, u32, u32)>, elo: u64)
    requires
        !has_row(rows, elo),
    ensures
        last_row(rows, elo) is None,
    decreases rows.len(),
{
    if rows.len() > 0 {
        assert(rows[rows.len() - 1] == rows.last());
        assert(!has_row(rows.drop_last(), elo)) by {
            if has_row(rows.drop_last(), elo) {
                let w = choose|w: int| 0 <= w < rows.len() - 1 && (#[trigger] rows.drop_last()[w]).0 == elo;
                assert(rows[w] == rows.drop_last()[w]);
            }
        }
        lemma_last_row_absent(rows.drop_last(), elo);
    }
}

/// Whether the keys of `buckets` are the ratings of the players of `games`
/// and those of the checkpoint rows `cp`.
pub open spec fn keys_cover(buckets: Seq<(u64, u32, u32)>, games: Seq<GameView>, cp: Seq<(u64, u32, u32)>) -> bool {
    forall|elo: u64| has_row(buckets, elo) <==> plays_in(games, elo) || has_row(cp, elo)
}

/// Sets the counters in `buckets` from the checkpoint `rows`.
fn merge_checkpoint(
    buckets: &mut Vec<(u64, u32, u32)>,
    gv: Ghost<Seq<GameView>>,
    rows: &[(u64, u32, u32)],
)
    requires
        keys_unique(old(buckets)@),
        forall|i: int|
            0 <= i < old(buckets)@.len() ==> ((#[trigger] old(buckets)@[i]).1, old(buckets)@[i].2)
                == checkpoint_value(rows@.subrange(0, 0), old(buckets)@[i].0),
        keys_cover(old(buckets)@, gv@, rows@.subrange(0, 0)),
    ensures
        keys_unique(final(buckets)@),
        forall|i: int|
            0 <= i < final(buckets)@.len() ==> ((#[trigger] final(buckets)@[i]).1, final(buckets)@[i].2)
                == checkpoint_value(rows@, final(buckets)@[i].0),
        keys_cover(final(buckets)@, gv@, rows@),
        keys_unique(rows@) ==> sum_totals(final(buckets)@) == sum_totals(rows@),
{
    proof {
        assert forall|i: int| 0 <= i < buckets@.len() implies (#[trigger] buckets@[i]).2 == 0 by {
            assert(rows@.subrange(0, 0).len() == 0);
        }
        lemma_sum_zero(buckets@);
        assert(sum_totals(rows@.subrange(0, 0)) == 0);
    }
    let mut j: usize = 0;
    while j < rows.len()
        invariant
            j <= rows@.len(),
            keys_unique(buckets@),
            forall|i: int|
                0 <= i < buckets@.len() ==> ((#[trigger] buckets@[i]).1, buckets@[i].2)
                    == checkpoint_value(rows@.subrange(0, j as int), buckets@[i].0),
            keys_cover(buckets@, gv@, rows@.subrange(0, j as int)),
            keys_unique(rows@) ==> sum_totals(buckets@) == sum_totals(rows@.subrange(0, j as int)),
        decreases rows@.len() - j,
    {
        let row = rows[j];
        let ghost before = buckets@;
        let ghost prev = rows@.subrange(0, j as int);
        let ghost cur = rows@.subrange(0, j + 1 as int);
        assert(cur.drop_last() == prev);
        assert(cur.last() == row);
        match find_row(buckets, row.0) {
            Some(i) => {
                buckets.set(i, row);
                assert(buckets@[i as int].0 == row.0);
                proof {
                    lemma_sum_update(before, i as int, row);
                    assert(buckets@ == before.update(i as int, row));
                    if keys_unique(rows@) {
                        assert(!has_row(prev, row.0)) by {
                            if has_row(prev, row.0) {
                                let v = choose|v: int| 0 <= v < prev.len() && (#[trigger] prev[v]).0 == row.0;
                                assert(rows@[v] == prev[v]);
                                assert(rows@[j as int] == row);
                            }
                        }
                        lemma_last_row_absent(prev, row.0);
                        assert(before[i as int].2 == 0);
                    }
                }
            },
            None => {
                buckets.push(row);
                assert(buckets@[buckets@.len() - 1].0 == row.0);
                assert(buckets@.drop_last() == before);
            },
        }
        proof {
            assert(has_row(buckets@, row.0));
            assert forall|elo: u64| has_row(before, elo) implies has_row(buckets@, elo) by {
                let w = choose|w: int| 0 <= w < before.len() && (#[trigger] before[w]).0 == elo;
                assert(buckets@[w].0 == elo);
            }
            assert forall|elo: u64|
                has_row(buckets@, elo) implies plays_in(gv@, elo) || has_row(cur, elo) by {
                let w = choose|w: int| 0 <= w < buckets@.len() && (#[trigger] buckets@[w]).0 == elo;
                if w < before.len() && buckets@[w] == before[w] {
                    assert(has_row(before, elo));
                    if has_row(prev, elo) {
                        let v = choose|v: int| 0 <= v < prev.len() && (#[trigger] prev[v]).0 == elo;
                        assert(cur[v] == prev[v]);
                    }
                } else {
                    assert(cur[j as int] == row);
                }
            }
            assert forall|elo: u64|
                plays_in(gv@, elo) || has_row(cur, elo) implies has_row(buckets@, elo) by {
                if has_row(cur, elo) && !plays_in(gv@, elo) {
                    let v = choose|v: int| 0 <= v < cur.len() && (#[trigger] cur[v]).0 == elo;
                    if v < j {
                        assert(prev[v] == cur[v]);
                        assert(has_row(prev, elo));
                    }
                }
                if plays_in(gv@, elo) || has_row(prev, elo) {
                    assert(has_row(before, elo));
                }
            }
        }
        j = j + 1;
    }
    assert(j == rows@.len());
    assert(rows@.subrange(0, j as int) == rows@);
}

/// Hands out each game once, and accounts per rating for the plies that
/// an engine was asked about (`total`) and got right (`matched`).
pub struct MoveMatching {
    games: Vec<Game>,
    buckets: Vec<(u64, u32, u32)>,
    next: usize,
    total_positions: u64,
    completed_games: usize,
    completed_positions: u64,
    base: Ghost<Seq<(u64, u32, u32)>>,
    log: Ghost<Seq<TaskRecord>>,
    pending: Ghost<Set<int>>,
}

impl MoveMatching {
    pub closed spec fn games(&self) -> Seq<GameView> {
        games_view(self.games@)
    }

    /// The counters: one `(rating, matched, total)` row per rating.
    pub closed spec fn rows(&self) -> Seq<(u64, u32, u32)> {
        self.buckets@
    }

    /// The counters as they stood when the coordinator was built.
    pub closed spec fn base_rows(&self) -> Seq<(u64, u32, u32)> {
        self.base@
    }

    /// What each finished task contributed, in order of completion.
    pub closed spec fn records(&self) -> Seq<TaskRecord> {
        self.log@
    }

    /// Games handed out and not yet finished.
    pub closed spec fn pending(&self) -> Set<int> {
        self.pending@
    }

    /// The index of the game handed out next.
    pub closed spec fn cursor(&self) -> int {
        self.next as int
    }

    pub closed spec fn spec_completed_games(&self) -> int {
        self.completed_games as int
    }

    pub closed spec fn spec_completed_positions(&self) -> int {
        self.completed_positions as int
    }

    pub closed spec fn spec_total_positions(&self) -> int {
        self.total_positions as int
    }

    pub closed spec fn wf(&self) -> bool {
        &&& self.next <= self.games@.len()
        &&& self.pending@.finite()
        &&& forall|i: int| #[trigger] self.pending@.contains(i) ==> 0 <= i < self.next
        &&& self.completed_games + self.pending@.len() == self.next
        &&& self.total_positions == capped(positions_before(self.games(), self.games@.len() as int))
        &&& keys_unique(self.buckets@)
        &&& forall|i: int|
            0 <= i < self.games@.len() ==> has_row(self.buckets@, (#[trigger] self.games@[i]).black_elo)
                && has_row(self.buckets@, self.games@[i].white_elo)
        &&& rows_account(self.buckets@, self.base@, self.log@)
    }

    /// Whether `task` was handed out by this coordinator and is not finished.
    pub open spec fn issued(&self, task: &MoveMatchingTask) -> bool {
        &&& self.pending().contains(task.game_index())
        &&& 0 <= task.game_index() < self.games().len()
        &&& task.players() == (
            self.games()[task.game_index()].black_elo,
            self.games()[task.game_index()].white_elo,
        )
        &&& task.moves_view() == self.games()[task.game_index()].moves
    }

    pub fn completed_games(&self) -> (r: u64)
        ensures
            r == self.spec_completed_games(),
    {
        self.completed_games as u64
    }

    pub fn completed_positions(&self) -> (r: u64)
        ensures
            r == self.spec_completed_positions(),
    {
        self.completed_positions
    }

    pub fn total_games(&self) -> (r: u64)
        ensures
            r == self.games().len(),
    {
        self.games.len() as u64
    }

    /// Plies that all the games together have to evaluate.
    pub fn total_positions(&self) -> (r: u64)
        requires
            self.wf(),
        ensures
            r == capped(positions_before(self.games(), self.games().len() as int)),
    {
        self.total_positions
    }

    /// Whether every game has been finished.
    pub fn is_completed(&self) -> (r: bool)
        ensures
            r == (self.spec_completed_games() == self.games().len()),
    {
        self.completed_games == self.games.len()
    }

    /// The counters, one `(rating, matched, total)` row per rating.
    pub fn snapshot(&self) -> (r: Vec<(u64, u32, u32)>)
        requires
            self.wf(),
        ensures
            r@ == self.rows(),
            keys_unique(r@),
    {
        vstd::slice::slice_to_vec(self.buckets.as_slice())
    }

    /// Hands out the next game, each game once; `None` once all have been
    /// handed out, then and ever after.
    pub fn get_next_task(&mut self) -> (r: Option<MoveMatchingTask>)
        requires
            old(self).wf(),
        ensures
            final(self).wf(),
            final(self).games() == old(self).games(),
            final(self).rows() == old(self).rows(),
            final(self).base_rows() == old(self).base_rows(),
            final(self).records() == old(self).records(),
            final(self).spec_completed_games() == old(self).spec_completed_games(),
            final(self).spec_completed_positions() == old(self).spec_completed_positions(),
            final(self).cursor() == next_step(old(self).cursor(), old(self).games().len() as int).1,
            next_step(old(self).cursor(), old(self).games().len() as int).0 == match r {
                Some(t) => Some(t.game_index()),
                None => None::<int>,
            },
            old(self).cursor() < old(self).games().len() ==> {
                &&& final(self).cursor() == old(self).cursor() + 1
                &&& final(self).pending() == old(self).pending().insert(old(self).cursor())
                &&& r matches Some(t) && {
                    &&& t.wf()
                    &&& t.running() <==> evaluated_count(t.moves_view().len() as int) > 0
                    &&& t.game_index() == old(self).cursor()
                    &&& final(self).issued(&t)
                    &&& t.ply() == HEAD_SKIP
                    &&& t.black_counts() == (0nat, 0nat)
                    &&& t.white_counts() == (0nat, 0nat)
                    &&& !t.aborted()
                }
            },
            old(self).cursor() >= old(self).games().len() ==> {
                &&& r is None
                &&& final(self).cursor() == old(self).cursor()
                &&& final(self).pending() == old(self).pending()
            },
    {
        if self.next >= self.games.len() {
            return None;
        }
        let i = self.next;
        let g = &self.games[i];
        let task = MoveMatchingTask {
            game: i,
            black_elo: g.black_elo,
            white_elo: g.white_elo,
            moves: vstd::slice::slice_to_vec(g.moves.as_slice()),
            idx: HEAD_SKIP,
            black: (0, 0),
            white: (0, 0),
            stopped: false,
        };
        proof {
            assert(self.games()[i as int] == self.games@[i as int]@);
            assert(!self.pending@.contains(i as int));
            self.pending@ = self.pending@.insert(i as int);
        }
        self.next = i + 1;
        Some(task)
    }

    /// Takes back a finished task and adds what it scored to its players'
    /// counters. A task that an exchange ended early counts as finished
    /// too, with the plies it evaluated before.
    pub fn complete_task(&mut self, task: MoveMatchingTask)
        requires
            old(self).wf(),
            task.wf(),
            old(self).issued(&task),
        ensures
            final(self).wf(),
            final(self).games() == old(self).games(),
            final(self).cursor() == old(self).cursor(),
            final(self).base_rows() == old(self).base_rows(),
            final(self).records() == old(self).records().push(task.record()),
            final(self).pending() == old(self).pending().remove(task.game_index()),
            final(self).spec_completed_games() == old(self).spec_completed_games() + 1,
            final(self).spec_completed_positions() == capped(
                old(self).spec_completed_positions() + task.black_counts().1
                    + task.white_counts().1,
            ),
            forall|i: int|
                0 <= i < final(self).rows().len() ==> (#[trigger] final(self).rows()[i]).0 == old(
                    self,
                ).rows()[i].0,
            final(self).rows().len() == old(self).rows().len(),
    {
        let ghost old_rows = self.buckets@;
        let ghost rec = task.record();
        let ghost g = task.game_index();
        assert(self.games@[g]@ == self.games()[g]);
        let bi = match find_row(&self.buckets, task.black_elo) {
            Some(i) => i,
            None => {
                assert(false);
                0
            },
        };
        let wi = match find_row(&self.buckets, task.white_elo) {
            Some(i) => i,
            None => {
                assert(false);
                0
            },
        };
        if bi == wi {
            let (k, m, t) = self.buckets[bi];
            self.buckets.set(
                bi,
                (k, bump(m, task.black.0 + task.white.0), bump(t, task.black.1 + task.white.1)),
            );
        } else {
            let (k, m, t) = self.buckets[bi];
            self.buckets.set(bi, (k, bump(m, task.black.0), bump(t, task.black.1)));
            let (k2, m2, t2) = self.buckets[wi];
            self.buckets.set(wi, (k2, bump(m2, task.white.0), bump(t2, task.white.1)));
        }
        proof {
            assert forall|i: int| 0 <= i < self.buckets@.len() implies {
                let n = #[trigger] self.buckets@[i];
                let o = old_rows[i];
                let c = contribution(rec, o.0);
                &&& n.0 == o.0
                &&& n.1 == capped32(o.1 + c.0)
                &&& n.2 == capped32(o.2 + c.1)
            } by {
                let o = old_rows[i];
                if i != bi as int {
                    assert(old_rows[bi as int].0 != o.0);
                }
                if i != wi as int {
                    assert(old_rows[wi as int].0 != o.0);
                }
            }
            lemma_rows_take_record(old_rows, self.buckets@, self.base@, self.log@, rec);
            self.log@ = self.log@.push(rec);
            assert forall|i: int|
                0 <= i < self.games@.len() implies has_row(
                self.buckets@,
                (#[trigger] self.games@[i]).black_elo,
            ) && has_row(self.buckets@, self.games@[i].white_elo) by {
                let gi = self.games@[i];
                let j1 = choose|j: int| 0 <= j < old_rows.len() && (#[trigger] old_rows[j]).0 == gi.black_elo;
                let j2 = choose|j: int| 0 <= j < old_rows.len() && (#[trigger] old_rows[j]).0 == gi.white_elo;
                assert(self.buckets@[j1].0 == gi.black_elo);
                assert(self.buckets@[j2].0 == gi.white_elo);
            }
            assert(self.pending@.contains(g));
            self.pending@ = self.pending@.remove(g);
        }
        self.completed_games = self.completed_games + 1;
        self.completed_positions = self.completed_positions.saturating_add(
            (task.black.1 + task.white.1) as u64,
        );
    }

    /// Builds the coordinator for `games`, every counter at zero, with one
    /// row for each rating that a player of the games has.
    pub fn from_games(games: &[Game]) -> (r: MoveMatching)
        ensures
            r.wf(),
            r.games() == games_view(games@),
            r.cursor() == 0,
            r.pending() == Set::<int>::empty(),
            r.records() == Seq::<TaskRecord>::empty(),
            r.spec_completed_games() == 0,
            r.spec_completed_positions() == 0,
            r.base_rows() == r.rows(),
            keys_unique(r.rows()),
            forall|i: int| 0 <= i < r.rows().len() ==> (#[trigger] r.rows()[i]).1 == 0 && r.rows()[i].2 == 0,
            forall|elo: u64| has_row(r.rows(), elo) <==> plays_in(games_view(games@), elo),
    {
        let ghost gv = games_view(games@);
        let mut copies: Vec<Game> = Vec::new();
        let mut rows: Vec<(u64, u32, u32)> = Vec::new();
        let mut total: u64 = 0;
        let mut i: usize = 0;
        while i < games.len()
            invariant
                i <= games@.len(),
                gv == games_view(games@),
                copies@.len() == i,
                forall|j: int| 0 <= j < i ==> (#[trigger] copies@[j])@ == games@[j]@,
                total == capped(positions_before(gv, i as int)),
                keys_unique(rows@),
                forall|j: int| 0 <= j < rows@.len() ==> (#[trigger] rows@[j]).1 == 0 && rows@[j].2 == 0,
                forall|j: int|
                    0 <= j < i ==> has_row(rows@, (#[trigger] games@[j]).black_elo) && has_row(
                        rows@,
                        games@[j].white_elo,
                    ),
                forall|elo: u64| has_row(rows@, elo) ==> plays_in(gv, elo),
            decreases games@.len() - i,
        {
            let g = &games[i];
            assert(gv[i as int] == g@);
            copies.push(g.duplicate());
            let len = g.moves.len();
            let count: usize = if len >= HEAD_SKIP + TAIL_SKIP {
                len - HEAD_SKIP - TAIL_SKIP
            } else {
                0
            };
            total = total.saturating_add(count as u64);
            let ghost before = rows@;
            match find_row(&rows, g.white_elo) {
                Some(j) => {
                    assert(rows@[j as int].0 == g.white_elo);
                },
                None => {
                    rows.push((g.white_elo, 0, 0));
                    assert(rows@[rows@.len() - 1].0 == g.white_elo);
                },
            }
            let ghost mid = rows@;
            match find_row(&rows, g.black_elo) {
                Some(j) => {
                    assert(rows@[j as int].0 == g.black_elo);
                },
                None => {
                    rows.push((g.black_elo, 0, 0));
                    assert(rows@[rows@.len() - 1].0 == g.black_elo);
                },
            }
            proof {
                assert forall|elo: u64| has_row(before, elo) implies has_row(rows@, elo) by {
                    let j = choose|j: int| 0 <= j < before.len() && (#[trigger] before[j]).0 == elo;
                    assert(mid[j] == before[j]);
                    assert(rows@[j] == before[j]);
                }
                assert(has_row(mid, g.white_elo));
                assert forall|elo: u64| has_row(mid, elo) implies has_row(rows@, elo) by {
                    let j = choose|j: int| 0 <= j < mid.len() && (#[trigger] mid[j]).0 == elo;
                    assert(rows@[j] == mid[j]);
                }
                assert(has_row(rows@, g.white_elo));
                assert(has_row(rows@, g.black_elo));
                assert forall|j: int|
                    0 <= j < i + 1 implies has_row(rows@, (#[trigger] games@[j]).black_elo)
                    && has_row(rows@, games@[j].white_elo) by {
                    if j < i {
                        assert(has_row(before, games@[j].black_elo));
                        assert(has_row(before, games@[j].white_elo));
                    }
                }
                assert forall|elo: u64| has_row(rows@, elo) implies plays_in(gv, elo) by {
                    let j = choose|j: int| 0 <= j < rows@.len() && (#[trigger] rows@[j]).0 == elo;
                    if j < before.len() {
                        assert(before[j] == rows@[j]);
                        assert(has_row(before, elo));
                    } else {
                        assert(gv[i as int].black_elo == elo || gv[i as int].white_elo == elo);
                    }
                }
            }
            i = i + 1;
        }
        proof {
            assert(games_view(copies@) =~= gv);
            assert forall|elo: u64| plays_in(gv, elo) implies has_row(rows@, elo) by {
                let j = choose|j: int| 0 <= j < gv.len() && ((#[trigger] gv[j]).black_elo == elo || gv[j].white_elo == elo);
                assert(games@[j]@ == gv[j]);
            }
        }
        MoveMatching {
            games: copies,
            buckets: rows,
            next: 0,
            total_positions: total,
            completed_games: 0,
            completed_positions: 0,
            base: Ghost(rows@),
            log: Ghost(Seq::empty()),
            pending: Ghost(Set::empty()),
        }
    }

    /// Builds the coordinator for `games` and sets its counters from the
    /// rows of a checkpoint, the last row of a rating winning; ratings that
    /// the checkpoint lacks stay at zero. The games whose expected plies
    /// fit, one after another, in the checkpoint's total count as finished,
    /// and the work resumes at the first that does not.
    pub fn from_checkpoint(games: &[Game], rows: &[(u64, u32, u32)]) -> (r: MoveMatching)
        ensures
            r.wf(),
            r.games() == games_view(games@),
            r.pending() == Set::<int>::empty(),
            r.records() == Seq::<TaskRecord>::empty(),
            r.base_rows() == r.rows(),
            keys_unique(r.rows()),
            forall|i: int|
                0 <= i < r.rows().len() ==> ((#[trigger] r.rows()[i]).1, r.rows()[i].2)
                    == checkpoint_value(rows@, r.rows()[i].0),
            forall|elo: u64|
                has_row(r.rows(), elo) <==> plays_in(games_view(games@), elo) || has_row(
                    rows@,
                    elo,
                ),
            r.cursor() == resume_from(
                games_view(games@),
                0,
                capped(sum_totals(r.rows())),
            ),
            r.spec_completed_games() == r.cursor(),
            r.spec_completed_positions() == positions_before(games_view(games@), r.cursor()),
            keys_unique(rows@) ==> sum_totals(r.rows()) == sum_totals(rows@),
    {
        let ghost gv = games_view(games@);
        let mut m = MoveMatching::from_games(games);
        proof {
            assert forall|i: int|
                0 <= i < m.buckets@.len() implies ((#[trigger] m.buckets@[i]).1, m.buckets@[i].2)
                == checkpoint_value(rows@.subrange(0, 0), m.buckets@[i].0) by {}
            assert forall|elo: u64|
                plays_in(gv, elo) || has_row(rows@.subrange(0, 0), elo) implies has_row(m.buckets@, elo) by {
                if has_row(rows@.subrange(0, 0), elo) {
                    let v = choose|v: int| 0 <= v < 0 && (#[trigger] rows@.subrange(0, 0)[v]).0 == elo;
                }
            }
        }
        merge_checkpoint(&mut m.buckets, Ghost(gv), rows);
        proof {
            assert(rows@.subrange(0, rows@.len() as int) == rows@);
            assert forall|i: int|
                0 <= i < m.games@.len() implies has_row(
                m.buckets@,
                (#[trigger] m.games@[i]).black_elo,
            ) && has_row(m.buckets@, m.games@[i].white_elo) by {
                assert(gv[i] == m.games@[i]@);
                assert(plays_in(gv, m.games@[i].black_elo));
                assert(plays_in(gv, m.games@[i].white_elo));
            }
        }
        let budget = sum_capped(&m.buckets);
        let (k, done) = walk(&m.games, budget);
        m.next = k;
        m.completed_games = k;
        m.completed_positions = done;
        m.base = Ghost(m.buckets@);
        m.log = Ghost(Seq::empty());
        m.pending = Ghost(Set::empty());
        proof {
            assert forall|i: int| 0 <= i < m.buckets@.len() implies {
                let r = #[trigger] m.buckets@[i];
                let b = m.base@[i];
                &&& r.0 == b.0
                &&& r.1 == capped32(b.1 + matched_for(m.log@, r.0))
                &&& r.2 == capped32(b.2 + total_for(m.log@, r.0))
            } by {}
        }
        m
    }
}

/// Every rating's counters hold what they started from plus, summed over
/// the finished tasks of games that a player of that rating played, the
/// plies that the task evaluated and matched for that player's side
/// (held at `u32::MAX`, as the counters are).
pub proof fn lemma_counters_account(m: &MoveMatching)
    requires
        m.wf(),
    ensures
        rows_account(m.rows(), m.base_rows(), m.records()),
{
}

/// Every rating has one row, and only one, in every state.
pub proof fn lemma_rows_unique(m: &MoveMatching)
    requires
        m.wf(),
    ensures
        keys_unique(m.rows()),
{
}

/// The side evaluated at ply `p` is the first mover's exactly when `p` is
/// even: a task's per-side totals count the even and the odd plies of the
/// range it has evaluated, and its matches never exceed them.
pub proof fn lemma_task_sides(t: &MoveMatchingTask)
    requires
        t.wf(),
    ensures
        t.black_counts().1 == side_count(HEAD_SKIP as int, t.ply(), 0),
        t.white_counts().1 == side_count(HEAD_SKIP as int, t.ply(), 1),
        t.black_counts().0 <= t.black_counts().1,
        t.white_counts().0 <= t.white_counts().1,
        HEAD_SKIP <= t.ply() <= eval_end(t.moves_view().len() as int),
{
}

/// A checkpoint with one row per rating, whose totals add up to the plies of
/// exactly the first `k` games, resumes at game `k`, where the game at `k`
/// has plies to evaluate (or `k` is the number of games); `from_checkpoint`
/// then counts `k` games and their plies as done.
pub proof fn lemma_resume_from_checkpoint(games: Seq<GameView>, rows: Seq<(u64, u32, u32)>, k: int)
    requires
        0 <= k <= games.len(),
        k < games.len() ==> evaluated_count(games[k].moves.len() as int) > 0,
        keys_unique(rows),
        sum_totals(rows) == positions_before(games, k),
        sum_totals(rows) <= u64::MAX,
    ensures
        resume_from(games, 0, capped(sum_totals(rows))) == k,
{
    lemma_resume_between(games, 0, k);
}

} // verus!
