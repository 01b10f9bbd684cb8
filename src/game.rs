use vstd::prelude::*;
use crate::board::{
    COLS, ROWS, HIDDEN, INIT_INTERVAL, MIN_INTERVAL, board_ok, cell_ok, cleared, reaches_buffer,
    occupied, full_row, lemma_cleared_rows_not_full, clear_lines, in_buffer, rows_at_most, lemma_cleared_keeps, lemma_clearing_never_slows,
};
use crate::piece::{
    Piece, spawned, anchor_ok, cells_of, shifted, spawn_low, spawn_high, spawn_row, lemma_cells_of,
    lemma_cells_shifted,
};
use crate::shape::{Shape, rotated, random_shape};
use crate::random::draw_between;

verus! {

/// How long, in milliseconds, a grounded piece waits before it is glued.
pub const LIMBO_TIME: u32 = 500;

/// A logical command from the player.
#[derive(Clone, Copy, Debug, PartialEq, Eq, Structural)]
pub enum Command {
    MoveLeft,
    MoveRight,
    Rotate,
    SoftDrop,
    HardDrop,
    Hold,
    TogglePause,
    NewGame,
}

/// What the engine reacts to: a command, a gravity tick, or the end of a
/// lock delay.
#[derive(Clone, Copy, Debug, PartialEq, Eq, Structural)]
pub enum Event {
    Key(Command),
    Tick,
    Glue,
}

/// The event a timer delivers when it fires.
#[derive(Clone, Copy, Debug, PartialEq, Eq, Structural)]
pub enum TimerKind {
    Tick,
    Glue,
}

/// What to do with the single outstanding timer.
#[derive(Clone, Copy, Debug, PartialEq, Eq, Structural)]
pub enum TimerAction {
    /// Leave it as it is.
    Keep,
    /// Cancel it, then arm one that fires the given event after the given
    /// number of milliseconds.
    Arm(TimerKind, u32),
    /// Cancel it and arm none.
    Cancel,
}

/// What the caller must do after a transition.
#[derive(Clone, Copy, Debug, PartialEq, Eq, Structural)]
pub struct Effects {
    pub timer: TimerAction,
    /// A new high score to store.
    pub new_highscore: Option<u32>,
}

/// The random values a transition may use: the anchor column of a piece
/// that spawns, the shape of a new game's first piece, and the shape that
/// becomes the next one.
#[derive(Clone, Copy, Debug)]
pub struct Draws {
    pub column: i32,
    pub shape: Shape,
    pub next: Shape,
}

/// A game in progress.
#[derive(Clone, Debug)]
pub struct Game {
    pub board: Vec<(i32, i32)>,
    pub active: Piece,
    pub next: Shape,
    pub held: Option<Shape>,
    pub score: u32,
    pub highscore: Option<u32>,
    /// Milliseconds between gravity ticks.
    pub interval: u32,
    /// False while paused.
    pub playing: bool,
    /// The active piece is grounded and waits to be glued.
    pub in_limbo: bool,
}

/// The engine's state.
#[derive(Clone, Debug)]
pub enum State {
    GameOver { score: u32, beat_highscore: bool, highscore: Option<u32> },
    Playing(Game),
}

/// A game in progress as the contracts see it.
pub struct GameModel {
    pub board: Seq<(i32, i32)>,
    pub active: Piece,
    pub next: Shape,
    pub held: Option<Shape>,
    pub score: u32,
    pub highscore: Option<u32>,
    pub interval: u32,
    pub playing: bool,
    pub in_limbo: bool,
}

/// The engine's state as the contracts see it.
pub enum StateModel {
    GameOver { score: u32, beat_highscore: bool, highscore: Option<u32> },
    Playing(GameModel),
}

impl View for Game {
    type V = GameModel;

    open spec fn view(&self) -> GameModel {
        GameModel {
            board: self.board@,
            active: self.active,
            next: self.next,
            held: self.held,
            score: self.score,
            highscore: self.highscore,
            interval: self.interval,
            playing: self.playing,
            in_limbo: self.in_limbo,
        }
    }
}

impl View for State {
    type V = StateModel;

    open spec fn view(&self) -> StateModel {
        match self {
            State::GameOver { score, beat_highscore, highscore } => StateModel::GameOver {
                score: *score,
                beat_highscore: *beat_highscore,
                highscore: *highscore,
            },
            State::Playing(g) => StateModel::Playing(g@),
        }
    }
}

/// Every cell lies within the columns and off the board.
pub open spec fn fits(board: Seq<(i32, i32)>, cells: Seq<(i32, i32)>) -> bool {
    forall|i: int| 0 <= i < cells.len() ==> 0 <= (#[trigger] cells[i]).0 < COLS && !board.contains(cells[i])
}

/// The piece can move down one row: below each of its cells lies neither
/// the floor nor a board cell.
pub open spec fn can_fall(board: Seq<(i32, i32)>, p: Piece) -> bool {
    forall|i: int| 0 <= i < cells_of(p).len() ==> {
        let c = #[trigger] cells_of(p)[i];
        c.1 + 1 < ROWS && !board.contains((c.0, (c.1 + 1) as i32))
    }
}

/// The piece after at most `n` steps down, stopping where it can fall no
/// further.
pub open spec fn fall(board: Seq<(i32, i32)>, p: Piece, n: nat) -> Piece
    decreases n,
{
    if n == 0 || !can_fall(board, p) {
        p
    } else {
        fall(board, shifted(p, 0, 1), (n - 1) as nat)
    }
}

/// The piece dropped as far as it can go.
pub open spec fn hard_dropped(board: Seq<(i32, i32)>, p: Piece) -> Piece {
    fall(board, p, (ROWS + 3) as nat)
}

/// `q` where it fits, else `p` unchanged.
pub open spec fn try_place(board: Seq<(i32, i32)>, p: Piece, q: Piece) -> Piece {
    if fits(board, cells_of(q)) {
        q
    } else {
        p
    }
}

/// The piece with its shape turned a quarter clockwise in place.
pub open spec fn turned(p: Piece) -> Piece {
    Piece { center: p.center, shape: rotated(p.shape) }
}

/// `s` anchored at `column` on its spawn row.
pub open spec fn spawn(s: Shape, column: i32) -> Piece {
    Piece { center: (column, spawn_row(s)), shape: s }
}

/// The game right after a command or event, before the lock delay is
/// reconsidered, with what becomes of the timer.
pub open spec fn act(g: GameModel, e: Event, d: Draws) -> (GameModel, TimerAction) {
    let a = g.active;
    match e {
        Event::Tick => (
            GameModel { active: if can_fall(g.board, a) { shifted(a, 0, 1) } else { a }, ..g },
            TimerAction::Arm(TimerKind::Tick, g.interval),
        ),
        Event::Glue => {
            let (b, s, v) = cleared(g.board + cells_of(a), g.score, g.interval, 0);
            (
                GameModel {
                    board: b,
                    active: spawn(g.next, d.column),
                    next: d.next,
                    score: s,
                    interval: v,
                    in_limbo: false,
                    ..g
                },
                TimerAction::Arm(TimerKind::Tick, v),
            )
        },
        Event::Key(c) => (
            match c {
                Command::MoveLeft => GameModel { active: try_place(g.board, a, shifted(a, -1, 0)), ..g },
                Command::MoveRight => GameModel { active: try_place(g.board, a, shifted(a, 1, 0)), ..g },
                Command::Rotate => GameModel { active: try_place(g.board, a, turned(a)), ..g },
                Command::SoftDrop => GameModel {
                    active: if can_fall(g.board, a) { shifted(a, 0, 1) } else { a },
                    ..g
                },
                Command::HardDrop => GameModel { active: hard_dropped(g.board, a), ..g },
                Command::TogglePause => GameModel { playing: false, ..g },
                Command::Hold => match g.held {
                    Some(h) => GameModel { active: spawn(h, d.column), held: Some(a.shape), ..g },
                    None => GameModel {
                        active: spawn(g.next, d.column),
                        held: Some(a.shape),
                        next: d.next,
                        ..g
                    },
                },
                Command::NewGame => g,
            },
            TimerAction::Keep,
        ),
    }
}

/// The lock delay reconsidered after `before` became `g.active`: a grounded
/// piece that was falling, or that moved, (re)arms the glue timer; a piece
/// that left the ground goes back to gravity.
pub open spec fn settle(before: Piece, g: GameModel, t: TimerAction) -> (GameModel, TimerAction) {
    if !can_fall(g.board, g.active) {
        if g.active != before || !g.in_limbo {
            (GameModel { in_limbo: true, ..g }, TimerAction::Arm(TimerKind::Glue, LIMBO_TIME))
        } else {
            (g, t)
        }
    } else if g.in_limbo {
        (GameModel { in_limbo: false, ..g }, TimerAction::Arm(TimerKind::Tick, g.interval))
    } else {
        (g, t)
    }
}

/// The score beats the stored high score, or none is stored.
pub open spec fn beats(score: u32, highscore: Option<u32>) -> bool {
    match highscore {
        Some(h) => score > h,
        None => true,
    }
}

/// The game goes on, or ends once the stack reaches the hidden buffer.
pub open spec fn finish(g: GameModel, t: TimerAction) -> (StateModel, Effects) {
    if reaches_buffer(g.board) {
        let beat = beats(g.score, g.highscore);
        let kept = if beat { g.score } else { g.highscore.unwrap() };
        (
            StateModel::GameOver { score: g.score, beat_highscore: beat, highscore: Some(kept) },
            Effects { timer: TimerAction::Cancel, new_highscore: if beat { Some(g.score) } else { None } },
        )
    } else {
        (StateModel::Playing(g), Effects { timer: t, new_highscore: None })
    }
}

/// A new game: empty board, nothing held, no score.
pub open spec fn fresh_game(highscore: Option<u32>, d: Draws) -> GameModel {
    GameModel {
        board: Seq::empty(),
        active: spawn(d.shape, d.column),
        next: d.next,
        held: None,
        score: 0,
        highscore,
        interval: INIT_INTERVAL,
        playing: true,
        in_limbo: false,
    }
}

/// Nothing to do: the timer stays as it is and nothing is stored.
pub open spec fn no_effects() -> Effects {
    Effects { timer: TimerAction::Keep, new_highscore: None }
}

/// The engine's transition on one event.
pub open spec fn next_state(m: StateModel, e: Event, d: Draws) -> (StateModel, Effects) {
    match m {
        StateModel::GameOver { highscore, .. } => if e == Event::Key(Command::NewGame) {
            (
                StateModel::Playing(fresh_game(highscore, d)),
                Effects { timer: TimerAction::Arm(TimerKind::Tick, INIT_INTERVAL), new_highscore: None },
            )
        } else {
            (m, no_effects())
        },
        StateModel::Playing(g) => if !g.playing {
            if e == Event::Key(Command::TogglePause) {
                (
                    StateModel::Playing(GameModel { playing: true, in_limbo: false, ..g }),
                    Effects { timer: TimerAction::Arm(TimerKind::Tick, g.interval), new_highscore: None },
                )
            } else {
                (m, no_effects())
            }
        } else {
            let (g1, t1) = act(g, e, d);
            let (g2, t2) = settle(g.active, g1, t1);
            finish(g2, t2)
        },
    }
}

/// The shape that spawns on this event, if any; `shape` is the drawn one.
pub open spec fn spawn_target(m: StateModel, e: Event, shape: Shape) -> Option<Shape> {
    match m {
        StateModel::GameOver { .. } => if e == Event::Key(Command::NewGame) {
            Some(shape)
        } else {
            None
        },
        StateModel::Playing(g) => if !g.playing {
            None
        } else {
            match e {
                Event::Glue => Some(g.next),
                Event::Key(Command::Hold) => match g.held {
                    Some(h) => Some(h),
                    None => Some(g.next),
                },
                _ => None,
            }
        },
    }
}

/// The drawn column suits the shape that spawns, if one does.
pub open spec fn draws_ok(m: StateModel, e: Event, d: Draws) -> bool {
    match spawn_target(m, e, d.shape) {
        Some(s) => spawn_low(s) <= d.column < spawn_high(s),
        None => true,
    }
}

/// All that holds of a game between events except that its stack may have
/// reached the buffer, in which case the active piece may overlap it.
pub open spec fn game_shape_ok(g: GameModel) -> bool {
    let a = g.active;
    &&& board_ok(g.board)
    &&& forall|i: int| 0 <= i < g.board.len() ==> (#[trigger] g.board[i]).1 <= ROWS + 1
    &&& 0 <= a.center.0 < COLS
    &&& 1 <= a.center.1 <= ROWS - 1
    &&& forall|i: int| 0 <= i < cells_of(a).len() ==> 0 <= (#[trigger] cells_of(a)[i]).0 < COLS
    &&& !reaches_buffer(g.board) ==> fits(g.board, cells_of(a))
    &&& MIN_INTERVAL <= g.interval <= INIT_INTERVAL
    &&& forall|k: i32| 0 <= k < ROWS ==> !#[trigger] full_row(g.board, k)
}

/// A game between events: distinct board cells below the buffer, no full
/// row, and an active piece within the columns that overlaps none of them.
pub open spec fn game_ok(g: GameModel) -> bool {
    game_shape_ok(g) && !reaches_buffer(g.board)
}

/// The invariant of the engine's state.
pub open spec fn state_ok(m: StateModel) -> bool {
    match m {
        StateModel::GameOver { .. } => true,
        StateModel::Playing(g) => game_ok(g),
    }
}

/// Moving a piece that can fall down one row keeps it within the columns,
/// off the board and above the floor.
proof fn lemma_fall_step(board: Seq<(i32, i32)>, p: Piece)
    requires
        anchor_ok(p),
        can_fall(board, p),
        forall|i: int| 0 <= i < cells_of(p).len() ==> 0 <= (#[trigger] cells_of(p)[i]).0 < COLS,
    ensures
        p.center.1 + 1 < ROWS,
        fits(board, cells_of(shifted(p, 0, 1))),
{
    lemma_cells_of(p);
    lemma_cells_shifted(p, 0, 1);
    let q = cells_of(shifted(p, 0, 1));
    assert(cells_of(p)[0] == p.center);
    assert forall|i: int| 0 <= i < q.len() implies 0 <= (#[trigger] q[i]).0 < COLS && !board.contains(q[i]) by {
        let c = cells_of(p)[i];
        assert(0 <= c.0 < COLS);
    }
}

/// A piece that fits lies within the columns, and so does its anchor.
proof fn lemma_fits_anchor(board: Seq<(i32, i32)>, p: Piece)
    requires
        anchor_ok(p),
        fits(board, cells_of(p)),
    ensures
        0 <= p.center.0 < COLS,
        forall|i: int| 0 <= i < cells_of(p).len() ==> 0 <= (#[trigger] cells_of(p)[i]).0 < COLS,
{
    lemma_cells_of(p);
    assert(cells_of(p)[0] == p.center);
}

/// A spawned piece lies above every cell of a board below the buffer.
proof fn lemma_spawn_fits(board: Seq<(i32, i32)>, s: Shape, column: i32)
    requires
        spawn_low(s) <= column < spawn_high(s),
        !reaches_buffer(board),
    ensures
        fits(board, cells_of(spawn(s, column))),
        0 <= column < COLS,
        1 <= spawn_row(s) <= HIDDEN - 1,
        forall|i: int| 0 <= i < cells_of(spawn(s, column)).len() ==> 0 <= (#[trigger] cells_of(spawn(s, column))[i]).0 < COLS,
{
    let p = spawn(s, column);
    crate::piece::lemma_spawned_cells(s, p);
    lemma_cells_of(p);
    let q = cells_of(p);
    assert forall|i: int| 0 <= i < q.len() implies 0 <= (#[trigger] q[i]).0 < COLS && !board.contains(q[i]) by {
        if board.contains(q[i]) {
            let j = choose|j: int| 0 <= j < board.len() && board[j] == q[i];
            assert(!(board[j].1 <= HIDDEN));
        }
    }
}

/// Whether every cell lies within the columns and off the board.
pub fn cells_fit(board: &Vec<(i32, i32)>, cells: &Vec<(i32, i32)>) -> (r: bool)
    ensures
        r == fits(board@, cells@),
{
    let mut i: usize = 0;
    while i < cells.len()
        invariant
            0 <= i <= cells@.len(),
            forall|k: int| 0 <= k < i ==> 0 <= (#[trigger] cells@[k]).0 < COLS && !board@.contains(cells@[k]),
        decreases cells@.len() - i,
    {
        let c = cells[i];
        if c.0 < 0 || c.0 >= COLS || occupied(board, c) {
            return false;
        }
        i = i + 1;
    }
    true
}

/// Whether the piece can move down one row.
pub fn piece_can_fall(board: &Vec<(i32, i32)>, p: &Piece) -> (r: bool)
    requires
        anchor_ok(*p),
    ensures
        r == can_fall(board@, *p),
{
    proof {
        lemma_cells_of(*p);
    }
    let sq = p.squares();
    let mut i: usize = 0;
    while i < 4
        invariant
            0 <= i <= 4,
            anchor_ok(*p),
            sq@ == cells_of(*p),
            sq@.len() == 4,
            forall|k: int| 0 <= k < 4 ==> {
                let c = #[trigger] cells_of(*p)[k];
                &&& p.center.0 - 2 <= c.0 <= p.center.0 + 2
                &&& p.center.1 - 2 <= c.1 <= p.center.1 + 2
            },
            forall|k: int| 0 <= k < i ==> {
                let c = #[trigger] cells_of(*p)[k];
                c.1 + 1 < ROWS && !board@.contains((c.0, (c.1 + 1) as i32))
            },
        decreases 4 - i,
    {
        let c = sq[i];
        if c.1 + 1 >= ROWS || occupied(board, (c.0, c.1 + 1)) {
            return false;
        }
        i = i + 1;
    }
    true
}

/// The piece dropped as far as it can go.
pub fn drop_piece(board: &Vec<(i32, i32)>, p: Piece) -> (r: Piece)
    requires
        fits(board@, cells_of(p)),
        anchor_ok(p),
        1 <= p.center.1 <= ROWS - 1,
    ensures
        r == hard_dropped(board@, p),
        fits(board@, cells_of(r)),
        0 <= r.center.0 < COLS,
        1 <= r.center.1 <= ROWS - 1,
{
    proof {
        lemma_fits_anchor(board@, p);
    }
    let mut cur = p;
    while piece_can_fall(board, &cur)
        invariant
            fits(board@, cells_of(cur)),
            0 <= cur.center.0 < COLS,
            p.center.1 <= cur.center.1 <= ROWS - 1,
            1 <= p.center.1,
            hard_dropped(board@, p) == fall(board@, cur, (ROWS + 3 - (cur.center.1 - p.center.1)) as nat),
        decreases ROWS - cur.center.1,
    {
        proof {
            lemma_fits_anchor(board@, cur);
            lemma_fall_step(board@, cur);
        }
        let next = Piece { center: (cur.center.0, cur.center.1 + 1), shape: cur.shape };
        assert(next == shifted(cur, 0, 1));
        cur = next;
        proof {
            lemma_fits_anchor(board@, cur);
        }
    }
    cur
}

/// Gluing the active piece of a game keeps the board's cells distinct and
/// bounded.
proof fn lemma_glued(g: GameModel)
    requires
        game_ok(g),
    ensures
        board_ok(g.board + cells_of(g.active)),
        rows_at_most(g.board + cells_of(g.active), ROWS + 1),
{
    let a = g.active;
    let q = cells_of(a);
    let b = g.board;
    let m = b + q;
    lemma_cells_of(a);
    assert forall|i: int| 0 <= i < m.len() implies cell_ok(#[trigger] m[i]) && m[i].1 <= ROWS + 1 by {
        if i < b.len() {
            assert(m[i] == b[i]);
            assert(cell_ok(b[i]));
        } else {
            assert(m[i] == q[i - b.len()]);
        }
    }
    assert(m.no_duplicates()) by {
        assert forall|i: int, j: int| 0 <= i < m.len() && 0 <= j < m.len() && i != j implies m[i] != m[j] by {
            if i < b.len() && j < b.len() {
                assert(m[i] == b[i] && m[j] == b[j]);
            } else if i >= b.len() && j >= b.len() {
                assert(m[i] == q[i - b.len()] && m[j] == q[j - b.len()]);
            } else if i < b.len() {
                assert(m[j] == q[j - b.len()]);
                assert(b.contains(m[i]));
                assert(!b.contains(q[j - b.len()]));
            } else {
                assert(m[i] == q[i - b.len()]);
                assert(b.contains(m[j]));
                assert(!b.contains(q[i - b.len()]));
            }
        }
    }
}

/// One step down where the piece can fall.
fn lower_active(g: Game) -> (r: Game)
    requires
        game_ok(g@),
    ensures
        r@ == (GameModel {
            active: if can_fall(g@.board, g@.active) { shifted(g@.active, 0, 1) } else { g@.active },
            ..g@
        }),
        game_shape_ok(r@),
{
    let mut g = g;
    let a = g.active;
    proof {
        lemma_fits_anchor(g.board@, a);
    }
    if piece_can_fall(&g.board, &a) {
        proof {
            lemma_fall_step(g.board@, a);
            lemma_fits_anchor(g.board@, shifted(a, 0, 1));
        }
        g.active = Piece { center: (a.center.0, a.center.1 + 1), shape: a.shape };
        assert(g.active == shifted(a, 0, 1));
    }
    g
}

/// The active piece moved to `q` where it fits.
fn place_active(g: Game, q: Piece) -> (r: Game)
    requires
        game_ok(g@),
        anchor_ok(q),
        q.center.1 == g.active.center.1,
    ensures
        r@ == (GameModel { active: try_place(g@.board, g@.active, q), ..g@ }),
        game_shape_ok(r@),
{
    let mut g = g;
    if cells_fit(&g.board, &q.squares()) {
        proof {
            lemma_fits_anchor(g.board@, q);
        }
        g.active = q;
    }
    g
}

/// The board with the piece's cells added and full rows cleared, with the
/// score and interval that result.
fn merge_and_clear(board: Vec<(i32, i32)>, a: Piece, score: u32, interval: u32) -> (r: (Vec<(i32, i32)>, u32, u32))
    requires
        anchor_ok(a),
        board_ok(board@ + cells_of(a)),
        rows_at_most(board@ + cells_of(a), ROWS + 1),
        MIN_INTERVAL <= interval <= INIT_INTERVAL,
        forall|k: i32| k < 0 ==> !#[trigger] full_row(board@ + cells_of(a), k),
    ensures
        (r.0@, r.1, r.2) == cleared(board@ + cells_of(a), score, interval, 0),
        board_ok(r.0@),
        rows_at_most(r.0@, ROWS + 1),
        MIN_INTERVAL <= r.2 <= interval,
        forall|k: i32| 0 <= k < ROWS ==> !#[trigger] full_row(r.0@, k),
{
    proof {
        lemma_cleared_keeps(board@ + cells_of(a), score, interval, 0, ROWS + 1);
        lemma_cleared_rows_not_full(board@ + cells_of(a), score, interval);
    }
    let mut sq = a.squares();
    let mut b = board;
    b.append(&mut sq);
    clear_lines(b, score, interval)
}

/// A game whose piece was just spawned over a well-formed board.
proof fn lemma_spawned_game(m: GameModel)
    requires
        board_ok(m.board),
        rows_at_most(m.board, ROWS + 1),
        forall|k: i32| 0 <= k < ROWS ==> !#[trigger] full_row(m.board, k),
        spawned(m.active.shape, m.active),
        MIN_INTERVAL <= m.interval <= INIT_INTERVAL,
    ensures
        game_shape_ok(m),
{
    let p = m.active;
    assert(p == spawn(p.shape, p.center.0));
    lemma_spawn_fits(Seq::empty(), p.shape, p.center.0);
    if !reaches_buffer(m.board) {
        lemma_spawn_fits(m.board, p.shape, p.center.0);
    }
}

/// The active piece glued to the board, full rows cleared, and the next
/// shape spawned at `d.column`.
fn glue_active(g: Game, d: Draws) -> (r: Game)
    requires
        game_ok(g@),
        spawn_low(g.next) <= d.column < spawn_high(g.next),
    ensures
        r@ == act(g@, Event::Glue, d).0,
        game_shape_ok(r@),
        r@.interval <= g@.interval,
{
    let a = g.active;
    proof {
        lemma_fits_anchor(g.board@, a);
        lemma_glued(g@);
        lemma_glued_top_not_full(g@);
    }
    let ghost merged = g@.board + cells_of(a);
    let (b2, s2, v2) = merge_and_clear(g.board, a, g.score, g.interval);
    let p = Piece::spawn_at(g.next, d.column);
    let r = Game {
        board: b2,
        active: p,
        next: d.next,
        held: g.held,
        score: s2,
        highscore: g.highscore,
        interval: v2,
        playing: g.playing,
        in_limbo: false,
    };
    proof {
        lemma_spawned_game(r@);
    }
    assert(act(g@, Event::Glue, d).0 == r@) by {
        assert(cleared(merged, g.score, g.interval, 0) == (b2@, s2, v2));
    }
    r
}

/// Swaps the active shape with the held one, or holds it and brings in
/// the next shape.
fn hold_active(g: Game, d: Draws) -> (r: Game)
    requires
        game_ok(g@),
        draws_ok(StateModel::Playing(g@), Event::Key(Command::Hold), d),
        g.playing,
    ensures
        r@ == act(g@, Event::Key(Command::Hold), d).0,
        game_shape_ok(r@),
{
    let mut g = g;
    let a = g.active;
    match g.held {
        Some(h) => {
            let p = Piece::spawn_at(h, d.column);
            proof {
                lemma_spawn_fits(g.board@, h, d.column);
            }
            g.active = p;
            g.held = Some(a.shape);
        },
        None => {
            let p = Piece::spawn_at(g.next, d.column);
            proof {
                lemma_spawn_fits(g.board@, g.next, d.column);
            }
            g.active = p;
            g.held = Some(a.shape);
            g.next = d.next;
        },
    }
    g
}

/// Above the playfield a glued board holds only the piece's cells, which
/// span at most five columns, so none of those rows is full.
proof fn lemma_glued_top_not_full(g: GameModel)
    requires
        game_ok(g),
    ensures
        forall|k: i32| k < 0 ==> !#[trigger] full_row(g.board + cells_of(g.active), k),
{
    let a = g.active;
    let q = cells_of(a);
    let m = g.board + q;
    lemma_cells_of(a);
    lemma_fits_anchor(g.board, a);
    let c: i32 = if a.center.0 >= 5 { 0 } else { 9 };
    assert forall|k: i32| k < 0 implies !#[trigger] full_row(m, k) by {
        if m.contains((c, k)) {
            let i = choose|i: int| 0 <= i < m.len() && m[i] == (c, k);
            if i < g.board.len() {
                assert(m[i] == g.board[i]);
                assert(!(g.board[i].1 <= HIDDEN));
            } else {
                assert(m[i] == q[i - g.board.len()]);
            }
        }
    }
}

/// The primary effect of an event on a running game.
fn act_on(g: Game, e: Event, d: Draws) -> (r: (Game, TimerAction))
    requires
        game_ok(g@),
        g.playing,
        draws_ok(StateModel::Playing(g@), e, d),
    ensures
        (r.0@, r.1) == act(g@, e, d),
        game_shape_ok(r.0@),
        r.0@.interval <= g@.interval,
{
    let a = g.active;
    proof {
        lemma_fits_anchor(g.board@, a);
        lemma_cells_of(shifted(a, -1, 0));
        lemma_cells_of(shifted(a, 1, 0));
    }
    match e {
        Event::Tick => {
            let v = g.interval;
            (lower_active(g), TimerAction::Arm(TimerKind::Tick, v))
        },
        Event::Glue => {
            let g = glue_active(g, d);
            let v = g.interval;
            (g, TimerAction::Arm(TimerKind::Tick, v))
        },
        Event::Key(c) => {
            let g = match c {
                Command::MoveLeft => {
                    let q = Piece { center: (a.center.0 - 1, a.center.1), shape: a.shape };
                    assert(q == shifted(a, -1, 0));
                    place_active(g, q)
                },
                Command::MoveRight => {
                    let q = Piece { center: (a.center.0 + 1, a.center.1), shape: a.shape };
                    assert(q == shifted(a, 1, 0));
                    place_active(g, q)
                },
                Command::Rotate => {
                    let mut q = a;
                    q.shape.rotate();
                    assert(q == turned(a));
                    place_active(g, q)
                },
                Command::SoftDrop => lower_active(g),
                Command::HardDrop => {
                    let mut g = g;
                    let q = drop_piece(&g.board, a);
                    proof {
                        lemma_fits_anchor(g.board@, q);
                    }
                    g.active = q;
                    g
                },
                Command::TogglePause => {
                    let mut g = g;
                    g.playing = false;
                    g
                },
                Command::Hold => hold_active(g, d),
                Command::NewGame => g,
            };
            (g, TimerAction::Keep)
        },
    }
}

/// Reconsiders the lock delay once the active piece went from `before` to
/// where it is now.
fn settle_on(before: Piece, g: Game, t: TimerAction) -> (r: (Game, TimerAction))
    requires
        game_shape_ok(g@),
    ensures
        (r.0@, r.1) == settle(before, g@, t),
        game_shape_ok(r.0@),
{
    let mut g = g;
    proof {
        lemma_cells_of(g.active);
    }
    if !piece_can_fall(&g.board, &g.active) {
        let a = g.active;
        let moved = a.center.0 != before.center.0 || a.center.1 != before.center.1 || a.shape != before.shape;
        assert(moved == (a != before));
        if moved || !g.in_limbo {
            g.in_limbo = true;
            (g, TimerAction::Arm(TimerKind::Glue, LIMBO_TIME))
        } else {
            (g, t)
        }
    } else if g.in_limbo {
        g.in_limbo = false;
        let v = g.interval;
        (g, TimerAction::Arm(TimerKind::Tick, v))
    } else {
        (g, t)
    }
}

/// Ends the game once the stack reaches the hidden buffer.
fn finish_on(g: Game, t: TimerAction) -> (r: (State, Effects))
    requires
        game_shape_ok(g@),
    ensures
        (r.0@, r.1) == finish(g@, t),
        state_ok(r.0@),
{
    if in_buffer(&g.board) {
        let beat = match g.highscore {
            Some(h) => g.score > h,
            None => true,
        };
        let kept = match g.highscore {
            Some(h) => if beat { g.score } else { h },
            None => g.score,
        };
        let score = g.score;
        (
            State::GameOver { score, beat_highscore: beat, highscore: Some(kept) },
            Effects { timer: TimerAction::Cancel, new_highscore: if beat { Some(score) } else { None } },
        )
    } else {
        (State::Playing(g), Effects { timer: t, new_highscore: None })
    }
}

/// A new game with `shape` spawned at `column`, `next` up next.
fn fresh(highscore: Option<u32>, d: Draws) -> (r: Game)
    requires
        spawn_low(d.shape) <= d.column < spawn_high(d.shape),
    ensures
        r@ == fresh_game(highscore, d),
        game_ok(r@),
{
    let board: Vec<(i32, i32)> = Vec::new();
    proof {
        lemma_spawn_fits(board@, d.shape, d.column);
    }
    let active = Piece::spawn_at(d.shape, d.column);
    let r = Game {
        board,
        active,
        next: d.next,
        held: None,
        score: 0,
        highscore,
        interval: INIT_INTERVAL,
        playing: true,
        in_limbo: false,
    };
    assert(r@.board =~= Seq::empty());
    assert forall|k: i32| 0 <= k < ROWS implies !#[trigger] full_row(r@.board, k) by {
        assert(!r@.board.contains((0i32, k)));
    }
    r
}

impl State {
    /// A new game: the first piece and the next shape drawn from `rng`, and
    /// a gravity timer to arm.
    pub fn new_game(highscore: Option<u32>, rng: &mut rand::rngs::ThreadRng) -> (r: (State, Effects))
        ensures
            exists|d: Draws| spawn_low(d.shape) <= d.column < spawn_high(d.shape)
                && r.0@ == StateModel::Playing(#[trigger] fresh_game(highscore, d)),
            r.1 == (Effects { timer: TimerAction::Arm(TimerKind::Tick, INIT_INTERVAL), new_highscore: None }),
            state_ok(r.0@),
    {
        let shape = random_shape(rng);
        let next = random_shape(rng);
        proof {
            crate::shape::lemma_shape_cells(shape);
        }
        let (_t, l, _b, r) = shape.bounds();
        let column = draw_between(rng, -l, COLS - r);
        let d = Draws { column, shape, next };
        let g = fresh(highscore, d);
        (State::Playing(g), Effects { timer: TimerAction::Arm(TimerKind::Tick, INIT_INTERVAL), new_highscore: None })
    }

    /// The shape that spawns on `event`, if any; `shape` stands for the one
    /// a new game draws.
    pub fn spawn_target(&self, event: Event, shape: Shape) -> (r: Option<Shape>)
        ensures
            r == spawn_target(self@, event, shape),
    {
        match self {
            State::GameOver { .. } => {
                if event == Event::Key(Command::NewGame) {
                    Some(shape)
                } else {
                    None
                }
            },
            State::Playing(g) => {
                if !g.playing {
                    None
                } else {
                    match event {
                        Event::Glue => Some(g.next),
                        Event::Key(Command::Hold) => match g.held {
                            Some(h) => Some(h),
                            None => Some(g.next),
                        },
                        _ => None,
                    }
                }
            },
        }
    }

    /// The transition on one event, given the random values it may use.
    pub fn step(self, event: Event, draws: Draws) -> (r: (State, Effects))
        requires
            state_ok(self@),
            draws_ok(self@, event, draws),
        ensures
            (r.0@, r.1) == next_state(self@, event, draws),
            state_ok(r.0@),
            r.0@ is Playing ==> fits(r.0@->Playing_0.board, cells_of(r.0@->Playing_0.active)),
            r.0@ is Playing ==> r.0@->Playing_0.board.no_duplicates(),
            r.0@ is Playing ==> forall|k: i32| 0 <= k < ROWS ==> !#[trigger] full_row(r.0@->Playing_0.board, k),
            self@ is Playing && r.0@ is Playing ==> r.0@->Playing_0.interval <= self@->Playing_0.interval,
    {
        match self {
            State::GameOver { score, beat_highscore, highscore } => {
                if event == Event::Key(Command::NewGame) {
                    let g = fresh(highscore, draws);
                    (State::Playing(g), Effects { timer: TimerAction::Arm(TimerKind::Tick, INIT_INTERVAL), new_highscore: None })
                } else {
                    (State::GameOver { score, beat_highscore, highscore }, Effects { timer: TimerAction::Keep, new_highscore: None })
                }
            },
            State::Playing(g) => {
                if !g.playing {
                    if event == Event::Key(Command::TogglePause) {
                        let mut g = g;
                        g.playing = true;
                        g.in_limbo = false;
                        let v = g.interval;
                        (State::Playing(g), Effects { timer: TimerAction::Arm(TimerKind::Tick, v), new_highscore: None })
                    } else {
                        (State::Playing(g), Effects { timer: TimerAction::Keep, new_highscore: None })
                    }
                } else {
                    let before = g.active;
                    let (g1, t1) = act_on(g, event, draws);
                    let (g2, t2) = settle_on(before, g1, t1);
                    finish_on(g2, t2)
                }
            },
        }
    }

    /// The transition on one event, with the random values it needs drawn
    /// from `rng`.
    pub fn update(self, event: Event, rng: &mut rand::rngs::ThreadRng) -> (r: (State, Effects))
        requires
            state_ok(self@),
        ensures
            exists|d: Draws| #[trigger] draws_ok(self@, event, d) && (r.0@, r.1) == next_state(self@, event, d),
            state_ok(r.0@),
            r.0@ is Playing ==> fits(r.0@->Playing_0.board, cells_of(r.0@->Playing_0.active)),
            r.0@ is Playing ==> r.0@->Playing_0.board.no_duplicates(),
            r.0@ is Playing ==> forall|k: i32| 0 <= k < ROWS ==> !#[trigger] full_row(r.0@->Playing_0.board, k),
            self@ is Playing && r.0@ is Playing ==> r.0@->Playing_0.interval <= self@->Playing_0.interval,
    {
        let ghost before = self@;
        let shape = random_shape(rng);
        let next = random_shape(rng);
        let column = match self.spawn_target(event, shape) {
            Some(s) => {
                proof {
                    crate::shape::lemma_shape_cells(s);
                }
                let (_t, l, _b, r) = s.bounds();
                draw_between(rng, -l, COLS - r)
            },
            None => 0,
        };
        let d = Draws { column, shape, next };
        let r = self.step(event, d);
        assert(draws_ok(before, event, d));
        r
    }
}

/// Holding with nothing held and then holding again brings the first
/// shape back as the active one, with the shape that was next now held.
pub proof fn lemma_hold_twice(g: GameModel, d1: Draws, d2: Draws)
    requires
        game_ok(g),
        g.playing,
        g.held is None,
    ensures
        ({
            let (m1, _) = next_state(StateModel::Playing(g), Event::Key(Command::Hold), d1);
            let (m2, _) = next_state(m1, Event::Key(Command::Hold), d2);
            &&& m1 is Playing
            &&& m2 is Playing
            &&& m2->Playing_0.active.shape == g.active.shape
            &&& m2->Playing_0.held == Some(g.next)
        }),
{
}

} // verus!
