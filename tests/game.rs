use tetris_core::board::{row_is_full, COLS, HIDDEN, INIT_INTERVAL, MIN_INTERVAL, ROWS};
use tetris_core::game::{Command, Draws, Effects, Event, Game, State, TimerAction, TimerKind, LIMBO_TIME};
use tetris_core::piece::Piece;
use tetris_core::shape::{Genus, Orientation, Shape};

fn shape(g: Genus, o: Orientation) -> Shape {
    Shape::new(g, o)
}

fn game(board: Vec<(i32, i32)>, active: Piece) -> Game {
    Game {
        board,
        active,
        next: shape(Genus::T, Orientation::R0),
        held: None,
        score: 0,
        highscore: None,
        interval: INIT_INTERVAL,
        playing: true,
        in_limbo: false,
    }
}

fn draws() -> Draws {
    Draws { column: 4, shape: shape(Genus::S, Orientation::R0), next: shape(Genus::Z, Orientation::R90) }
}

fn playing(s: State) -> Game {
    match s {
        State::Playing(g) => g,
        State::GameOver { .. } => panic!("game ended"),
    }
}

fn key(c: Command) -> Event {
    Event::Key(c)
}

fn sorted(mut v: Vec<(i32, i32)>) -> Vec<(i32, i32)> {
    v.sort();
    v
}

fn keep() -> Effects {
    Effects { timer: TimerAction::Keep, new_highscore: None }
}

#[test]
fn hard_drop_then_glue_on_empty_board() {
    let i = Piece { center: (5, 2), shape: shape(Genus::I, Orientation::R90) };
    let s = State::Playing(game(vec![], i));
    let (s, fx) = s.step(key(Command::HardDrop), draws());
    assert_eq!(fx.timer, TimerAction::Arm(TimerKind::Glue, LIMBO_TIME));
    let g = playing(s.clone());
    assert_eq!(g.active.center, (5, ROWS - 1));
    assert!(g.in_limbo);
    let (s, fx) = s.step(Event::Glue, draws());
    assert_eq!(fx, Effects { timer: TimerAction::Arm(TimerKind::Tick, INIT_INTERVAL), new_highscore: None });
    let g = playing(s);
    assert_eq!(sorted(g.board), vec![(3, 23), (4, 23), (5, 23), (6, 23)]);
    assert_eq!(g.active.shape, shape(Genus::T, Orientation::R0));
    assert_eq!(g.active.center, (4, HIDDEN - 2));
    assert_eq!(g.next, shape(Genus::Z, Orientation::R90));
    assert_eq!(g.score, 0);
    assert!(!g.in_limbo);
}

#[test]
fn glue_completing_a_row_clears_it() {
    let mut board: Vec<(i32, i32)> = (0..COLS - 1).map(|c| (c, ROWS - 1)).collect();
    board.push((0, ROWS - 2));
    let i = Piece { center: (9, 21), shape: shape(Genus::I, Orientation::R0) };
    let s = State::Playing(game(board, i));
    let (s, fx) = s.step(Event::Glue, draws());
    assert_eq!(fx.timer, TimerAction::Arm(TimerKind::Tick, 720));
    let g = playing(s);
    assert_eq!(g.score, 1);
    assert_eq!(g.interval, 720);
    assert_eq!(sorted(g.board), vec![(0, 23), (9, 21), (9, 22), (9, 23)]);
}

#[test]
fn clearing_at_minimum_interval_stays_there() {
    let board: Vec<(i32, i32)> = (0..COLS - 1).map(|c| (c, ROWS - 1)).collect();
    let i = Piece { center: (9, 21), shape: shape(Genus::I, Orientation::R0) };
    let mut g = game(board, i);
    g.interval = MIN_INTERVAL + 5;
    let (s, _) = State::Playing(g).step(Event::Glue, draws());
    assert_eq!(playing(s).interval, MIN_INTERVAL);
}

#[test]
fn grounding_arms_one_glue_then_glue_arms_one_tick() {
    let o = Piece { center: (0, ROWS - 3), shape: shape(Genus::O, Orientation::R0) };
    let s = State::Playing(game(vec![], o));
    let (s, fx) = s.step(Event::Tick, draws());
    assert_eq!(fx.timer, TimerAction::Arm(TimerKind::Glue, LIMBO_TIME));
    assert!(playing(s.clone()).in_limbo);
    let (s, fx) = s.step(Event::Glue, draws());
    assert_eq!(fx.timer, TimerAction::Arm(TimerKind::Tick, INIT_INTERVAL));
    let g = playing(s);
    assert_eq!(sorted(g.board), vec![(0, 22), (0, 23), (1, 22), (1, 23)]);
    assert!(!g.in_limbo);
}

#[test]
fn sliding_a_grounded_piece_rearms_the_lock() {
    let o = Piece { center: (3, ROWS - 2), shape: shape(Genus::O, Orientation::R0) };
    let mut g = game(vec![], o);
    g.in_limbo = true;
    let (s, fx) = State::Playing(g.clone()).step(key(Command::MoveLeft), draws());
    assert_eq!(fx.timer, TimerAction::Arm(TimerKind::Glue, LIMBO_TIME));
    let moved = playing(s);
    assert_eq!(moved.active.center, (2, ROWS - 2));
    assert!(moved.in_limbo);
    let (s, fx) = State::Playing(g).step(key(Command::NewGame), draws());
    assert_eq!(fx, keep());
    assert!(playing(s).in_limbo);
}

#[test]
fn leaving_the_ground_cancels_the_lock() {
    let o = Piece { center: (0, 20), shape: shape(Genus::O, Orientation::R0) };
    let mut g = game(vec![(0, 22)], o);
    g.in_limbo = true;
    let (s, fx) = State::Playing(g).step(key(Command::MoveRight), draws());
    assert_eq!(fx.timer, TimerAction::Arm(TimerKind::Tick, INIT_INTERVAL));
    let g = playing(s);
    assert_eq!(g.active.center, (1, 20));
    assert!(!g.in_limbo);
}

#[test]
fn reaching_the_buffer_ends_the_game() {
    let o = Piece { center: (4, 3), shape: shape(Genus::O, Orientation::R0) };
    let mut g = game(vec![(4, 5), (5, 5)], o);
    g.score = 3;
    g.highscore = Some(2);
    let (s, fx) = State::Playing(g.clone()).step(Event::Glue, draws());
    assert_eq!(fx, Effects { timer: TimerAction::Cancel, new_highscore: Some(3) });
    match &s {
        State::GameOver { score, beat_highscore, highscore } => {
            assert_eq!(*score, 3);
            assert!(*beat_highscore);
            assert_eq!(*highscore, Some(3));
        }
        State::Playing(_) => panic!("game went on"),
    }
    let before = format!("{:?}", s);
    let (s, fx) = s.step(Event::Tick, draws());
    assert_eq!(fx, keep());
    let (s, fx) = s.step(Event::Glue, draws());
    assert_eq!(fx, keep());
    assert_eq!(format!("{:?}", s), before);

    g.highscore = Some(5);
    let (s, fx) = State::Playing(g.clone()).step(Event::Glue, draws());
    assert_eq!(fx, Effects { timer: TimerAction::Cancel, new_highscore: None });
    assert!(matches!(s, State::GameOver { score: 3, beat_highscore: false, highscore: Some(5) }));

    g.highscore = None;
    let (s, fx) = State::Playing(g).step(Event::Glue, draws());
    assert_eq!(fx.new_highscore, Some(3));
    assert!(matches!(s, State::GameOver { beat_highscore: true, .. }));
}

#[test]
fn new_game_after_game_over() {
    let s = State::GameOver { score: 4, beat_highscore: true, highscore: Some(4) };
    let (s, fx) = s.step(key(Command::HardDrop), draws());
    assert_eq!(fx, keep());
    let (s, fx) = s.step(key(Command::NewGame), draws());
    assert_eq!(fx, Effects { timer: TimerAction::Arm(TimerKind::Tick, INIT_INTERVAL), new_highscore: None });
    let g = playing(s);
    assert!(g.board.is_empty());
    assert_eq!(g.active.shape, shape(Genus::S, Orientation::R0));
    assert_eq!(g.active.center, (4, HIDDEN - 2));
    assert_eq!(g.next, shape(Genus::Z, Orientation::R90));
    assert_eq!(g.highscore, Some(4));
    assert_eq!(g.score, 0);
    assert_eq!(g.interval, INIT_INTERVAL);
}

#[test]
fn paused_game_ignores_tick_and_resumes_gravity() {
    let t = Piece { center: (4, 6), shape: shape(Genus::T, Orientation::R0) };
    let mut g = game(vec![], t);
    g.interval = 663;
    let (s, fx) = State::Playing(g).step(key(Command::TogglePause), draws());
    assert_eq!(fx, keep());
    let paused = format!("{:?}", s);
    assert!(!playing(s.clone()).playing);
    let (s, fx) = s.step(Event::Tick, draws());
    assert_eq!(fx, keep());
    assert_eq!(format!("{:?}", s), paused);
    let (s, fx) = s.step(key(Command::MoveLeft), draws());
    assert_eq!(fx, keep());
    assert_eq!(format!("{:?}", s), paused);
    let (s, fx) = s.step(key(Command::TogglePause), draws());
    assert_eq!(fx.timer, TimerAction::Arm(TimerKind::Tick, 663));
    let g = playing(s);
    assert!(g.playing);
    assert_eq!(g.active.center, (4, 6));
}

#[test]
fn holding_twice_brings_back_the_first_shape() {
    let j = Piece { center: (4, 6), shape: shape(Genus::J, Orientation::R90) };
    let s = State::Playing(game(vec![], j));
    let (s, fx) = s.step(key(Command::Hold), draws());
    assert_eq!(fx, keep());
    let g = playing(s.clone());
    assert_eq!(g.held, Some(shape(Genus::J, Orientation::R90)));
    assert_eq!(g.active.shape, shape(Genus::T, Orientation::R0));
    assert_eq!(g.next, shape(Genus::Z, Orientation::R90));
    let d = Draws { column: 3, ..draws() };
    let (s, _) = s.step(key(Command::Hold), d);
    let g = playing(s);
    assert_eq!(g.active.shape, shape(Genus::J, Orientation::R90));
    assert_eq!(g.active.center.0, 3);
    assert_eq!(g.held, Some(shape(Genus::T, Orientation::R0)));
    assert_eq!(g.next, shape(Genus::Z, Orientation::R90));
}

#[test]
fn moves_are_rejected_at_walls_and_cells() {
    let i = Piece { center: (0, 10), shape: shape(Genus::I, Orientation::R0) };
    let (s, _) = State::Playing(game(vec![(1, 11)], i)).step(key(Command::MoveLeft), draws());
    assert_eq!(playing(s.clone()).active.center, (0, 10));
    let (s, _) = s.step(key(Command::MoveRight), draws());
    assert_eq!(playing(s.clone()).active.center, (0, 10));
    let (s, _) = s.step(key(Command::SoftDrop), draws());
    assert_eq!(playing(s).active.center, (0, 11));
}

#[test]
fn rotation_checks_columns_and_cells_only() {
    let i = Piece { center: (0, 10), shape: shape(Genus::I, Orientation::R0) };
    let (s, _) = State::Playing(game(vec![], i)).step(key(Command::Rotate), draws());
    assert_eq!(playing(s).active.shape.orientation, Orientation::R0);
    let i = Piece { center: (5, ROWS - 1), shape: shape(Genus::I, Orientation::R90) };
    let (s, fx) = State::Playing(game(vec![], i)).step(key(Command::Rotate), draws());
    let g = playing(s);
    assert_eq!(g.active.shape.orientation, Orientation::R180);
    assert!(g.in_limbo);
    assert_eq!(fx.timer, TimerAction::Arm(TimerKind::Glue, LIMBO_TIME));
    let i = Piece { center: (5, 10), shape: shape(Genus::I, Orientation::R90) };
    let (s, _) = State::Playing(game(vec![(5, 8)], i)).step(key(Command::Rotate), draws());
    assert_eq!(playing(s).active.shape.orientation, Orientation::R90);
}

#[test]
fn hard_drop_stops_on_the_stack() {
    let t = Piece { center: (4, 3), shape: shape(Genus::T, Orientation::R0) };
    let (s, _) = State::Playing(game(vec![(4, 15), (8, 20)], t)).step(key(Command::HardDrop), draws());
    assert_eq!(playing(s).active.center, (4, 13));
}

#[test]
fn random_play_keeps_the_piece_clear_of_the_board() {
    let mut rng = rand::thread_rng();
    let commands = [
        key(Command::MoveLeft),
        key(Command::MoveRight),
        key(Command::Rotate),
        key(Command::SoftDrop),
        key(Command::HardDrop),
        key(Command::Hold),
        Event::Tick,
        Event::Glue,
        Event::Glue,
    ];
    let (mut s, _) = State::new_game(None, &mut rng);
    let mut last_interval = INIT_INTERVAL;
    for n in 0..3000usize {
        let e = commands[(n * 7 + n / 3) % commands.len()];
        let (next, _) = s.update(e, &mut rng);
        s = next;
        match &s {
            State::Playing(g) => {
                let cells = g.active.squares();
                for c in &cells {
                    assert!(0 <= c.0 && c.0 < COLS);
                    assert!(!g.board.contains(c));
                }
                let mut b = g.board.clone();
                b.sort();
                b.dedup();
                assert_eq!(b.len(), g.board.len());
                for r in 0..ROWS {
                    assert!(!row_is_full(&g.board, r));
                }
                assert!(g.interval <= last_interval);
                assert!(g.interval >= MIN_INTERVAL);
                last_interval = g.interval;
            }
            State::GameOver { .. } => {
                let (next, _) = s.update(key(Command::NewGame), &mut rng);
                s = next;
                last_interval = INIT_INTERVAL;
            }
        }
    }
}
