use vstd::prelude::*;

verus! {

/// Width of the playfield in cells.
pub const COLS: i32 = 10;

/// Height of the playfield in cells, the hidden buffer included.
pub const ROWS: i32 = 24;

/// Rows at the top that serve as an invisible spawn buffer.
pub const HIDDEN: i32 = 4;

/// A cell whose coordinates stay far from the limits of `i32`.
pub open spec fn cell_ok(c: (i32, i32)) -> bool {
    0 <= c.0 < COLS && -8 <= c.1 <= ROWS + 8
}

/// A board as the engine keeps it: distinct cells, each within the columns.
pub open spec fn board_ok(b: Seq<(i32, i32)>) -> bool {
    &&& b.no_duplicates()
    &&& forall|i: int| 0 <= i < b.len() ==> cell_ok(#[trigger] b[i])
}

/// Every column of `row` is occupied.
pub open spec fn full_row(b: Seq<(i32, i32)>, row: i32) -> bool {
    forall|c: i32| 0 <= c < COLS ==> b.contains((c, row))
}

/// The gravity interval, in milliseconds, at the start of a game.
pub const INIT_INTERVAL: u32 = 750;

/// The gravity interval never drops below this many milliseconds.
pub const MIN_INTERVAL: u32 = 250;

/// The board once `row` is removed: cells above it move down one row, cells
/// below it stay, and the order of the rest is kept.
pub open spec fn drop_row(b: Seq<(i32, i32)>, row: i32) -> Seq<(i32, i32)>
    decreases b.len(),
{
    if b.len() == 0 {
        Seq::empty()
    } else {
        let rest = drop_row(b.drop_last(), row);
        let c = b.last();
        if c.1 == row {
            rest
        } else if c.1 < row {
            rest.push((c.0, (c.1 + 1) as i32))
        } else {
            rest.push(c)
        }
    }
}

/// The interval after one cleared row: 24/25 of it, rounded down, and never
/// below `MIN_INTERVAL`.
pub open spec fn decay(interval: u32) -> u32 {
    let d = (interval * 24 / 25) as u32;
    if d < MIN_INTERVAL {
        MIN_INTERVAL
    } else {
        d
    }
}

/// One more point, held at the largest `u32`.
pub open spec fn bump(score: u32) -> u32 {
    if score < u32::MAX {
        (score + 1) as u32
    } else {
        score
    }
}

/// Board, score and interval once the rows from `row` to the floor have
/// been scanned in ascending order, each full row removed as it is met.
pub open spec fn cleared(b: Seq<(i32, i32)>, score: u32, interval: u32, row: i32) -> (Seq<(i32, i32)>, u32, u32)
    decreases ROWS - row,
{
    if row >= ROWS {
        (b, score, interval)
    } else if full_row(b, row) {
        cleared(drop_row(b, row), bump(score), decay(interval), (row + 1) as i32)
    } else {
        cleared(b, score, interval, (row + 1) as i32)
    }
}

/// Some cell lies in the hidden buffer or above it.
pub open spec fn reaches_buffer(b: Seq<(i32, i32)>) -> bool {
    exists|i: int| 0 <= i < b.len() && #[trigger] b[i].1 <= HIDDEN
}

/// What `drop_row` keeps: the cells below `row`, and the cells above it
/// moved down one.
pub proof fn lemma_drop_row(b: Seq<(i32, i32)>, row: i32)
    requires
        board_ok(b),
        0 <= row < ROWS,
    ensures
        board_ok(drop_row(b, row)),
        drop_row(b, row).len() <= b.len(),
        forall|x: (i32, i32)| #[trigger] drop_row(b, row).contains(x) <==> (
            (x.1 > row && b.contains(x))
            || (x.1 <= row && x.1 > i32::MIN && b.contains((x.0, (x.1 - 1) as i32)))),
    decreases b.len(),
{
    if b.len() > 0 {
        let d = b.drop_last();
        let c = b.last();
        assert(board_ok(d)) by {
            assert forall|i: int| 0 <= i < d.len() implies cell_ok(#[trigger] d[i]) by {
                assert(d[i] == b[i]);
            }
        }
        lemma_drop_row(d, row);
        let rest = drop_row(d, row);
        assert(b =~= d.push(c));
        assert(cell_ok(b[b.len() - 1]));
        assert forall|x: (i32, i32)| d.contains(x) implies x != c by {
            let i = choose|i: int| 0 <= i < d.len() && d[i] == x;
            assert(b[i] == x);
        }
        assert forall|x: (i32, i32)| #[trigger] b.contains(x) <==> (d.contains(x) || x == c) by {
            if b.contains(x) {
                let i = choose|i: int| 0 <= i < b.len() && b[i] == x;
                if i < d.len() {
                    assert(d[i] == x);
                }
            }
            if d.contains(x) {
                let i = choose|i: int| 0 <= i < d.len() && d[i] == x;
                assert(b[i] == x);
            }
            if x == c {
                assert(b[b.len() - 1] == x);
            }
        }
        if c.1 != row {
            let m = if c.1 < row { (c.0, (c.1 + 1) as i32) } else { c };
            let r = rest.push(m);
            assert(!rest.contains(m));
            assert forall|x: (i32, i32)| #[trigger] r.contains(x) <==> (rest.contains(x) || x == m) by {
                if r.contains(x) {
                    let i = choose|i: int| 0 <= i < r.len() && r[i] == x;
                    if i < rest.len() {
                        assert(rest[i] == x);
                    }
                }
                if rest.contains(x) {
                    let i = choose|i: int| 0 <= i < rest.len() && rest[i] == x;
                    assert(r[i] == x);
                }
                if x == m {
                    assert(r[r.len() - 1] == x);
                }
            }
            assert(r.no_duplicates()) by {
                assert forall|i: int, j: int| 0 <= i < r.len() && 0 <= j < r.len() && i != j implies r[i] != r[j] by {
                    if i < rest.len() && j < rest.len() {
                        assert(r[i] == rest[i] && r[j] == rest[j]);
                    } else if i < rest.len() {
                        assert(rest.contains(r[i]));
                    } else {
                        assert(rest.contains(r[j]));
                    }
                }
            }
            assert forall|i: int| 0 <= i < r.len() implies cell_ok(#[trigger] r[i]) by {
                if i < rest.len() {
                    assert(r[i] == rest[i]);
                }
            }
        }
    }
}

/// Clearing never raises the interval, and never takes it below
/// `MIN_INTERVAL`.
pub proof fn lemma_clearing_never_slows(b: Seq<(i32, i32)>, score: u32, interval: u32, row: i32)
    requires
        MIN_INTERVAL <= interval,
    ensures
        MIN_INTERVAL <= cleared(b, score, interval, row).2 <= interval,
    decreases ROWS - row,
{
    if row < ROWS {
        if full_row(b, row) {
            lemma_clearing_never_slows(drop_row(b, row), bump(score), decay(interval), (row + 1) as i32);
        } else {
            lemma_clearing_never_slows(b, score, interval, (row + 1) as i32);
        }
    }
}

/// Removing rows one by one as the scan meets them leaves no full row on
/// the playfield, and the cells distinct. A full row above the playfield
/// would move into it, so the board must have none.
pub proof fn lemma_cleared_rows_not_full(b: Seq<(i32, i32)>, score: u32, interval: u32)
    requires
        board_ok(b),
        forall|k: i32| k < 0 ==> !full_row(b, k),
    ensures
        board_ok(cleared(b, score, interval, 0).0),
        forall|k: i32| 0 <= k < ROWS ==> !full_row(cleared(b, score, interval, 0).0, k),
{
    lemma_cleared_from(b, score, interval, 0);
}

proof fn lemma_cleared_from(b: Seq<(i32, i32)>, score: u32, interval: u32, row: i32)
    requires
        board_ok(b),
        0 <= row <= ROWS,
        forall|k: i32| k < row ==> !full_row(b, k),
    ensures
        board_ok(cleared(b, score, interval, row).0),
        forall|k: i32| k < ROWS ==> !full_row(cleared(b, score, interval, row).0, k),
    decreases ROWS - row,
{
    if row < ROWS {
        if full_row(b, row) {
            let n = drop_row(b, row);
            lemma_drop_row(b, row);
            assert forall|k: i32| k < row + 1 implies !full_row(n, k) by {
                if k > i32::MIN {
                    let j = (k - 1) as i32;
                    assert(!full_row(b, j));
                    let c = choose|c: i32| 0 <= c < COLS && !b.contains((c, j));
                    assert(!n.contains((c, k)));
                } else {
                    assert(!n.contains((0i32, k))) by {
                        if n.contains((0i32, k)) {
                            let i = choose|i: int| 0 <= i < n.len() && n[i] == (0i32, k);
                            assert(cell_ok(n[i]));
                        }
                    }
                }
            }
            lemma_cleared_from(n, bump(score), decay(interval), (row + 1) as i32);
        } else {
            lemma_cleared_from(b, score, interval, (row + 1) as i32);
        }
    } else {
        assert forall|k: i32| k < ROWS implies !full_row(b, k) by {
            assert(k < row);
        }
    }
}

/// Whether `c` is on the board.
pub fn occupied(board: &Vec<(i32, i32)>, c: (i32, i32)) -> (r: bool)
    ensures
        r == board@.contains(c),
{
    let mut i: usize = 0;
    while i < board.len()
        invariant
            0 <= i <= board@.len(),
            forall|k: int| 0 <= k < i ==> board@[k] != c,
        decreases board@.len() - i,
    {
        let d = board[i];
        if d.0 == c.0 && d.1 == c.1 {
            return true;
        }
        i = i + 1;
    }
    false
}

/// Whether every column of `row` is occupied.
pub fn row_is_full(board: &Vec<(i32, i32)>, row: i32) -> (r: bool)
    ensures
        r == full_row(board@, row),
{
    let mut c: i32 = 0;
    while c < COLS
        invariant
            0 <= c <= COLS,
            forall|k: i32| 0 <= k < c ==> board@.contains((k, row)),
        decreases COLS - c,
    {
        if !occupied(board, (c, row)) {
            return false;
        }
        c = c + 1;
    }
    true
}

/// The board with `row` removed and the cells above it moved down one row.
pub fn remove_row(board: &Vec<(i32, i32)>, row: i32) -> (r: Vec<(i32, i32)>)
    requires
        board_ok(board@),
        0 <= row < ROWS,
    ensures
        r@ == drop_row(board@, row),
{
    let mut out: Vec<(i32, i32)> = Vec::new();
    let mut i: usize = 0;
    while i < board.len()
        invariant
            0 <= i <= board@.len(),
            board_ok(board@),
            0 <= row < ROWS,
            out@ == drop_row(board@.subrange(0, i as int), row),
        decreases board@.len() - i,
    {
        let c = board[i];
        assert(board@.subrange(0, i + 1).drop_last() =~= board@.subrange(0, i as int));
        assert(cell_ok(board@[i as int]));
        if c.1 < row {
            out.push((c.0, c.1 + 1));
        } else if c.1 > row {
            out.push(c);
        }
        i = i + 1;
    }
    assert(board@.subrange(0, board@.len() as int) =~= board@);
    out
}

/// Scans the rows from the top down to the floor and removes each full
/// one, moving the rows above it down; each removed row adds a point and
/// shortens the gravity interval.
pub fn clear_lines(board: Vec<(i32, i32)>, score: u32, interval: u32) -> (r: (Vec<(i32, i32)>, u32, u32))
    requires
        board_ok(board@),
    ensures
        (r.0@, r.1, r.2) == cleared(board@, score, interval, 0),
        board_ok(r.0@),
        MIN_INTERVAL <= interval ==> MIN_INTERVAL <= r.2 <= interval,
{
    let mut b = board;
    let mut s = score;
    let mut v = interval;
    let mut row: i32 = 0;
    while row < ROWS
        invariant
            0 <= row <= ROWS,
            board_ok(b@),
            cleared(b@, s, v, row) == cleared(board@, score, interval, 0),
        decreases ROWS - row,
    {
        if row_is_full(&b, row) {
            proof {
                lemma_drop_row(b@, row);
            }
            b = remove_row(&b, row);
            s = s.saturating_add(1);
            let d = ((v as u64) * 24 / 25) as u32;
            v = if d < MIN_INTERVAL { MIN_INTERVAL } else { d };
        }
        row = row + 1;
    }
    proof {
        if MIN_INTERVAL <= interval {
            lemma_clearing_never_slows(board@, score, interval, 0);
        }
    }
    (b, s, v)
}

/// Whether some cell lies in the hidden buffer or above it.
pub fn in_buffer(board: &Vec<(i32, i32)>) -> (r: bool)
    ensures
        r == reaches_buffer(board@),
{
    let mut i: usize = 0;
    while i < board.len()
        invariant
            0 <= i <= board@.len(),
            forall|k: int| 0 <= k < i ==> board@[k].1 > HIDDEN,
        decreases board@.len() - i,
    {
        if board[i].1 <= HIDDEN {
            return true;
        }
        i = i + 1;
    }
    false
}

/// No cell lies below row `bottom`.
pub open spec fn rows_at_most(b: Seq<(i32, i32)>, bottom: int) -> bool {
    forall|i: int| 0 <= i < b.len() ==> (#[trigger] b[i]).1 <= bottom
}

/// Clearing keeps the cells distinct and moves none below the lowest one.
pub proof fn lemma_cleared_keeps(b: Seq<(i32, i32)>, score: u32, interval: u32, row: i32, bottom: int)
    requires
        board_ok(b),
        0 <= row,
        ROWS <= bottom,
        rows_at_most(b, bottom),
    ensures
        board_ok(cleared(b, score, interval, row).0),
        rows_at_most(cleared(b, score, interval, row).0, bottom),
    decreases ROWS - row,
{
    if row < ROWS {
        if full_row(b, row) {
            let n = drop_row(b, row);
            lemma_drop_row(b, row);
            assert forall|i: int| 0 <= i < n.len() implies (#[trigger] n[i]).1 <= bottom by {
                assert(n.contains(n[i]));
                if n[i].1 > row {
                    let j = choose|j: int| 0 <= j < b.len() && b[j] == n[i];
                    assert(b[j].1 <= bottom);
                }
            }
            lemma_cleared_keeps(n, bump(score), decay(interval), (row + 1) as i32, bottom);
        } else {
            lemma_cleared_keeps(b, score, interval, (row + 1) as i32, bottom);
        }
    }
}

} // verus!
