use vstd::prelude::*;
use crate::board::{COLS, HIDDEN};
use crate::random::draw_between;
use crate::shape::{Shape, shape_bounds, shape_cells, lemma_shape_cells, cell_in_bounds};

verus! {

/// A shape anchored at a board position (column, row).
#[derive(Clone, Copy, Debug, PartialEq, Eq)]
pub struct Piece {
    pub center: (i32, i32),
    pub shape: Shape,
}

/// An anchor far enough from the limits of `i32` for any arithmetic here.
pub open spec fn anchor_ok(p: Piece) -> bool {
    -1000 <= p.center.0 <= 1000 && -1000 <= p.center.1 <= 1000
}

/// The absolute cells of a piece: its shape's offsets moved to its anchor.
pub open spec fn cells_of(p: Piece) -> Seq<(i32, i32)> {
    shape_cells(p.shape).map_values(
        |c: (i32, i32)| ((c.0 + p.center.0) as i32, (c.1 + p.center.1) as i32),
    )
}

/// The piece moved by `dx` columns and `dy` rows.
pub open spec fn shifted(p: Piece, dx: int, dy: int) -> Piece {
    Piece { center: ((p.center.0 + dx) as i32, (p.center.1 + dy) as i32), shape: p.shape }
}

/// Lowest anchor column at which a shape spawns.
pub open spec fn spawn_low(s: Shape) -> int {
    -shape_bounds(s).1
}

/// One past the highest anchor column at which a shape spawns.
pub open spec fn spawn_high(s: Shape) -> int {
    COLS - shape_bounds(s).3
}

/// The anchor row at which a shape spawns: its lowest cell just above the
/// visible playfield.
pub open spec fn spawn_row(s: Shape) -> i32 {
    (HIDDEN - shape_bounds(s).2) as i32
}

/// `p` is `s` spawned at one of the columns where it fits horizontally.
pub open spec fn spawned(s: Shape, p: Piece) -> bool {
    &&& p.shape == s
    &&& p.center.1 == spawn_row(s)
    &&& spawn_low(s) <= p.center.0 < spawn_high(s)
}

/// The cells of a piece: four of them, distinct, the anchor first, each
/// within two of it in both directions.
pub proof fn lemma_cells_of(p: Piece)
    requires
        anchor_ok(p),
    ensures
        cells_of(p).len() == 4,
        cells_of(p)[0] == p.center,
        cells_of(p).no_duplicates(),
        forall|i: int| 0 <= i < 4 ==> {
            let c = #[trigger] cells_of(p)[i];
            &&& p.center.0 - 2 <= c.0 <= p.center.0 + 2
            &&& p.center.1 - 2 <= c.1 <= p.center.1 + 2
        },
{
    lemma_shape_cells(p.shape);
    let q = cells_of(p);
    let s = shape_cells(p.shape);
    assert forall|i: int| 0 <= i < 4 implies {
        let c = #[trigger] q[i];
        &&& p.center.0 - 2 <= c.0 <= p.center.0 + 2
        &&& p.center.1 - 2 <= c.1 <= p.center.1 + 2
    } by {
        assert(cell_in_bounds(p.shape, s[i]));
    }
    assert forall|i: int, j: int| 0 <= i < q.len() && 0 <= j < q.len() && i != j implies q[i] != q[j] by {
        assert(s[i] != s[j]);
        assert(cell_in_bounds(p.shape, s[i]));
        assert(cell_in_bounds(p.shape, s[j]));
    }
}

/// Moving a piece moves each of its cells by the same amount.
pub proof fn lemma_cells_shifted(p: Piece, dx: int, dy: int)
    requires
        anchor_ok(p),
        -2 <= dx <= 2,
        -2 <= dy <= 2,
    ensures
        cells_of(shifted(p, dx, dy)).len() == 4,
        forall|i: int| 0 <= i < 4 ==> #[trigger] cells_of(shifted(p, dx, dy))[i]
            == ((cells_of(p)[i].0 + dx) as i32, (cells_of(p)[i].1 + dy) as i32),
{
    lemma_shape_cells(p.shape);
    assert forall|i: int| 0 <= i < 4 implies #[trigger] cells_of(shifted(p, dx, dy))[i]
        == ((cells_of(p)[i].0 + dx) as i32, (cells_of(p)[i].1 + dy) as i32) by {
        assert(cell_in_bounds(p.shape, shape_cells(p.shape)[i]));
    }
}

/// The cells of a freshly spawned piece lie within the columns and above
/// the visible playfield.
pub proof fn lemma_spawned_cells(s: Shape, p: Piece)
    requires
        spawned(s, p),
    ensures
        anchor_ok(p),
        1 <= p.center.1 <= HIDDEN - 1,
        0 <= p.center.0 < COLS,
        forall|i: int| 0 <= i < 4 ==> {
            let c = #[trigger] cells_of(p)[i];
            &&& 0 <= c.0 < COLS
            &&& c.1 < HIDDEN
            &&& p.center.1 - 2 <= c.1
        },
{
    lemma_shape_cells(s);
    lemma_cells_of(p);
    assert forall|i: int| 0 <= i < 4 implies {
        let c = #[trigger] cells_of(p)[i];
        &&& 0 <= c.0 < COLS
        &&& c.1 < HIDDEN
        &&& p.center.1 - 2 <= c.1
    } by {
        assert(cell_in_bounds(s, shape_cells(s)[i]));
    }
}

impl Piece {
    /// `shape` anchored at `column`, on the spawn row.
    pub fn spawn_at(shape: Shape, column: i32) -> (r: Piece)
        requires
            spawn_low(shape) <= column < spawn_high(shape),
        ensures
            r == (Piece { center: (column, spawn_row(shape)), shape }),
            spawned(shape, r),
    {
        proof {
            lemma_shape_cells(shape);
        }
        let (_t, _l, b, _r) = shape.bounds();
        Piece { center: (column, HIDDEN - b), shape }
    }

    /// `shape` spawned at a column drawn uniformly among those where it
    /// fits horizontally.
    pub fn new(shape: Shape, rng: &mut rand::rngs::ThreadRng) -> (r: Piece)
        ensures
            spawned(shape, r),
    {
        proof {
            lemma_shape_cells(shape);
        }
        let (_t, l, _b, r) = shape.bounds();
        let column = draw_between(rng, -l, COLS - r);
        Piece::spawn_at(shape, column)
    }

    /// The absolute cells the piece covers.
    pub fn squares(&self) -> (r: Vec<(i32, i32)>)
        requires
            anchor_ok(*self),
        ensures
            r@ == cells_of(*self),
    {
        proof {
            lemma_shape_cells(self.shape);
        }
        let p = self.shape.pieces();
        let mut out: Vec<(i32, i32)> = Vec::new();
        let mut i: usize = 0;
        while i < 4
            invariant
                0 <= i <= 4,
                anchor_ok(*self),
                p@ == shape_cells(self.shape),
                forall|k: int| 0 <= k < 4 ==> cell_in_bounds(self.shape, #[trigger] p@[k]),
                out@ =~= cells_of(*self).subrange(0, i as int),
            decreases 4 - i,
        {
            let (x, y) = p[i];
            out.push((x + self.center.0, y + self.center.1));
            i = i + 1;
        }
        assert(out@ =~= cells_of(*self));
        out
    }
}

} // verus!
