use vstd::prelude::*;
use crate::random::draw_between;

verus! {

/// The seven tetromino families.
#[derive(Clone, Copy, Debug, PartialEq, Eq, Structural)]
pub enum Genus {
    I,
    J,
    L,
    O,
    S,
    Z,
    T,
}

/// One of the four quarter turns.
#[derive(Clone, Copy, Debug, PartialEq, Eq, Structural)]
pub enum Orientation {
    R0,
    R90,
    R180,
    R270,
}

/// A tetromino family in a given orientation.
#[derive(Clone, Copy, Debug, PartialEq, Eq, Structural)]
pub struct Shape {
    pub genus: Genus,
    pub orientation: Orientation,
}

/// The offsets of a family at 0°, the pivot first.
pub open spec fn base_cells(g: Genus) -> Seq<(i32, i32)> {
    match g {
        Genus::J => seq![(0i32, 0i32), (0i32, -2i32), (0i32, -1i32), (-1i32, 0i32)],
        Genus::L => seq![(0i32, 0i32), (0i32, -2i32), (0i32, -1i32), (1i32, 0i32)],
        Genus::T => seq![(0i32, 0i32), (-1i32, 0i32), (1i32, 0i32), (0i32, 1i32)],
        Genus::S => seq![(0i32, 0i32), (-1i32, 0i32), (0i32, 1i32), (1i32, 1i32)],
        Genus::Z => seq![(0i32, 0i32), (1i32, 0i32), (0i32, 1i32), (-1i32, 1i32)],
        Genus::I => seq![(0i32, 0i32), (0i32, -1i32), (0i32, 1i32), (0i32, 2i32)],
        Genus::O => seq![(0i32, 0i32), (1i32, 0i32), (0i32, 1i32), (1i32, 1i32)],
    }
}

/// An offset turned by an orientation.
pub open spec fn turn(o: Orientation, c: (i32, i32)) -> (i32, i32) {
    match o {
        Orientation::R0 => c,
        Orientation::R90 => ((-c.1) as i32, c.0),
        Orientation::R180 => ((-c.0) as i32, (-c.1) as i32),
        Orientation::R270 => (c.1, (-c.0) as i32),
    }
}

/// The four offsets of a shape, the pivot first.
pub open spec fn shape_cells(s: Shape) -> Seq<(i32, i32)> {
    base_cells(s.genus).map_values(|c: (i32, i32)| turn(s.orientation, c))
}

/// The orientation a quarter turn clockwise further on.
pub open spec fn next_orientation(o: Orientation) -> Orientation {
    match o {
        Orientation::R0 => Orientation::R90,
        Orientation::R90 => Orientation::R180,
        Orientation::R180 => Orientation::R270,
        Orientation::R270 => Orientation::R0,
    }
}

pub open spec fn rotated(s: Shape) -> Shape {
    Shape { genus: s.genus, orientation: next_orientation(s.orientation) }
}

pub open spec fn lower(a: i32, b: i32) -> i32 {
    if b < a { b } else { a }
}

pub open spec fn upper(a: i32, b: i32) -> i32 {
    if b > a { b } else { a }
}

/// (top, left, bottom, right) of a shape's offsets, the pivot included;
/// bottom and right are exclusive.
pub open spec fn shape_bounds(s: Shape) -> (i32, i32, i32, i32) {
    let p = shape_cells(s);
    (
        lower(lower(lower(lower(0, p[0].1), p[1].1), p[2].1), p[3].1),
        lower(lower(lower(lower(0, p[0].0), p[1].0), p[2].0), p[3].0),
        upper(upper(upper(upper(0, (p[0].1 + 1) as i32), (p[1].1 + 1) as i32), (p[2].1 + 1) as i32), (p[3].1 + 1) as i32),
        upper(upper(upper(upper(0, (p[0].0 + 1) as i32), (p[1].0 + 1) as i32), (p[2].0 + 1) as i32), (p[3].0 + 1) as i32),
    )
}

/// The genus numbered `n` in the order I, J, L, O, S, Z, T.
pub open spec fn genus_at(n: u32) -> Genus {
    if n == 0 {
        Genus::I
    } else if n == 1 {
        Genus::J
    } else if n == 2 {
        Genus::L
    } else if n == 3 {
        Genus::O
    } else if n == 4 {
        Genus::S
    } else if n == 5 {
        Genus::Z
    } else {
        Genus::T
    }
}

/// The orientation numbered `n` in the order 0°, 90°, 180°, 270°.
pub open spec fn orientation_at(n: u32) -> Orientation {
    if n == 0 {
        Orientation::R0
    } else if n == 1 {
        Orientation::R90
    } else if n == 2 {
        Orientation::R180
    } else {
        Orientation::R270
    }
}

/// A cell lies within two of the pivot and strictly inside the bounds.
pub open spec fn cell_in_bounds(s: Shape, c: (i32, i32)) -> bool {
    let (t, l, b, r) = shape_bounds(s);
    &&& -2 <= c.0 <= 2
    &&& -2 <= c.1 <= 2
    &&& t <= c.1 < b
    &&& l <= c.0 < r
}

proof fn lemma_cells_explicit(s: Shape)
    ensures
        shape_cells(s).len() == 4,
        shape_cells(s)[0] == (0i32, 0i32),
        cell_in_bounds(s, shape_cells(s)[0]),
        cell_in_bounds(s, shape_cells(s)[1]),
        cell_in_bounds(s, shape_cells(s)[2]),
        cell_in_bounds(s, shape_cells(s)[3]),
        shape_cells(s)[0] != shape_cells(s)[1],
        shape_cells(s)[0] != shape_cells(s)[2],
        shape_cells(s)[0] != shape_cells(s)[3],
        shape_cells(s)[1] != shape_cells(s)[2],
        shape_cells(s)[1] != shape_cells(s)[3],
        shape_cells(s)[2] != shape_cells(s)[3],
        -2 <= shape_bounds(s).0 <= 0,
        -2 <= shape_bounds(s).1 <= 0,
        1 <= shape_bounds(s).2 <= 3,
        1 <= shape_bounds(s).3 <= 3,
{
    let p = shape_cells(s);
    let b = base_cells(s.genus);
    assert(p.len() == 4);
    assert(p[0] == turn(s.orientation, b[0]));
    assert(p[1] == turn(s.orientation, b[1]));
    assert(p[2] == turn(s.orientation, b[2]));
    assert(p[3] == turn(s.orientation, b[3]));
    match s.genus {
        Genus::I => match s.orientation {
            Orientation::R0 => {},
            Orientation::R90 => {},
            Orientation::R180 => {},
            Orientation::R270 => {},
        },
        Genus::J => match s.orientation {
            Orientation::R0 => {},
            Orientation::R90 => {},
            Orientation::R180 => {},
            Orientation::R270 => {},
        },
        Genus::L => match s.orientation {
            Orientation::R0 => {},
            Orientation::R90 => {},
            Orientation::R180 => {},
            Orientation::R270 => {},
        },
        Genus::O => match s.orientation {
            Orientation::R0 => {},
            Orientation::R90 => {},
            Orientation::R180 => {},
            Orientation::R270 => {},
        },
        Genus::S => match s.orientation {
            Orientation::R0 => {},
            Orientation::R90 => {},
            Orientation::R180 => {},
            Orientation::R270 => {},
        },
        Genus::Z => match s.orientation {
            Orientation::R0 => {},
            Orientation::R90 => {},
            Orientation::R180 => {},
            Orientation::R270 => {},
        },
        Genus::T => match s.orientation {
            Orientation::R0 => {},
            Orientation::R90 => {},
            Orientation::R180 => {},
            Orientation::R270 => {},
        },
    }
}

/// Facts about every shape: four offsets, the pivot first, each within
/// two cells of it and strictly inside the bounds, pairwise distinct.
pub proof fn lemma_shape_cells(s: Shape)
    ensures
        shape_cells(s).len() == 4,
        shape_cells(s)[0] == (0i32, 0i32),
        forall|i: int| 0 <= i < 4 ==> cell_in_bounds(s, #[trigger] shape_cells(s)[i]),
        forall|i: int, j: int| 0 <= i < 4 && 0 <= j < 4 && i != j ==> #[trigger] shape_cells(s)[i] != #[trigger] shape_cells(s)[j],
        -2 <= shape_bounds(s).0 <= 0,
        -2 <= shape_bounds(s).1 <= 0,
        1 <= shape_bounds(s).2 <= 3,
        1 <= shape_bounds(s).3 <= 3,
{
    lemma_cells_explicit(s);
    let p = shape_cells(s);
    assert forall|i: int| 0 <= i < 4 implies cell_in_bounds(s, #[trigger] p[i]) by {
        if i == 0 {} else if i == 1 {} else if i == 2 {} else {}
    }
    assert forall|i: int, j: int| 0 <= i < 4 && 0 <= j < 4 && i != j implies #[trigger] p[i] != #[trigger] p[j] by {
        if i == 0 {} else if i == 1 {} else if i == 2 {} else {}
    }
}

impl Shape {
    pub fn new(genus: Genus, orientation: Orientation) -> (r: Shape)
        ensures
            r == (Shape { genus, orientation }),
    {
        Shape { genus, orientation }
    }

    /// The four offsets of this shape relative to its pivot.
    pub fn pieces(&self) -> (r: Vec<(i32, i32)>)
        ensures
            r@ == shape_cells(*self),
    {
        let base: Vec<(i32, i32)> = match self.genus {
            Genus::J => vec![(0, 0), (0, -2), (0, -1), (-1, 0)],
            Genus::L => vec![(0, 0), (0, -2), (0, -1), (1, 0)],
            Genus::T => vec![(0, 0), (-1, 0), (1, 0), (0, 1)],
            Genus::S => vec![(0, 0), (-1, 0), (0, 1), (1, 1)],
            Genus::Z => vec![(0, 0), (1, 0), (0, 1), (-1, 1)],
            Genus::I => vec![(0, 0), (0, -1), (0, 1), (0, 2)],
            Genus::O => vec![(0, 0), (1, 0), (0, 1), (1, 1)],
        };
        assert(base@ =~= base_cells(self.genus));
        let mut out: Vec<(i32, i32)> = Vec::new();
        let mut i: usize = 0;
        while i < 4
            invariant
                0 <= i <= 4,
                base@ == base_cells(self.genus),
                out@ =~= shape_cells(*self).subrange(0, i as int),
            decreases 4 - i,
        {
            let (x, y) = base[i];
            let c = match self.orientation {
                Orientation::R0 => (x, y),
                Orientation::R90 => (-y, x),
                Orientation::R180 => (-x, -y),
                Orientation::R270 => (y, -x),
            };
            out.push(c);
            i = i + 1;
        }
        assert(out@ =~= shape_cells(*self));
        out
    }

    /// Turns the shape a quarter clockwise; placement is not checked.
    pub fn rotate(&mut self)
        ensures
            *final(self) == rotated(*old(self)),
    {
        self.orientation = match self.orientation {
            Orientation::R0 => Orientation::R90,
            Orientation::R90 => Orientation::R180,
            Orientation::R180 => Orientation::R270,
            Orientation::R270 => Orientation::R0,
        };
    }

    /// (top, left, bottom, right) of the offsets; bottom and right are
    /// one past the largest offset.
    pub fn bounds(&self) -> (r: (i32, i32, i32, i32))
        ensures
            r == shape_bounds(*self),
    {
        proof {
            lemma_shape_cells(*self);
        }
        let p = self.pieces();
        let mut t: i32 = 0;
        let mut l: i32 = 0;
        let mut b: i32 = 0;
        let mut r: i32 = 0;
        let mut i: usize = 0;
        while i < 4
            invariant
                0 <= i <= 4,
                p@ == shape_cells(*self),
                forall|k: int| 0 <= k < 4 ==> cell_in_bounds(*self, #[trigger] p@[k]),
                -2 <= t <= 0 && -2 <= l <= 0 && 0 <= b <= 3 && 0 <= r <= 3,
                i == 0 ==> t == 0 && l == 0 && b == 0 && r == 0,
                i == 1 ==> t == lower(0, p@[0].1) && l == lower(0, p@[0].0)
                    && b == upper(0, (p@[0].1 + 1) as i32) && r == upper(0, (p@[0].0 + 1) as i32),
                i == 2 ==> t == lower(lower(0, p@[0].1), p@[1].1) && l == lower(lower(0, p@[0].0), p@[1].0)
                    && b == upper(upper(0, (p@[0].1 + 1) as i32), (p@[1].1 + 1) as i32)
                    && r == upper(upper(0, (p@[0].0 + 1) as i32), (p@[1].0 + 1) as i32),
                i == 3 ==> t == lower(lower(lower(0, p@[0].1), p@[1].1), p@[2].1)
                    && l == lower(lower(lower(0, p@[0].0), p@[1].0), p@[2].0)
                    && b == upper(upper(upper(0, (p@[0].1 + 1) as i32), (p@[1].1 + 1) as i32), (p@[2].1 + 1) as i32)
                    && r == upper(upper(upper(0, (p@[0].0 + 1) as i32), (p@[1].0 + 1) as i32), (p@[2].0 + 1) as i32),
                i == 4 ==> (t, l, b, r) == shape_bounds(*self),
            decreases 4 - i,
        {
            let (x, y) = p[i];
            if y < t {
                t = y;
            }
            if x < l {
                l = x;
            }
            if y + 1 > b {
                b = y + 1;
            }
            if x + 1 > r {
                r = x + 1;
            }
            i = i + 1;
        }
        (t, l, b, r)
    }
}

/// The genus numbered `n` (the last one for every `n` past five).
pub fn genus_from_index(n: u32) -> (r: Genus)
    ensures
        r == genus_at(n),
{
    match n {
        0 => Genus::I,
        1 => Genus::J,
        2 => Genus::L,
        3 => Genus::O,
        4 => Genus::S,
        5 => Genus::Z,
        _ => Genus::T,
    }
}

/// The orientation numbered `n` (the last one for every `n` past two).
pub fn orientation_from_index(n: u32) -> (r: Orientation)
    ensures
        r == orientation_at(n),
{
    match n {
        0 => Orientation::R0,
        1 => Orientation::R90,
        2 => Orientation::R180,
        _ => Orientation::R270,
    }
}

/// A shape whose genus and orientation are drawn uniformly.
pub fn random_shape(rng: &mut rand::rngs::ThreadRng) -> (r: Shape)
    ensures
        exists|g: u32, o: u32| g < 7 && o < 4 && r == (Shape { genus: genus_at(g), orientation: orientation_at(o) }),
{
    let g = draw_between(rng, 0, 7);
    let o = draw_between(rng, 0, 4);
    let r = Shape { genus: genus_from_index(g as u32), orientation: orientation_from_index(o as u32) };
    assert(r == (Shape { genus: genus_at(g as u32), orientation: orientation_at(o as u32) }));
    r
}

/// Four quarter turns bring every shape back to itself.
pub proof fn lemma_rotate_four_times(s: Shape)
    ensures
        rotated(rotated(rotated(rotated(s)))) == s,
{
}

} // verus!
