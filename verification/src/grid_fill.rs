//! Filling the gaps of a heightmap grid: the cells that received no ground
//! point are `None`, and each pass finds the known cells from which a gap
//! takes its value. Cells are stored row by row, cell `(x, y)` at `y * w + x`.

use vstd::prelude::*;

verus! {

/// Where cell `(x, y)` of a grid `w` cells wide is stored.
pub open spec fn cell_index(w: int, x: int, y: int) -> int {
    y * w + x
}

/// Whether `g` holds a grid of `w` by `h` cells.
pub open spec fn grid_shape<T>(g: Seq<Option<T>>, w: int, h: int) -> bool {
    0 < w && 0 < h && g.len() == w * h
}

/// Whether cell `(x, y)` has a value.
pub open spec fn known<T>(g: Seq<Option<T>>, w: int, x: int, y: int) -> bool {
    g[cell_index(w, x, y)] is Some
}

/// Cells of distinct coordinates are stored apart, and inside the grid.
pub proof fn lemma_cell_index(w: int, h: int, x1: int, y1: int, x2: int, y2: int)
    requires
        0 <= x1 < w,
        0 <= y1 < h,
        0 <= x2 < w,
        0 <= y2 < h,
    ensures
        0 <= cell_index(w, x1, y1) < w * h,
        cell_index(w, x1, y1) == cell_index(w, x2, y2) ==> x1 == x2 && y1 == y2,
{
    assert(0 <= y1 * w && y1 * w <= (h - 1) * w) by (nonlinear_arith)
        requires
            0 <= y1 < h,
            0 < w,
    ;
    assert((h - 1) * w + w == w * h) by (nonlinear_arith);
    if cell_index(w, x1, y1) == cell_index(w, x2, y2) {
        if y1 < y2 {
            assert(y1 * w + w <= y2 * w) by (nonlinear_arith)
                requires
                    y1 < y2,
                    0 < w,
            ;
        } else if y2 < y1 {
            assert(y2 * w + w <= y1 * w) by (nonlinear_arith)
                requires
                    y2 < y1,
                    0 < w,
            ;
        }
    }
}

fn index_of(w: usize, h: usize, x: usize, y: usize) -> (r: usize)
    requires
        0 < w,
        0 < h,
        x < w,
        y < h,
        w * h <= usize::MAX,
    ensures
        r == cell_index(w as int, x as int, y as int),
        r < w * h,
{
    proof {
        lemma_cell_index(w as int, h as int, x as int, y as int, x as int, y as int);
        assert(y * w <= w * h) by (nonlinear_arith)
            requires
                y < h,
                0 < w,
        ;
    }
    y * w + x
}

/// The bounds between which a gap at `(x, y)` is interpolated: going left
/// (`i1`), right (`i2`), down (`j1`) and up (`j2`) from the cell, the first
/// known cell, or the edge of the grid where there is none. A known cell is
/// its own bound in every direction.
pub fn interpolation_bracket<T>(g: &Vec<Option<T>>, w: usize, h: usize, x: usize, y: usize) -> (r: (
    usize,
    usize,
    usize,
    usize,
))
    requires
        grid_shape(g@, w as int, h as int),
        x < w,
        y < h,
    ensures
        r.0 <= x,
        r.0 == 0 || known(g@, w as int, r.0 as int, y as int),
        forall|i: int| r.0 < i <= x ==> !known(g@, w as int, i, y as int),
        x <= r.1 < w,
        r.1 == w - 1 || known(g@, w as int, r.1 as int, y as int),
        forall|i: int| x <= i < r.1 ==> !known(g@, w as int, i, y as int),
        r.2 <= y,
        r.2 == 0 || known(g@, w as int, x as int, r.2 as int),
        forall|j: int| r.2 < j <= y ==> !known(g@, w as int, x as int, j),
        y <= r.3 < h,
        r.3 == h - 1 || known(g@, w as int, x as int, r.3 as int),
        forall|j: int| y <= j < r.3 ==> !known(g@, w as int, x as int, j),
{
    assert(g@.len() == g.len());
    let mut i1 = x;
    while i1 > 0 && g[index_of(w, h, i1, y)].is_none()
        invariant
            grid_shape(g@, w as int, h as int),
            w * h <= usize::MAX,
            x < w,
            y < h,
            i1 <= x,
            forall|i: int| i1 < i <= x ==> !known(g@, w as int, i, y as int),
        decreases i1,
    {
        i1 = i1 - 1;
    }
    let mut i2 = x;
    while i2 < w - 1 && g[index_of(w, h, i2, y)].is_none()
        invariant
            grid_shape(g@, w as int, h as int),
            w * h <= usize::MAX,
            x < w,
            y < h,
            x <= i2 < w,
            forall|i: int| x <= i < i2 ==> !known(g@, w as int, i, y as int),
        decreases w - i2,
    {
        i2 = i2 + 1;
    }
    let mut j1 = y;
    while j1 > 0 && g[index_of(w, h, x, j1)].is_none()
        invariant
            grid_shape(g@, w as int, h as int),
            w * h <= usize::MAX,
            x < w,
            y < h,
            j1 <= y,
            forall|j: int| j1 < j <= y ==> !known(g@, w as int, x as int, j),
        decreases j1,
    {
        j1 = j1 - 1;
    }
    let mut j2 = y;
    while j2 < h - 1 && g[index_of(w, h, x, j2)].is_none()
        invariant
            grid_shape(g@, w as int, h as int),
            w * h <= usize::MAX,
            x < w,
            y < h,
            y <= j2 < h,
            forall|j: int| y <= j < j2 ==> !known(g@, w as int, x as int, j),
        decreases h - j2,
    {
        j2 = j2 + 1;
    }
    (i1, i2, j1, j2)
}

/// Column `x` of the grid, from `y == 0` up.
pub open spec fn column<T>(g: Seq<Option<T>>, w: int, h: int, x: int) -> Seq<Option<T>> {
    Seq::new(h as nat, |y: int| g[cell_index(w, x, y)])
}

/// The value of the last known cell of `c` at or before `y`, if any.
pub open spec fn last_known_up_to<T>(c: Seq<Option<T>>, y: int) -> Option<T>
    decreases y + 1,
{
    if y < 0 {
        None
    } else if c[y] is Some {
        c[y]
    } else {
        last_known_up_to(c, y - 1)
    }
}

/// The value of the first known cell of `c` at or after `y`, if any.
pub open spec fn first_known_from<T>(c: Seq<Option<T>>, y: int) -> Option<T>
    decreases c.len() - y,
{
    if y < 0 || y >= c.len() {
        None
    } else if c[y] is Some {
        c[y]
    } else {
        first_known_from(c, y + 1)
    }
}

/// What cell `y` of column `c` holds once the column's gaps are filled: the
/// nearest known value before it, or, where there is none, the nearest after it.
pub open spec fn column_filled<T>(c: Seq<Option<T>>, y: int) -> Option<T> {
    if last_known_up_to(c, y) is Some {
        last_known_up_to(c, y)
    } else {
        first_known_from(c, y)
    }
}

/// The last pass of gap filling: in each column, every gap takes the value of
/// the nearest known cell before it, and the gaps before the first known cell
/// take the value of that cell. A column without any known cell stays empty.
pub fn fill_columns<T: Copy>(g: &mut Vec<Option<T>>, w: usize, h: usize)
    requires
        grid_shape(old(g)@, w as int, h as int),
    ensures
        final(g)@.len() == old(g)@.len(),
        forall|x: int, y: int|
            0 <= x < w && 0 <= y < h ==> #[trigger] final(g)@[cell_index(w as int, x, y)]
                == column_filled(column(old(g)@, w as int, h as int, x), y),
{
    let ghost orig = g@;
    assert(g@.len() == g.len());
    let mut x: usize = 0;
    while x < w
        invariant
            grid_shape(orig, w as int, h as int),
            w * h <= usize::MAX,
            g@.len() == orig.len(),
            x <= w,
            forall|x2: int, y2: int|
                0 <= x2 < w && 0 <= y2 < h ==> #[trigger] g@[cell_index(w as int, x2, y2)] == if x2
                    < x {
                    column_filled(column(orig, w as int, h as int, x2), y2)
                } else {
                    orig[cell_index(w as int, x2, y2)]
                },
        decreases w - x,
    {
        let ghost col = column(orig, w as int, h as int, x as int);
        proof {
            reveal_with_fuel(last_known_up_to, 2);
        }
        let mut y: usize = 1;
        while y < h
            invariant
                grid_shape(orig, w as int, h as int),
                w * h <= usize::MAX,
                g@.len() == orig.len(),
                x < w,
                1 <= y <= h,
                col == column(orig, w as int, h as int, x as int),
                forall|x2: int, y2: int|
                    0 <= x2 < w && 0 <= y2 < h ==> #[trigger] g@[cell_index(w as int, x2, y2)]
                        == if x2 < x {
                        column_filled(column(orig, w as int, h as int, x2), y2)
                    } else if x2 == x && y2 < y {
                        last_known_up_to(col, y2)
                    } else {
                        orig[cell_index(w as int, x2, y2)]
                    },
            decreases h - y,
        {
            let k = index_of(w, h, x, y);
            let kp = index_of(w, h, x, y - 1);
            proof {
                assert(g@[cell_index(w as int, x as int, y as int)] == col[y as int]);
                assert(g@[cell_index(w as int, x as int, y - 1)] == last_known_up_to(col, y - 1));
            }
            if g[k].is_none() {
                let v = g[kp];
                g.set(k, v);
            }
            proof {
                assert forall|x2: int, y2: int| 0 <= x2 < w && 0 <= y2 < h implies #[trigger] g@[cell_index(w as int, x2, y2)]
                    == if x2 < x {
                    column_filled(column(orig, w as int, h as int, x2), y2)
                } else if x2 == x && y2 < y + 1 {
                    last_known_up_to(col, y2)
                } else {
                    orig[cell_index(w as int, x2, y2)]
                } by {
                    lemma_cell_index(w as int, h as int, x2, y2, x as int, y as int);
                }
            }
            y = y + 1;
        }
        assert(column_filled(col, h - 1) == last_known_up_to(col, h - 1)) by {
            reveal_with_fuel(first_known_from, 2);
        }
        let mut yy: usize = 1;
        while yy < h
            invariant
                grid_shape(orig, w as int, h as int),
                w * h <= usize::MAX,
                g@.len() == orig.len(),
                x < w,
                1 <= yy <= h,
                col == column(orig, w as int, h as int, x as int),
                forall|x2: int, y2: int|
                    0 <= x2 < w && 0 <= y2 < h ==> #[trigger] g@[cell_index(w as int, x2, y2)]
                        == if x2 < x {
                        column_filled(column(orig, w as int, h as int, x2), y2)
                    } else if x2 == x && y2 >= h - yy {
                        column_filled(col, y2)
                    } else if x2 == x {
                        last_known_up_to(col, y2)
                    } else {
                        orig[cell_index(w as int, x2, y2)]
                    },
            decreases h - yy,
        {
            let y = h - 1 - yy;
            let k = index_of(w, h, x, y);
            let kn = index_of(w, h, x, y + 1);
            proof {
                assert(g@[cell_index(w as int, x as int, y as int)] == last_known_up_to(col, y as int));
                assert(g@[cell_index(w as int, x as int, y + 1)] == column_filled(col, y + 1));
            }
            if g[k].is_none() {
                let v = g[kn];
                g.set(k, v);
            }
            proof {
                assert forall|x2: int, y2: int| 0 <= x2 < w && 0 <= y2 < h implies #[trigger] g@[cell_index(w as int, x2, y2)]
                    == if x2 < x {
                    column_filled(column(orig, w as int, h as int, x2), y2)
                } else if x2 == x && y2 >= h - (yy + 1) {
                    column_filled(col, y2)
                } else if x2 == x {
                    last_known_up_to(col, y2)
                } else {
                    orig[cell_index(w as int, x2, y2)]
                } by {
                    lemma_cell_index(w as int, h as int, x2, y2, x as int, y as int);
                }
            }
            yy = yy + 1;
        }
        proof {
            assert forall|x2: int, y2: int| 0 <= x2 < w && 0 <= y2 < h implies #[trigger] g@[cell_index(w as int, x2, y2)]
                == if x2 < x + 1 {
                column_filled(column(orig, w as int, h as int, x2), y2)
            } else {
                orig[cell_index(w as int, x2, y2)]
            } by {
                if x2 == x && y2 < h - yy {
                    assert(y2 == 0);
                    assert(column_filled(col, 0) == last_known_up_to(col, 0));
                }
            }
        }
        x = x + 1;
    }
}

/// The values of the known cells among the first `k` of the 3 by 3 cells
/// centred on `(x, y)`, leaving out those outside the grid. The window is
/// walked column by column: `(x - 1, y - 1)`, `(x - 1, y)`, `(x - 1, y + 1)`,
/// `(x, y - 1)`, and so on.
pub open spec fn window_values<T>(g: Seq<Option<T>>, w: int, h: int, x: int, y: int, k: int) -> Seq<T>
    decreases k,
{
    if k <= 0 {
        Seq::empty()
    } else {
        let prev = window_values(g, w, h, x, y, k - 1);
        let cx = x + (k - 1) / 3 - 1;
        let cy = y + (k - 1) % 3 - 1;
        if 0 <= cx < w && 0 <= cy < h && g[cell_index(w, cx, cy)] is Some {
            prev.push(g[cell_index(w, cx, cy)]->0)
        } else {
            prev
        }
    }
}

/// The values of the known cells around `(x, y)` (the cell itself included),
/// in the order in which the second pass of gap filling averages them.
pub fn known_neighbors<T: Copy>(g: &Vec<Option<T>>, w: usize, h: usize, x: usize, y: usize) -> (r: Vec<T>)
    requires
        grid_shape(g@, w as int, h as int),
        x < w,
        y < h,
    ensures
        r@ == window_values(g@, w as int, h as int, x as int, y as int, 9),
{
    assert(g@.len() == g.len());
    let mut out: Vec<T> = Vec::new();
    let mut k: usize = 0;
    while k < 9
        invariant
            grid_shape(g@, w as int, h as int),
            w * h <= usize::MAX,
            x < w,
            y < h,
            k <= 9,
            out@ == window_values(g@, w as int, h as int, x as int, y as int, k as int),
        decreases 9 - k,
    {
        let dx = k / 3;
        let dy = k % 3;
        let inside = (dx > 0 || x > 0) && (dx < 2 || x + 1 < w) && (dy > 0 || y > 0) && (dy < 2 || y
            + 1 < h);
        if inside {
            let cx = x + dx - 1;
            let cy = y + dy - 1;
            match g[index_of(w, h, cx, cy)] {
                Some(v) => out.push(v),
                None => {},
            }
        }
        k = k + 1;
    }
    out
}

/// There is no known cell at or before `y` exactly when `last_known_up_to`
/// finds none.
pub proof fn lemma_last_known_up_to<T>(c: Seq<Option<T>>, y: int)
    requires
        y < c.len(),
    ensures
        last_known_up_to(c, y) is None <==> forall|i: int| 0 <= i <= y ==> #[trigger] c[i] is None,
    decreases y + 1,
{
    if y >= 0 && c[y] is None {
        lemma_last_known_up_to(c, y - 1);
    }
}

/// There is no known cell from `y` on exactly when `first_known_from` finds
/// none.
pub proof fn lemma_first_known_from<T>(c: Seq<Option<T>>, y: int)
    requires
        0 <= y,
    ensures
        first_known_from(c, y) is None <==> forall|i: int| y <= i < c.len() ==> #[trigger] c[i] is None,
    decreases c.len() - y,
{
    if y < c.len() && c[y] is None {
        lemma_first_known_from(c, y + 1);
    }
}

/// Once the columns are filled, a gap is left only in a column that had no
/// known cell at all.
pub proof fn lemma_filled_gap_only_in_empty_column<T>(c: Seq<Option<T>>, y: int)
    requires
        0 <= y < c.len(),
    ensures
        column_filled(c, y) is None <==> forall|i: int| 0 <= i < c.len() ==> #[trigger] c[i] is None,
{
    lemma_last_known_up_to(c, y);
    lemma_first_known_from(c, y);
    if column_filled(c, y) is None {
        assert forall|i: int| 0 <= i < c.len() implies #[trigger] c[i] is None by {
            if i <= y {
                assert(0 <= i <= y);
            } else {
                assert(y <= i < c.len());
            }
        }
    }
}

/// Whether a point of this class counts as ground for the heightmap: the
/// ground class 2, or the class that the configuration gives to water.
pub fn is_ground_point(classification: u8, water_class: u8) -> (r: bool)
    ensures
        r == (classification == 2 || classification == water_class),
{
    classification == 2 || classification == water_class
}

} // verus!
