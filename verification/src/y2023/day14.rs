use crate::util;
use crate::Solution;
use vstd::prelude::*;
use vstd::string::StrSliceExecFns;

verus! {

pub struct Day14;

/// How many round rocks a row holds.
pub open spec fn spec_row_rocks(cells: Seq<u8>, cols: int, r: int, c: int) -> int
    decreases c,
{
    if c <= 0 {
        0
    } else {
        spec_row_rocks(cells, cols, r, c - 1) + if cells[r * cols + (c - 1)] == 79 {
            1int
        } else {
            0
        }
    }
}

/// The north-support load: each round rock counts the number of rows from
/// its own to the south edge (saturating).
pub open spec fn spec_load(cells: Seq<u8>, rows: int, cols: int, r: int) -> int
    decreases r,
{
    if r <= 0 {
        0
    } else {
        util::spec_cap_u64(
            spec_load(cells, rows, cols, r - 1) + util::spec_cap_u64(
                spec_row_rocks(cells, cols, r - 1, cols) * (rows - (r - 1)),
            ),
        )
    }
}

pub open spec fn dims_ok14(rows: int, cols: int, n: int) -> bool {
    1 <= rows <= 0x4000 && 1 <= cols <= 0x4000 && n == rows * cols
}

/// A lawful tilt direction: one unit step north, south, west or east.
pub open spec fn dir_ok14(dr: int, dc: int) -> bool {
    (dr == -1 && dc == 0) || (dr == 1 && dc == 0) || (dr == 0 && dc == -1) || (dr == 0 && dc == 1)
}

pub open spec fn roll_dims(rows: int, cols: int, dr: int, dc: int, cr: int, cc: int) -> bool {
    0 <= cr < rows && 0 <= cc < cols && dir_ok14(dr, dc)
}

/// Slides the rock standing at `(cr, cc)` one cell at a time towards
/// `(dr, dc)` while the next cell is empty, swapping the cells as it goes.
pub open spec fn spec_roll(
    cells: Seq<u8>,
    rows: int,
    cols: int,
    dr: int,
    dc: int,
    cr: int,
    cc: int,
) -> Seq<u8>
    decreases (if dr < 0 {
        cr
    } else if dr > 0 {
        rows - 1 - cr
    } else if dc < 0 {
        cc
    } else {
        cols - 1 - cc
    }) when roll_dims(rows, cols, dr, dc, cr, cc)
{
    if (cr == 0 && dr < 0) || (cc == 0 && dc < 0) || (cr == rows - 1 && dr > 0) || (cc == cols - 1
        && dc > 0) {
        cells
    } else if cells[(cr + dr) * cols + (cc + dc)] != 46 {
        cells
    } else {
        spec_roll(
            cells.update(cr * cols + cc, 46).update((cr + dr) * cols + (cc + dc), 79),
            rows,
            cols,
            dr,
            dc,
            cr + dr,
            cc + dc,
        )
    }
}

/// One scan step of a tilt: the rock of cell `(r, c)`, if any, slides home.
pub open spec fn spec_tilt_cell(
    cells: Seq<u8>,
    rows: int,
    cols: int,
    dr: int,
    dc: int,
    r: int,
    c: int,
) -> Seq<u8> {
    if cells[r * cols + c] == 79 {
        spec_roll(cells, rows, cols, dr, dc, r, c)
    } else {
        cells
    }
}

/// The first `ci` cells of row `r` scanned, far side first when the tilt
/// points forwards.
pub open spec fn spec_tilt_cols(
    cells: Seq<u8>,
    rows: int,
    cols: int,
    dr: int,
    dc: int,
    r: int,
    ci: int,
) -> Seq<u8>
    decreases ci,
{
    if ci <= 0 {
        cells
    } else {
        let c = if dc > 0 {
            cols - ci
        } else {
            ci - 1
        };
        spec_tilt_cell(spec_tilt_cols(cells, rows, cols, dr, dc, r, ci - 1), rows, cols, dr, dc, r, c)
    }
}

/// The first `ri` rows scanned, far side first when the tilt points
/// forwards.
pub open spec fn spec_tilt_rows(
    cells: Seq<u8>,
    rows: int,
    cols: int,
    dr: int,
    dc: int,
    ri: int,
) -> Seq<u8>
    decreases ri,
{
    if ri <= 0 {
        cells
    } else {
        let r = if dr > 0 {
            rows - ri
        } else {
            ri - 1
        };
        spec_tilt_cols(spec_tilt_rows(cells, rows, cols, dr, dc, ri - 1), rows, cols, dr, dc, r, cols)
    }
}

/// The platform after one full tilt towards `(dr, dc)`.
pub open spec fn spec_tilt(cells: Seq<u8>, rows: int, cols: int, dr: int, dc: int) -> Seq<u8> {
    spec_tilt_rows(cells, rows, cols, dr, dc, rows)
}

/// The platform after one spin: tilt north, west, south, then east.
pub open spec fn spec_spin(cells: Seq<u8>, rows: int, cols: int) -> Seq<u8> {
    spec_tilt(
        spec_tilt(spec_tilt(spec_tilt(cells, rows, cols, -1, 0), rows, cols, 0, -1), rows, cols, 1, 0),
        rows,
        cols,
        0,
        1,
    )
}

/// The platform after `k` spins.
pub open spec fn spec_spin_iter(cells: Seq<u8>, rows: int, cols: int, k: int) -> Seq<u8>
    decreases k,
{
    if k <= 0 {
        cells
    } else {
        spec_spin(spec_spin_iter(cells, rows, cols, k - 1), rows, cols)
    }
}

/// A rolling rock writes only rock and floor bytes: every other cell
/// keeps its value.
pub proof fn lemma_roll_preserves(
    cells: Seq<u8>,
    rows: int,
    cols: int,
    dr: int,
    dc: int,
    cr: int,
    cc: int,
)
    requires
        roll_dims(rows, cols, dr, dc, cr, cc),
        dims_ok14(rows, cols, cells.len() as int),
        cells[cr * cols + cc] == 79,
    ensures
        spec_roll(cells, rows, cols, dr, dc, cr, cc).len() == cells.len(),
        forall|i: int|
            0 <= i < cells.len() && cells[i] != 79 && cells[i] != 46 ==> spec_roll(
                cells,
                rows,
                cols,
                dr,
                dc,
                cr,
                cc,
            )[i] == cells[i],
    decreases (if dr < 0 {
        cr
    } else if dr > 0 {
        rows - 1 - cr
    } else if dc < 0 {
        cc
    } else {
        cols - 1 - cc
    }),
{
    if (cr == 0 && dr < 0) || (cc == 0 && dc < 0) || (cr == rows - 1 && dr > 0) || (cc == cols - 1
        && dc > 0) {
    } else if cells[(cr + dr) * cols + (cc + dc)] != 46 {
    } else {
        let a = cr * cols + cc;
        let b = (cr + dr) * cols + (cc + dc);
        lemma_cell_ix(rows, cols, cr, cc);
        lemma_cell_ix(rows, cols, cr + dr, cc + dc);
        let cells2 = cells.update(a, 46).update(b, 79);
        assert(a != b);
        assert(cells2[b] == 79);
        lemma_roll_preserves(cells2, rows, cols, dr, dc, cr + dr, cc + dc);
        assert forall|i: int|
            0 <= i < cells.len() && cells[i] != 79 && cells[i] != 46 implies spec_roll(
            cells,
            rows,
            cols,
            dr,
            dc,
            cr,
            cc,
        )[i] == cells[i] by {
            assert(i != a && i != b);
            assert(cells2[i] == cells[i]);
        }
    }
}

/// One scan step moves only the scanned rock.
pub proof fn lemma_tilt_cell_preserves(
    cells: Seq<u8>,
    rows: int,
    cols: int,
    dr: int,
    dc: int,
    r: int,
    c: int,
)
    requires
        roll_dims(rows, cols, dr, dc, r, c),
        dims_ok14(rows, cols, cells.len() as int),
    ensures
        spec_tilt_cell(cells, rows, cols, dr, dc, r, c).len() == cells.len(),
        forall|i: int|
            0 <= i < cells.len() && cells[i] != 79 && cells[i] != 46 ==> spec_tilt_cell(
                cells,
                rows,
                cols,
                dr,
                dc,
                r,
                c,
            )[i] == cells[i],
{
    if cells[r * cols + c] == 79 {
        lemma_roll_preserves(cells, rows, cols, dr, dc, r, c);
    }
}

/// A row scan moves only round rocks.
pub proof fn lemma_tilt_cols_preserves(
    cells: Seq<u8>,
    rows: int,
    cols: int,
    dr: int,
    dc: int,
    r: int,
    ci: int,
)
    requires
        dims_ok14(rows, cols, cells.len() as int),
        dir_ok14(dr, dc),
        0 <= r < rows,
        0 <= ci <= cols,
    ensures
        spec_tilt_cols(cells, rows, cols, dr, dc, r, ci).len() == cells.len(),
        forall|i: int|
            0 <= i < cells.len() && cells[i] != 79 && cells[i] != 46 ==> spec_tilt_cols(
                cells,
                rows,
                cols,
                dr,
                dc,
                r,
                ci,
            )[i] == cells[i],
    decreases ci,
{
    if ci > 0 {
        lemma_tilt_cols_preserves(cells, rows, cols, dr, dc, r, ci - 1);
        let prev = spec_tilt_cols(cells, rows, cols, dr, dc, r, ci - 1);
        let c = if dc > 0 {
            cols - ci
        } else {
            ci - 1
        };
        lemma_tilt_cell_preserves(prev, rows, cols, dr, dc, r, c);
    }
}

/// A full scan moves only round rocks.
pub proof fn lemma_tilt_rows_preserves(
    cells: Seq<u8>,
    rows: int,
    cols: int,
    dr: int,
    dc: int,
    ri: int,
)
    requires
        dims_ok14(rows, cols, cells.len() as int),
        dir_ok14(dr, dc),
        0 <= ri <= rows,
    ensures
        spec_tilt_rows(cells, rows, cols, dr, dc, ri).len() == cells.len(),
        forall|i: int|
            0 <= i < cells.len() && cells[i] != 79 && cells[i] != 46 ==> spec_tilt_rows(
                cells,
                rows,
                cols,
                dr,
                dc,
                ri,
            )[i] == cells[i],
    decreases ri,
{
    if ri > 0 {
        lemma_tilt_rows_preserves(cells, rows, cols, dr, dc, ri - 1);
        let prev = spec_tilt_rows(cells, rows, cols, dr, dc, ri - 1);
        let r = if dr > 0 {
            rows - ri
        } else {
            ri - 1
        };
        lemma_tilt_cols_preserves(prev, rows, cols, dr, dc, r, cols);
    }
}

/// A tilt moves only the round rocks: cube rocks and every other byte
/// keep their cells.
pub proof fn lemma_tilt_walls_fixed(cells: Seq<u8>, rows: int, cols: int, dr: int, dc: int)
    requires
        dims_ok14(rows, cols, cells.len() as int),
        dir_ok14(dr, dc),
    ensures
        spec_tilt(cells, rows, cols, dr, dc).len() == cells.len(),
        forall|i: int|
            0 <= i < cells.len() && cells[i] != 79 && cells[i] != 46 ==> spec_tilt(
                cells,
                rows,
                cols,
                dr,
                dc,
            )[i] == cells[i],
{
    lemma_tilt_rows_preserves(cells, rows, cols, dr, dc, rows);
}

/// A whole spin moves only the round rocks.
pub proof fn lemma_spin_walls_fixed(cells: Seq<u8>, rows: int, cols: int)
    requires
        dims_ok14(rows, cols, cells.len() as int),
    ensures
        spec_spin(cells, rows, cols).len() == cells.len(),
        forall|i: int|
            0 <= i < cells.len() && cells[i] != 79 && cells[i] != 46 ==> spec_spin(
                cells,
                rows,
                cols,
            )[i] == cells[i],
{
    let t1 = spec_tilt(cells, rows, cols, -1, 0);
    lemma_tilt_walls_fixed(cells, rows, cols, -1, 0);
    let t2 = spec_tilt(t1, rows, cols, 0, -1);
    lemma_tilt_walls_fixed(t1, rows, cols, 0, -1);
    let t3 = spec_tilt(t2, rows, cols, 1, 0);
    lemma_tilt_walls_fixed(t2, rows, cols, 1, 0);
    lemma_tilt_walls_fixed(t3, rows, cols, 0, 1);
}

/// How many round rocks the first `n` cells hold.
pub open spec fn spec_rock_count(cells: Seq<u8>, n: int) -> int
    decreases n,
{
    if n <= 0 {
        0
    } else {
        spec_rock_count(cells, n - 1) + if cells[n - 1] == 79 {
            1int
        } else {
            0
        }
    }
}

pub proof fn lemma_rock_count_update(cells: Seq<u8>, n: int, j: int, v: u8)
    requires
        0 <= j < n <= cells.len(),
    ensures
        spec_rock_count(cells.update(j, v), n) == spec_rock_count(cells, n) - (if cells[j] == 79 {
            1int
        } else {
            0
        }) + (if v == 79 {
            1int
        } else {
            0
        }),
    decreases n,
{
    if j < n - 1 {
        lemma_rock_count_update(cells, n - 1, j, v);
    } else {
        assert(spec_rock_count(cells.update(j, v), n - 1) == spec_rock_count(cells, n - 1)) by {
            lemma_rock_count_same(cells, cells.update(j, v), n - 1);
        }
    }
}

pub proof fn lemma_rock_count_same(a: Seq<u8>, b: Seq<u8>, n: int)
    requires
        n <= a.len(),
        n <= b.len(),
        forall|i: int| 0 <= i < n ==> a[i] == b[i],
    ensures
        spec_rock_count(a, n) == spec_rock_count(b, n),
    decreases n,
{
    if n > 0 {
        lemma_rock_count_same(a, b, n - 1);
    }
}

/// A rolling rock neither creates nor destroys round rocks.
pub proof fn lemma_roll_rocks(
    cells: Seq<u8>,
    rows: int,
    cols: int,
    dr: int,
    dc: int,
    cr: int,
    cc: int,
)
    requires
        roll_dims(rows, cols, dr, dc, cr, cc),
        dims_ok14(rows, cols, cells.len() as int),
        cells[cr * cols + cc] == 79,
    ensures
        spec_rock_count(spec_roll(cells, rows, cols, dr, dc, cr, cc), cells.len() as int)
            == spec_rock_count(cells, cells.len() as int),
    decreases (if dr < 0 {
        cr
    } else if dr > 0 {
        rows - 1 - cr
    } else if dc < 0 {
        cc
    } else {
        cols - 1 - cc
    }),
{
    if (cr == 0 && dr < 0) || (cc == 0 && dc < 0) || (cr == rows - 1 && dr > 0) || (cc == cols - 1
        && dc > 0) {
    } else if cells[(cr + dr) * cols + (cc + dc)] != 46 {
    } else {
        let a = cr * cols + cc;
        let b = (cr + dr) * cols + (cc + dc);
        lemma_cell_ix(rows, cols, cr, cc);
        lemma_cell_ix(rows, cols, cr + dr, cc + dc);
        let c1 = cells.update(a, 46);
        let cells2 = c1.update(b, 79);
        assert(a != b);
        lemma_rock_count_update(cells, cells.len() as int, a, 46);
        lemma_rock_count_update(c1, c1.len() as int, b, 79);
        assert(c1[b] == 46);
        assert(cells2[b] == 79);
        lemma_roll_rocks(cells2, rows, cols, dr, dc, cr + dr, cc + dc);
    }
}

/// One scan step conserves the round rocks.
pub proof fn lemma_tilt_cell_rocks(
    cells: Seq<u8>,
    rows: int,
    cols: int,
    dr: int,
    dc: int,
    r: int,
    c: int,
)
    requires
        roll_dims(rows, cols, dr, dc, r, c),
        dims_ok14(rows, cols, cells.len() as int),
    ensures
        spec_rock_count(spec_tilt_cell(cells, rows, cols, dr, dc, r, c), cells.len() as int)
            == spec_rock_count(cells, cells.len() as int),
{
    if cells[r * cols + c] == 79 {
        lemma_roll_rocks(cells, rows, cols, dr, dc, r, c);
    }
}

/// A row scan conserves the round rocks.
pub proof fn lemma_tilt_cols_rocks(
    cells: Seq<u8>,
    rows: int,
    cols: int,
    dr: int,
    dc: int,
    r: int,
    ci: int,
)
    requires
        dims_ok14(rows, cols, cells.len() as int),
        dir_ok14(dr, dc),
        0 <= r < rows,
        0 <= ci <= cols,
    ensures
        spec_rock_count(spec_tilt_cols(cells, rows, cols, dr, dc, r, ci), cells.len() as int)
            == spec_rock_count(cells, cells.len() as int),
    decreases ci,
{
    if ci > 0 {
        lemma_tilt_cols_rocks(cells, rows, cols, dr, dc, r, ci - 1);
        lemma_tilt_cols_preserves(cells, rows, cols, dr, dc, r, ci - 1);
        let prev = spec_tilt_cols(cells, rows, cols, dr, dc, r, ci - 1);
        let c = if dc > 0 {
            cols - ci
        } else {
            ci - 1
        };
        lemma_tilt_cell_rocks(prev, rows, cols, dr, dc, r, c);
    }
}

/// A full scan conserves the round rocks.
pub proof fn lemma_tilt_rows_rocks(
    cells: Seq<u8>,
    rows: int,
    cols: int,
    dr: int,
    dc: int,
    ri: int,
)
    requires
        dims_ok14(rows, cols, cells.len() as int),
        dir_ok14(dr, dc),
        0 <= ri <= rows,
    ensures
        spec_rock_count(spec_tilt_rows(cells, rows, cols, dr, dc, ri), cells.len() as int)
            == spec_rock_count(cells, cells.len() as int),
    decreases ri,
{
    if ri > 0 {
        lemma_tilt_rows_rocks(cells, rows, cols, dr, dc, ri - 1);
        lemma_tilt_rows_preserves(cells, rows, cols, dr, dc, ri - 1);
        let prev = spec_tilt_rows(cells, rows, cols, dr, dc, ri - 1);
        let r = if dr > 0 {
            rows - ri
        } else {
            ri - 1
        };
        lemma_tilt_cols_rocks(prev, rows, cols, dr, dc, r, cols);
    }
}

/// A tilt conserves the round rocks: none is created or destroyed.
pub proof fn lemma_tilt_rocks_conserved(cells: Seq<u8>, rows: int, cols: int, dr: int, dc: int)
    requires
        dims_ok14(rows, cols, cells.len() as int),
        dir_ok14(dr, dc),
    ensures
        spec_rock_count(spec_tilt(cells, rows, cols, dr, dc), cells.len() as int)
            == spec_rock_count(cells, cells.len() as int),
{
    lemma_tilt_rows_rocks(cells, rows, cols, dr, dc, rows);
}

/// A whole spin conserves the round rocks.
pub proof fn lemma_spin_rocks_conserved(cells: Seq<u8>, rows: int, cols: int)
    requires
        dims_ok14(rows, cols, cells.len() as int),
    ensures
        spec_rock_count(spec_spin(cells, rows, cols), cells.len() as int) == spec_rock_count(
            cells,
            cells.len() as int,
        ),
{
    let t1 = spec_tilt(cells, rows, cols, -1, 0);
    lemma_tilt_rocks_conserved(cells, rows, cols, -1, 0);
    lemma_tilt_walls_fixed(cells, rows, cols, -1, 0);
    let t2 = spec_tilt(t1, rows, cols, 0, -1);
    lemma_tilt_rocks_conserved(t1, rows, cols, 0, -1);
    lemma_tilt_walls_fixed(t1, rows, cols, 0, -1);
    let t3 = spec_tilt(t2, rows, cols, 1, 0);
    lemma_tilt_rocks_conserved(t2, rows, cols, 1, 0);
    lemma_tilt_walls_fixed(t2, rows, cols, 1, 0);
    lemma_tilt_rocks_conserved(t3, rows, cols, 0, 1);
}

/// Any number of spins moves only the round rocks.
pub proof fn lemma_spin_iter_walls_fixed(cells: Seq<u8>, rows: int, cols: int, k: int)
    requires
        dims_ok14(rows, cols, cells.len() as int),
        0 <= k,
    ensures
        spec_spin_iter(cells, rows, cols, k).len() == cells.len(),
        forall|i: int|
            0 <= i < cells.len() && cells[i] != 79 && cells[i] != 46 ==> spec_spin_iter(
                cells,
                rows,
                cols,
                k,
            )[i] == cells[i],
    decreases k,
{
    if k > 0 {
        lemma_spin_iter_walls_fixed(cells, rows, cols, k - 1);
        lemma_spin_walls_fixed(spec_spin_iter(cells, rows, cols, k - 1), rows, cols);
    }
}

/// Spinning `a + b` times is spinning `a` times and then `b` more.
pub proof fn lemma_spin_add(cells: Seq<u8>, rows: int, cols: int, a: int, b: int)
    requires
        0 <= a,
        0 <= b,
    ensures
        spec_spin_iter(cells, rows, cols, a + b) == spec_spin_iter(
            spec_spin_iter(cells, rows, cols, a),
            rows,
            cols,
            b,
        ),
    decreases b,
{
    if b > 0 {
        lemma_spin_add(cells, rows, cols, a, b - 1);
    }
}

/// Once the configuration after `l` spins returns after `l + p` spins,
/// whole periods beyond any later point change nothing.
pub proof fn lemma_spin_period(
    cells: Seq<u8>,
    rows: int,
    cols: int,
    l: int,
    p: int,
    m: int,
    t: int,
)
    requires
        0 <= l,
        1 <= p,
        l <= m,
        0 <= t,
        spec_spin_iter(cells, rows, cols, l) == spec_spin_iter(cells, rows, cols, l + p),
    ensures
        spec_spin_iter(cells, rows, cols, m + t * p) == spec_spin_iter(cells, rows, cols, m),
    decreases t,
{
    if t > 0 {
        lemma_spin_period(cells, rows, cols, l, p, m, t - 1);
        let m1 = m + (t - 1) * p;
        assert(m1 >= m && m1 + p == m + t * p) by (nonlinear_arith)
            requires
                1 <= p,
                0 <= t - 1,
                m1 == m + (t - 1) * p,
        ;
        lemma_spin_add(cells, rows, cols, l + p, m1 - l);
        lemma_spin_add(cells, rows, cols, l, m1 - l);
        assert((l + p) + (m1 - l) == m1 + p);
        assert(l + (m1 - l) == m1);
        assert(spec_spin_iter(cells, rows, cols, m1 + p) == spec_spin_iter(
            spec_spin_iter(cells, rows, cols, l + p),
            rows,
            cols,
            m1 - l,
        ));
        assert(spec_spin_iter(cells, rows, cols, m1) == spec_spin_iter(
            spec_spin_iter(cells, rows, cols, l),
            rows,
            cols,
            m1 - l,
        ));
        assert(spec_spin_iter(cells, rows, cols, m1 + p) == spec_spin_iter(cells, rows, cols, m1));
        assert(m + t * p == m1 + p);
    } else {
        assert(m + t * p == m) by (nonlinear_arith)
            requires
                t == 0,
        ;
    }
}

impl Day14 {
    /// Rolls every round rock as far in the given direction as it goes.
    #[verifier::loop_isolation(false)]
    pub fn tilt(cells: &mut Vec<u8>, rows: usize, cols: usize, dr: i8, dc: i8)
        requires
            dims_ok14(rows as int, cols as int, old(cells)@.len() as int),
            dir_ok14(dr as int, dc as int),
        ensures
            final(cells)@ == spec_tilt(old(cells)@, rows as int, cols as int, dr as int, dc as int),
            final(cells)@.len() == old(cells)@.len(),
    {
        let ghost orig = cells@;
        let mut ri: usize = 0;
        while ri < rows
            invariant
                cells@.len() == rows * cols,
                ri <= rows,
                cells@ == spec_tilt_rows(orig, rows as int, cols as int, dr as int, dc as int, ri as int),
            decreases rows - ri,
        {
            let ghost rowstart = cells@;
            let r = if dr > 0 {
                rows - 1 - ri
            } else {
                ri
            };
            let mut ci: usize = 0;
            while ci < cols
                invariant
                    cells@.len() == rows * cols,
                    r < rows,
                    ci <= cols,
                    cells@ == spec_tilt_cols(
                        rowstart,
                        rows as int,
                        cols as int,
                        dr as int,
                        dc as int,
                        r as int,
                        ci as int,
                    ),
                decreases cols - ci,
            {
                let ghost pre = cells@;
                let c = if dc > 0 {
                    cols - 1 - ci
                } else {
                    ci
                };
                proof {
                    lemma_cell_ix(rows as int, cols as int, r as int, c as int);
                }
                if cells[r * cols + c] == 79 {
                    roll(cells, rows, cols, dr, dc, r, c);
                }
                proof {
                    assert(cells@ == spec_tilt_cell(
                        pre,
                        rows as int,
                        cols as int,
                        dr as int,
                        dc as int,
                        r as int,
                        c as int,
                    ));
                    assert(cells@ == spec_tilt_cols(
                        rowstart,
                        rows as int,
                        cols as int,
                        dr as int,
                        dc as int,
                        r as int,
                        ci as int + 1,
                    ));
                }
                ci += 1;
            }
            proof {
                assert(cells@ == spec_tilt_rows(
                    orig,
                    rows as int,
                    cols as int,
                    dr as int,
                    dc as int,
                    ri as int + 1,
                ));
            }
            ri += 1;
        }
    }

    pub fn tilt_north(cells: &mut Vec<u8>, rows: usize, cols: usize)
        requires
            dims_ok14(rows as int, cols as int, old(cells)@.len() as int),
        ensures
            final(cells)@ == spec_tilt(old(cells)@, rows as int, cols as int, -1, 0),
            final(cells)@.len() == old(cells)@.len(),
    {
        Day14::tilt(cells, rows, cols, -1, 0)
    }

    /// One spin: tilt north, west, south, then east.
    pub fn spin_cycle(cells: &mut Vec<u8>, rows: usize, cols: usize)
        requires
            dims_ok14(rows as int, cols as int, old(cells)@.len() as int),
        ensures
            final(cells)@ == spec_spin(old(cells)@, rows as int, cols as int),
            final(cells)@.len() == old(cells)@.len(),
    {
        Day14::tilt(cells, rows, cols, -1, 0);
        Day14::tilt(cells, rows, cols, 0, -1);
        Day14::tilt(cells, rows, cols, 1, 0);
        Day14::tilt(cells, rows, cols, 0, 1);
    }

    /// Spins the platform `cycles` times, jumping ahead once the
    /// configuration repeats.
    #[verifier::loop_isolation(false)]
    pub fn spin_cycles(cells: &mut Vec<u8>, rows: usize, cols: usize, cycles: u64)
        requires
            dims_ok14(rows as int, cols as int, old(cells)@.len() as int),
        ensures
            final(cells)@ == spec_spin_iter(
                old(cells)@,
                rows as int,
                cols as int,
                cycles as int,
            ),
            final(cells)@.len() == old(cells)@.len(),
    {
        let ghost orig = cells@;
        let mut seen: Vec<Vec<u8>> = Vec::new();
        let mut cycle: u64 = 0;
        let mut jumped = false;
        while cycle < cycles && !jumped
            invariant
                cells@.len() == rows * cols,
                cycle <= cycles,
                seen@.len() == cycle,
                !jumped ==> cells@ == spec_spin_iter(orig, rows as int, cols as int, cycle as int),
                forall|j: int|
                    0 <= j < seen@.len() ==> (#[trigger] seen@[j])@ == spec_spin_iter(
                        orig,
                        rows as int,
                        cols as int,
                        j,
                    ),
                jumped ==> cells@ == spec_spin_iter(orig, rows as int, cols as int, cycles as int),
            decreases cycles - cycle, (if jumped { 0int } else { 1 }),
        {
            let mut prior: Option<u64> = None;
            let mut k: usize = 0;
            while k < seen.len()
                invariant
                    prior.is_some() ==> prior.unwrap() < seen@.len() && seen@[
                        prior.unwrap() as int
                    ]@ == cells@,
                    seen@.len() == cycle <= cycles,
                decreases seen@.len() - k,
            {
                if eq_cells(&seen[k], cells) {
                    prior = Some(k as u64);
                }
                k += 1;
            }
            match prior {
                Some(last_cycle) => {
                    // the configuration repeats with this period
                    let period = cycle - last_cycle;
                    let remaining = (cycles - cycle) % period;
                    proof {
                        assert(spec_spin_iter(orig, rows as int, cols as int, last_cycle as int)
                            == spec_spin_iter(orig, rows as int, cols as int, cycle as int));
                    }
                    let ghost entry_cycle = cycle as int;
                    proof {
                        let d = cycles as int - entry_cycle;
                        let p = period as int;
                        let q = d / p;
                        vstd::arithmetic::div_mod::lemma_fundamental_div_mod(d, p);
                        assert(q >= 0) by (nonlinear_arith)
                            requires
                                1 <= p,
                                p * q >= 1 - p,
                        ;
                        assert(p * q >= 0) by (nonlinear_arith)
                            requires
                                p >= 1,
                                q >= 0,
                        ;
                        assert(remaining as int <= d);
                    }
                    let mut t: u64 = 0;
                    while t < remaining
                        invariant
                            cells@.len() == rows * cols,
                            t <= remaining,
                            remaining <= cycles - entry_cycle,
                            cells@ == spec_spin_iter(
                                orig,
                                rows as int,
                                cols as int,
                                entry_cycle + t as int,
                            ),
                        decreases remaining - t,
                    {
                        Day14::spin_cycle(cells, rows, cols);
                        t += 1;
                    }
                    proof {
                        let d = cycles as int - entry_cycle;
                        let p = period as int;
                        let q = d / p;
                        vstd::arithmetic::div_mod::lemma_fundamental_div_mod(d, p);
                        assert(q >= 0) by (nonlinear_arith)
                            requires
                                1 <= p,
                                p * q >= 1 - p,
                        ;
                        lemma_spin_period(
                            orig,
                            rows as int,
                            cols as int,
                            last_cycle as int,
                            p,
                            entry_cycle + remaining as int,
                            q,
                        );
                        assert(entry_cycle + remaining as int + q * p == cycles as int) by (
                        nonlinear_arith)
                            requires
                                d == p * q + remaining as int,
                                d == cycles as int - entry_cycle,
                        ;
                    }
                    jumped = true;
                },
                None => {
                    seen.push(clone_cells(cells));
                    Day14::spin_cycle(cells, rows, cols);
                    cycle += 1;
                },
            }
        }
    }

    /// The total load on the north support beams.
    #[verifier::loop_isolation(false)]
    pub fn calculate_load(cells: &Vec<u8>, rows: usize, cols: usize) -> (r: u64)
        requires
            dims_ok14(rows as int, cols as int, cells@.len() as int),
        ensures
            r as int == spec_load(cells@, rows as int, cols as int, rows as int),
    {
        let mut total: u64 = 0;
        let mut r: usize = 0;
        while r < rows
            invariant
                r <= rows,
                total as int == spec_load(cells@, rows as int, cols as int, r as int),
            decreases rows - r,
        {
            let mut rocks: u64 = 0;
            let mut c: usize = 0;
            while c < cols
                invariant
                    c <= cols,
                    r < rows,
                    rocks as int == spec_row_rocks(cells@, cols as int, r as int, c as int),
                    rocks <= c,
                decreases cols - c,
            {
                proof {
                    lemma_cell_ix(rows as int, cols as int, r as int, c as int);
                }
                if cells[r * cols + c] == 79 {
                    rocks += 1;
                }
                c += 1;
            }
            proof {
                lemma_load_nonneg(cells@, rows as int, cols as int, r as int);
                assert(rocks as int * ((rows - r) as int) <= 0x4000 * 0x4000) by (nonlinear_arith)
                    requires
                        rocks as int <= 0x4000,
                        0 <= ((rows - r) as int) <= 0x4000,
                ;
                assert(rocks as int * ((rows - r) as int) >= 0) by (nonlinear_arith)
                    requires
                        rocks as int >= 0,
                        ((rows - r) as int) >= 0,
                ;
            }
            let w = util::sat_mul(rocks, (rows - r) as u64);
            proof {
                util::lemma_cap_add(
                    spec_load(cells@, rows as int, cols as int, r as int),
                    w as int,
                );
            }
            total = util::sat_add(total, w);
            r += 1;
        }
        total
    }
}

pub proof fn lemma_cell_ix(rows: int, cols: int, r: int, c: int)
    requires
        1 <= rows <= 0x4000,
        1 <= cols <= 0x4000,
        0 <= r < rows,
        0 <= c < cols,
    ensures
        0 <= r * cols + c < rows * cols,
        rows * cols <= 0x10000000,
{
    assert(0 <= r * cols + c && r * cols + c < rows * cols && rows * cols <= 0x10000000) by (
    nonlinear_arith)
        requires
            1 <= rows <= 0x4000,
            1 <= cols <= 0x4000,
            0 <= r < rows,
            0 <= c < cols,
    ;
}

pub proof fn lemma_row_rocks_nonneg(cells: Seq<u8>, cols: int, r: int, c: int)
    ensures
        spec_row_rocks(cells, cols, r, c) >= 0,
    decreases c,
{
    if c > 0 {
        lemma_row_rocks_nonneg(cells, cols, r, c - 1);
    }
}

pub proof fn lemma_load_nonneg(cells: Seq<u8>, rows: int, cols: int, r: int)
    requires
        0 <= r <= rows,
    ensures
        spec_load(cells, rows, cols, r) >= 0,
    decreases r,
{
    if r > 0 {
        lemma_load_nonneg(cells, rows, cols, r - 1);
        lemma_row_rocks_nonneg(cells, cols, r - 1, cols);
        assert(spec_row_rocks(cells, cols, r - 1, cols) * (rows - (r - 1)) >= 0) by (
        nonlinear_arith)
            requires
                spec_row_rocks(cells, cols, r - 1, cols) >= 0,
                rows - (r - 1) >= 0,
        ;
    }
}

/// Slides one rock from `(r, c)` towards `(dr, dc)` until it is blocked.
fn roll(cells: &mut Vec<u8>, rows: usize, cols: usize, dr: i8, dc: i8, r: usize, c: usize)
    requires
        dims_ok14(rows as int, cols as int, old(cells)@.len() as int),
        dir_ok14(dr as int, dc as int),
        r < rows,
        c < cols,
    ensures
        final(cells)@ == spec_roll(
            old(cells)@,
            rows as int,
            cols as int,
            dr as int,
            dc as int,
            r as int,
            c as int,
        ),
        final(cells)@.len() == old(cells)@.len(),
{
    let ghost orig = cells@;
    let mut cr = r;
    let mut cc = c;
    loop
        invariant
            dims_ok14(rows as int, cols as int, cells@.len() as int),
            dir_ok14(dr as int, dc as int),
            r < rows,
            c < cols,
            cells@.len() == rows * cols,
            cr < rows,
            cc < cols,
            spec_roll(cells@, rows as int, cols as int, dr as int, dc as int, cr as int, cc as int)
                == spec_roll(orig, rows as int, cols as int, dr as int, dc as int, r as int, c as int),
        ensures
            cells@ == spec_roll(
                orig,
                rows as int,
                cols as int,
                dr as int,
                dc as int,
                r as int,
                c as int,
            ),
        decreases (if dr < 0 {
            cr as int
        } else if dr > 0 {
            rows - 1 - cr
        } else if dc < 0 {
            cc as int
        } else {
            cols - 1 - cc
        }),
    {
        if (cr == 0 && dr < 0) || (cc == 0 && dc < 0) || (cr == rows - 1 && dr > 0) || (cc == cols
            - 1 && dc > 0) {
            proof {
                assert(spec_roll(
                    cells@,
                    rows as int,
                    cols as int,
                    dr as int,
                    dc as int,
                    cr as int,
                    cc as int,
                ) == cells@);
            }
            break ;
        }
        let nr = if dr < 0 {
            cr - 1
        } else if dr > 0 {
            cr + 1
        } else {
            cr
        };
        let nc = if dc < 0 {
            cc - 1
        } else if dc > 0 {
            cc + 1
        } else {
            cc
        };
        proof {
            lemma_cell_ix(rows as int, cols as int, nr as int, nc as int);
            lemma_cell_ix(rows as int, cols as int, cr as int, cc as int);
            assert(nr as int == cr as int + dr as int);
            assert(nc as int == cc as int + dc as int);
        }
        if cells[nr * cols + nc] != 46 {
            proof {
                assert(spec_roll(
                    cells@,
                    rows as int,
                    cols as int,
                    dr as int,
                    dc as int,
                    cr as int,
                    cc as int,
                ) == cells@);
            }
            break ;
        }
        let ghost pre = cells@;
        cells.set(cr * cols + cc, 46);
        cells.set(nr * cols + nc, 79);
        proof {
            assert(cells@ == pre.update(cr as int * cols as int + cc as int, 46).update(
                nr as int * cols as int + nc as int,
                79,
            ));
            assert(spec_roll(
                pre,
                rows as int,
                cols as int,
                dr as int,
                dc as int,
                cr as int,
                cc as int,
            ) == spec_roll(
                cells@,
                rows as int,
                cols as int,
                dr as int,
                dc as int,
                nr as int,
                nc as int,
            ));
        }
        cr = nr;
        cc = nc;
    }
}

fn eq_cells(a: &Vec<u8>, b: &Vec<u8>) -> (r: bool)
    ensures
        r == (a@ == b@),
{
    if a.len() != b.len() {
        proof {
            assert(a@.len() != b@.len());
        }
        return false;
    }
    let mut i: usize = 0;
    while i < a.len()
        invariant
            i <= a@.len(),
            a@.len() == b@.len(),
            forall|k: int| 0 <= k < i ==> a@[k] == b@[k],
        decreases a@.len() - i,
    {
        if a[i] != b[i] {
            return false;
        }
        i += 1;
    }
    proof {
        assert(a@ =~= b@);
    }
    true
}

fn clone_cells(v: &Vec<u8>) -> (r: Vec<u8>)
    ensures
        r@ == v@,
{
    let mut r: Vec<u8> = Vec::new();
    let mut i: usize = 0;
    while i < v.len()
        invariant
            i <= v@.len(),
            r@ == v@.take(i as int),
        decreases v@.len() - i,
    {
        r.push(v[i]);
        proof {
            assert(r@ =~= v@.take(i + 1));
        }
        i += 1;
    }
    proof {
        assert(v@.take(v@.len() as int) =~= v@);
    }
    r
}

impl Solution for Day14 {
    type ParsedInput = (Vec<u8>, usize, usize);

    /// The platform as one flat row-major cell vector with its dimensions.
    fn parse_input(input_lines: &str) -> (Vec<u8>, usize, usize) {
        let bytes = input_lines.as_bytes_vec();
        let ls = util::lines(&bytes);
        let rows = ls.len();
        let mut cols: usize = 0;
        if rows > 0 {
            cols = ls[0].len();
        }
        if rows == 0 || cols == 0 || rows > 0x4000 || cols > 0x4000 {
            let mut cells: Vec<u8> = Vec::new();
            cells.push(46);
            return (cells, 1, 1);
        }
        let mut cells: Vec<u8> = Vec::new();
        let mut r: usize = 0;
        while r < rows
            invariant
                rows == ls@.len(),
                cells@.len() == r * cols,
                r <= rows,
                1 <= cols <= 0x4000,
                1 <= rows <= 0x4000,
            decreases rows - r,
        {
            let mut c: usize = 0;
            while c < cols
                invariant
                    rows == ls@.len(),
                    r < rows,
                    c <= cols,
                    cells@.len() == r * cols + c,
                    1 <= cols <= 0x4000,
                    1 <= rows <= 0x4000,
                decreases cols - c,
            {
                proof {
                    lemma_cell_ix(rows as int, cols as int, r as int, c as int);
                }
                if c < ls[r].len() {
                    cells.push(ls[r][c]);
                } else {
                    cells.push(46);
                }
                c += 1;
            }
            proof {
                assert(r * cols + cols == (r + 1) * cols) by (nonlinear_arith);
            }
            r += 1;
        }
        (cells, rows, cols)
    }

    fn part_one(parsed_input: &mut (Vec<u8>, usize, usize)) -> (res: String)
        ensures
            ({
                let cells = old(parsed_input).0@;
                let rows = old(parsed_input).1 as int;
                let cols = old(parsed_input).2 as int;
                if dims_ok14(rows, cols, cells.len() as int) {
                    res@ == util::spec_u64_chars(
                        spec_load(spec_tilt(cells, rows, cols, -1, 0), rows, cols, rows),
                    )
                } else {
                    res@ == "0"@
                }
            }),
    {
        let (cells, rows, cols) = parsed_input;
        let rows = *rows;
        let cols = *cols;
        if rows < 1 || rows > 0x4000 || cols < 1 || cols > 0x4000 {
            return "0".to_owned();
        }
        proof {
            assert((rows as int) * (cols as int) <= 0x10000000 && (rows as int) * (cols as int)
                >= 1) by (nonlinear_arith)
                requires
                    1 <= rows as int,
                    rows as int <= 0x4000,
                    1 <= cols as int,
                    cols as int <= 0x4000,
            ;
        }
        if cells.len() != rows * cols {
            return "0".to_owned();
        }
        let mut work = clone_cells(cells);
        Day14::tilt_north(&mut work, rows, cols);
        util::u64_to_string(Day14::calculate_load(&work, rows, cols))
    }

    fn part_two(parsed_input: &mut (Vec<u8>, usize, usize)) -> (res: String)
        ensures
            ({
                let cells = old(parsed_input).0@;
                let rows = old(parsed_input).1 as int;
                let cols = old(parsed_input).2 as int;
                if dims_ok14(rows, cols, cells.len() as int) {
                    res@ == util::spec_u64_chars(
                        spec_load(spec_spin_iter(cells, rows, cols, 1000000000), rows, cols, rows),
                    )
                } else {
                    res@ == "0"@
                }
            }),
    {
        let (cells, rows, cols) = parsed_input;
        let rows = *rows;
        let cols = *cols;
        if rows < 1 || rows > 0x4000 || cols < 1 || cols > 0x4000 {
            return "0".to_owned();
        }
        proof {
            assert((rows as int) * (cols as int) <= 0x10000000 && (rows as int) * (cols as int)
                >= 1) by (nonlinear_arith)
                requires
                    1 <= rows as int,
                    rows as int <= 0x4000,
                    1 <= cols as int,
                    cols as int <= 0x4000,
            ;
        }
        if cells.len() != rows * cols {
            return "0".to_owned();
        }
        let mut work = clone_cells(cells);
        Day14::spin_cycles(&mut work, rows, cols, 1000000000);
        util::u64_to_string(Day14::calculate_load(&work, rows, cols))
    }
}

} // verus!
