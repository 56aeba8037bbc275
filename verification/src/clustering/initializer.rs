use crate::matrix::MatrixView;
use std::collections::HashSet;
use vstd::prelude::*;
use vstd::std_specs::hash::*;

verus! {

broadcast use {vstd::std_specs::hash::group_hash_axioms, vstd::set_lib::group_set_lib_default};

/// Strategies for choosing the seed cells of a grid clustering.
#[derive(Debug, Clone, Copy, PartialEq, Eq, Structural)]
pub enum Initializer {
    /// Cells on a regular grid.
    Grid,
}

/// `m` is `sqrt(size / k)` rounded half away from zero: the largest `m`
/// with `m - 1/2 <= sqrt(size / k)`.
pub open spec fn is_rounded_sqrt_ratio(m: int, size: int, k: int) -> bool {
    &&& m >= 0
    &&& (m == 0 || (2 * m - 1) * (2 * m - 1) * k <= 4 * size)
    &&& (2 * m + 1) * (2 * m + 1) * k > 4 * size
}

/// The indices of the cells `(col, j)`, `(col, j + step)`, ... below `rows`.
pub open spec fn grid_rows(col: int, j: int, rows: int, cols: int, step: int) -> Seq<usize>
    decreases (if rows > j {
        rows - j
    } else {
        0
    }),
{
    if j >= rows || step < 1 {
        Seq::empty()
    } else {
        seq![(col + j * cols) as usize] + grid_rows(col, j + step, rows, cols, step)
    }
}

/// The grid cells column by column from the column `i`, each column from
/// the row `offset`, columns and rows `step` apart.
pub open spec fn grid_cells(i: int, offset: int, cols: int, rows: int, step: int) -> Seq<usize>
    decreases (if cols > i {
        cols - i
    } else {
        0
    }),
{
    if i >= cols || step < 1 {
        Seq::empty()
    } else {
        grid_rows(i, offset, rows, cols, step) + grid_cells(i + step, offset, cols, rows, step)
    }
}

/// The first `k` cells of the grid whose spacing is `step`, starting half a
/// spacing in (all of them when the grid has fewer).
pub open spec fn grid_seeds(cols: int, rows: int, k: int, step: int) -> Set<usize> {
    let cells = grid_cells(step / 2, step / 2, cols, rows, step);
    cells.take(
        if k < cells.len() {
            k
        } else {
            cells.len() as int
        },
    ).to_set()
}

/// Every cell index `0 .. n`.
pub open spec fn all_cells(n: int) -> Set<usize> {
    Set::new(|x: usize| 0 <= x < n)
}

/// The index of the cell in column `c` and row `r` of a grid `cols` wide.
pub open spec fn cell_index(c: int, r: int, cols: int) -> int {
    c + r * cols
}

/// `v` is the index of a cell that comes before the cell `(i, j)`, column
/// by column.
pub open spec fn cell_before(v: int, cols: int, rows: int, i: int, j: int) -> bool {
    exists|c: int, r: int|
        0 <= c < cols && 0 <= r < rows && (c < i || (c == i && r < j)) && v == #[trigger] cell_index(
            c,
            r,
            cols,
        )
}

/// Every index in `done` is a cell before `(i, j)`.
pub open spec fn all_before(done: Seq<usize>, cols: int, rows: int, i: int, j: int) -> bool {
    forall|x: int| 0 <= x < done.len() ==> #[trigger] cell_before(done[x] as int, cols, rows, i, j)
}

/// `sqrt(size / k)` rounded is unique.
pub proof fn lemma_rounded_sqrt_ratio_unique(m1: int, m2: int, size: int, k: int)
    requires
        k >= 1,
        size >= 0,
        is_rounded_sqrt_ratio(m1, size, k),
        is_rounded_sqrt_ratio(m2, size, k),
    ensures
        m1 == m2,
{
    if m1 < m2 {
        assert((2 * m1 + 1) * (2 * m1 + 1) * k <= (2 * m2 - 1) * (2 * m2 - 1) * k) by (nonlinear_arith)
            requires
                0 <= m1 < m2,
                k >= 1,
        ;
    } else if m2 < m1 {
        assert((2 * m2 + 1) * (2 * m2 + 1) * k <= (2 * m1 - 1) * (2 * m1 - 1) * k) by (nonlinear_arith)
            requires
                0 <= m2 < m1,
                k >= 1,
        ;
    }
}

proof fn lemma_all_before_mono(done: Seq<usize>, cols: int, rows: int, i: int, j: int, i2: int, j2: int)
    requires
        all_before(done, cols, rows, i, j),
        i < i2 || (i == i2 && j <= j2),
    ensures
        all_before(done, cols, rows, i2, j2),
{
    assert forall|x: int| 0 <= x < done.len() implies #[trigger] cell_before(
        done[x] as int,
        cols,
        rows,
        i2,
        j2,
    ) by {
        assert(cell_before(done[x] as int, cols, rows, i, j));
    }
}

/// Distinct cells of a grid have distinct indices.
proof fn lemma_cell_index_injective(c1: int, r1: int, c2: int, r2: int, cols: int)
    requires
        0 <= c1 < cols,
        0 <= c2 < cols,
        0 <= r1,
        0 <= r2,
        c1 + r1 * cols == c2 + r2 * cols,
    ensures
        c1 == c2 && r1 == r2,
{
    if r1 < r2 {
        assert(r1 * cols + cols <= r2 * cols) by (nonlinear_arith)
            requires
                r1 < r2,
                cols > 0,
        ;
    } else if r2 < r1 {
        assert(r2 * cols + cols <= r1 * cols) by (nonlinear_arith)
            requires
                r2 < r1,
                cols > 0,
        ;
    }
}

/// While `m` is at most the rounded square root, the next candidate's test
/// stays within `36 * size`.
proof fn lemma_candidate_bound(m: int, size: int, k: int)
    requires
        1 <= k,
        0 <= size,
        m >= 0,
        m == 0 || (2 * m - 1) * (2 * m - 1) * k <= 4 * size,
    ensures
        (2 * m + 1) * (2 * m + 1) <= 36 * size + 1,
        (2 * m + 1) * (2 * m + 1) * k <= 36 * size + k,
{
    let a = 2 * m + 1;
    let b = 2 * m - 1;
    if m >= 1 {
        assert(a * a <= 9 * (b * b)) by (nonlinear_arith)
            requires
                m >= 1,
                a == 2 * m + 1,
                b == 2 * m - 1,
        ;
        assert(b * b <= b * b * k) by (nonlinear_arith)
            requires
                k >= 1,
        ;
        assert(a * a * k <= 9 * (b * b * k)) by (nonlinear_arith)
            requires
                a * a <= 9 * (b * b),
                k >= 1,
        ;
        assert(b * b * k <= 4 * size);
    } else {
        assert(a * a * k == k) by (nonlinear_arith)
            requires
                a == 1,
        ;
    }
}

/// Computes `sqrt(size / k)` rounded half away from zero, exactly.
pub(crate) fn rounded_sqrt_ratio(size: usize, k: usize) -> (m: usize)
    requires
        1 <= k,
    ensures
        is_rounded_sqrt_ratio(m as int, size as int, k as int),
{
    let four_size: u128 = 4 * (size as u128);
    let kk = k as u128;
    let mut m: usize = 0;
    loop
        invariant
            1 <= k,
            four_size == 4 * size,
            kk == k,
            m <= size,
            m == 0 || (2 * m - 1) * (2 * m - 1) * k <= 4 * size,
        ensures
            is_rounded_sqrt_ratio(m as int, size as int, k as int),
        decreases size - m,
    {
        proof {
            lemma_candidate_bound(m as int, size as int, k as int);
        }
        let a: u128 = 2 * (m as u128) + 1;
        let square: u128 = a * a;
        if square * kk > four_size {
            break;
        }
        proof {
            assert(m + 1 <= size) by (nonlinear_arith)
                requires
                    (2 * m + 1) * (2 * m + 1) * k <= 4 * size,
                    k >= 1,
                    m <= size,
            ;
        }
        m = m + 1;
    }
    m
}

/// The number of the lines `j`, `j + step`, ... below `n`.
spec fn grid_lines(n: int, j: int, step: int) -> int {
    if n <= j {
        0
    } else {
        (n - j - 1) / step + 1
    }
}

/// The position of the cell in the `a`-th grid column and `b`-th grid row
/// when every grid column holds `per_col` cells.
spec fn grid_pos(a: int, b: int, per_col: int) -> int {
    a * per_col + b
}

/// A count of lines is never negative.
proof fn lemma_grid_lines_nonneg(n: int, j: int, step: int)
    requires
        step >= 1,
    ensures
        grid_lines(n, j, step) >= 0,
{
    if j < n {
        vstd::arithmetic::div_mod::lemma_fundamental_div_mod(n - j - 1, step);
        let q = (n - j - 1) / step;
        assert(q >= 0) by (nonlinear_arith)
            requires
                n - j - 1 == step * q + (n - j - 1) % step,
                (n - j - 1) % step < step,
                n - j - 1 >= 0,
                step >= 1,
        ;
    }
}

/// Moving the first line on by `step` drops one line.
proof fn lemma_grid_lines_step(n: int, j: int, step: int)
    requires
        step >= 1,
        j < n,
    ensures
        grid_lines(n, j, step) == 1 + grid_lines(n, j + step, step),
{
    let x = n - j - 1;
    if j + step >= n {
        vstd::arithmetic::div_mod::lemma_fundamental_div_mod_converse(x, step, 0, x);
    } else {
        let q = (x - step) / step;
        let r = (x - step) % step;
        vstd::arithmetic::div_mod::lemma_fundamental_div_mod(x - step, step);
        assert(x == (q + 1) * step + r) by (nonlinear_arith)
            requires
                x - step == step * q + r,
        ;
        vstd::arithmetic::div_mod::lemma_fundamental_div_mod_converse(x, step, q + 1, r);
    }
}

/// The cells of one grid column: how many, and where each one lies.
proof fn lemma_grid_rows_shape(col: int, j: int, rows: int, cols: int, step: int)
    requires
        step >= 1,
    ensures
        grid_rows(col, j, rows, cols, step).len() == grid_lines(rows, j, step),
        forall|t: int|
            0 <= t < grid_lines(rows, j, step) ==> #[trigger] grid_rows(col, j, rows, cols, step)[t]
                == (col + (j + t * step) * cols) as usize,
    decreases (if rows > j {
        rows - j
    } else {
        0
    }),
{
    if j < rows {
        lemma_grid_rows_shape(col, j + step, rows, cols, step);
        lemma_grid_lines_step(rows, j, step);
        let s = grid_rows(col, j, rows, cols, step);
        let rest = grid_rows(col, j + step, rows, cols, step);
        assert forall|t: int| 0 <= t < grid_lines(rows, j, step) implies #[trigger] s[t] == (col + (j
            + t * step) * cols) as usize by {
            if t == 0 {
                assert(t * step == 0) by (nonlinear_arith)
                    requires
                        t == 0,
                ;
                assert(s[t] == (col + j * cols) as usize);
            } else {
                assert(s[t] == rest[t - 1]);
                assert(j + step + (t - 1) * step == j + t * step) by (nonlinear_arith);
            }
        }
    }
}

/// The cells of the grid from the column `i`: how many, and where the cell
/// in the `a`-th grid column and `b`-th grid row lies.
proof fn lemma_grid_cells_shape(i: int, o: int, cols: int, rows: int, step: int)
    requires
        step >= 1,
    ensures
        grid_cells(i, o, cols, rows, step).len() == grid_lines(cols, i, step) * grid_lines(
            rows,
            o,
            step,
        ),
        forall|a: int, b: int|
            0 <= a < grid_lines(cols, i, step) && 0 <= b < grid_lines(rows, o, step)
                ==> #[trigger] grid_cells(i, o, cols, rows, step)[grid_pos(
                a,
                b,
                grid_lines(rows, o, step),
            )] == ((i + a * step) + (o + b * step) * cols) as usize,
    decreases (if cols > i {
        cols - i
    } else {
        0
    }),
{
    if i < cols {
        lemma_grid_cells_shape(i + step, o, cols, rows, step);
        lemma_grid_lines_step(cols, i, step);
        lemma_grid_rows_shape(i, o, rows, cols, step);
        let rr = grid_lines(rows, o, step);
        let nc = grid_lines(cols, i + step, step);
        let s = grid_cells(i, o, cols, rows, step);
        let head = grid_rows(i, o, rows, cols, step);
        let rest = grid_cells(i + step, o, cols, rows, step);
        assert(s == head + rest);
        assert(rr + nc * rr == (1 + nc) * rr) by (nonlinear_arith);
        assert forall|a: int, b: int|
            0 <= a < grid_lines(cols, i, step) && 0 <= b < rr implies #[trigger] s[grid_pos(a, b, rr)]
            == ((i + a * step) + (o + b * step) * cols) as usize by {
            if a == 0 {
                assert(grid_pos(a, b, rr) == b);
                assert(s[b] == head[b]);
            } else {
                assert(grid_pos(a, b, rr) == rr + grid_pos(a - 1, b, rr)) by (nonlinear_arith)
                    requires
                        grid_pos(a, b, rr) == a * rr + b,
                        grid_pos(a - 1, b, rr) == (a - 1) * rr + b,
                ;
                assert(0 <= grid_pos(a - 1, b, rr) < nc * rr) by (nonlinear_arith)
                    requires
                        grid_pos(a - 1, b, rr) == (a - 1) * rr + b,
                        1 <= a < 1 + nc,
                        0 <= b < rr,
                ;
                assert(s[grid_pos(a, b, rr)] == rest[grid_pos(a - 1, b, rr)]);
                assert((i + step) + (a - 1) * step == i + a * step) by (nonlinear_arith);
            }
        }
    }
}

/// The grid seeds are exactly the cells on the grid whose place in the
/// column-by-column walk comes before `k`: the cells `(c, r)` with `c` and
/// `r` at `step / 2` plus a multiple of `step`, numbered column by column.
pub proof fn lemma_grid_seeds_members(cols: int, rows: int, k: int, step: int)
    requires
        cols >= 0,
        rows >= 0,
        step >= 1,
        k >= 0,
        cols * rows <= usize::MAX,
    ensures
        ({
            let o = step / 2;
            let ncols = if cols <= o { 0 } else { (cols - o - 1) / step + 1 };
            let nrows = if rows <= o { 0 } else { (rows - o - 1) / step + 1 };
            &&& grid_cells(o, o, cols, rows, step).len() == ncols * nrows
            &&& forall|x: usize|
                #[trigger] grid_seeds(cols, rows, k, step).contains(x) <==> exists|c: int, r: int|
                    o <= c < cols && o <= r < rows && (c - o) % step == 0 && (r - o) % step == 0 && ((c
                        - o) / step) * nrows + (r - o) / step < k && x == #[trigger] cell_index(
                        c,
                        r,
                        cols,
                    )
        }),
{
    let o = step / 2;
    let nc = grid_lines(cols, o, step);
    let nr = grid_lines(rows, o, step);
    let cells = grid_cells(o, o, cols, rows, step);
    lemma_grid_cells_shape(o, o, cols, rows, step);
    lemma_grid_lines_nonneg(cols, o, step);
    lemma_grid_lines_nonneg(rows, o, step);
    let t = if k < cells.len() {
        k
    } else {
        cells.len() as int
    };
    let taken = cells.take(t);
    assert forall|x: usize| #[trigger] grid_seeds(cols, rows, k, step).contains(x) <==> exists|c: int, r: int|
        o <= c < cols && o <= r < rows && (c - o) % step == 0 && (r - o) % step == 0 && ((c - o)
            / step) * nr + (r - o) / step < k && x == #[trigger] cell_index(c, r, cols) by {
        if grid_seeds(cols, rows, k, step).contains(x) {
            assert(taken.to_set().contains(x));
            let p = choose|p: int| 0 <= p < taken.len() && taken[p] == x;
            assert(nr > 0) by {
                if nr <= 0 {
                    assert(nc * nr <= 0) by (nonlinear_arith)
                        requires
                            nc >= 0,
                            nr <= 0,
                    ;
                }
            }
            let a = p / nr;
            let b = p % nr;
            vstd::arithmetic::div_mod::lemma_fundamental_div_mod(p, nr);
            assert(grid_pos(a, b, nr) == p) by (nonlinear_arith)
                requires
                    p == nr * a + b,
            ;
            assert(0 <= a < nc) by (nonlinear_arith)
                requires
                    p == nr * a + b,
                    0 <= b < nr,
                    0 <= p < nc * nr,
            ;
            let c = o + a * step;
            let r = o + b * step;
            assert(0 <= a * step) by (nonlinear_arith)
                requires
                    a >= 0,
                    step >= 1,
            ;
            assert(0 <= b * step) by (nonlinear_arith)
                requires
                    b >= 0,
                    step >= 1,
            ;
            assert(c < cols) by {
                vstd::arithmetic::div_mod::lemma_fundamental_div_mod(cols - o - 1, step);
                assert(a * step <= cols - o - 1) by (nonlinear_arith)
                    requires
                        a <= (cols - o - 1) / step,
                        cols - o - 1 == step * ((cols - o - 1) / step) + (cols - o - 1) % step,
                        (cols - o - 1) % step >= 0,
                        step >= 1,
                ;
            }
            assert(r < rows) by {
                vstd::arithmetic::div_mod::lemma_fundamental_div_mod(rows - o - 1, step);
                assert(b * step <= rows - o - 1) by (nonlinear_arith)
                    requires
                        b <= (rows - o - 1) / step,
                        rows - o - 1 == step * ((rows - o - 1) / step) + (rows - o - 1) % step,
                        (rows - o - 1) % step >= 0,
                        step >= 1,
                ;
            }
            vstd::arithmetic::div_mod::lemma_fundamental_div_mod_converse(c - o, step, a, 0);
            vstd::arithmetic::div_mod::lemma_fundamental_div_mod_converse(r - o, step, b, 0);
            assert(0 <= c + r * cols <= usize::MAX) by (nonlinear_arith)
                requires
                    0 <= c < cols,
                    0 <= r < rows,
                    cols * rows <= usize::MAX,
            ;
            assert(cells[grid_pos(a, b, nr)] == (c + r * cols) as usize);
            assert(x == cell_index(c, r, cols));
        }
        if exists|c: int, r: int|
            o <= c < cols && o <= r < rows && (c - o) % step == 0 && (r - o) % step == 0 && ((c - o)
                / step) * nr + (r - o) / step < k && x == #[trigger] cell_index(c, r, cols) {
            let (c, r) = choose|c: int, r: int|
                o <= c < cols && o <= r < rows && (c - o) % step == 0 && (r - o) % step == 0 && ((c
                    - o) / step) * nr + (r - o) / step < k && x == #[trigger] cell_index(c, r, cols);
            let a = (c - o) / step;
            let b = (r - o) / step;
            vstd::arithmetic::div_mod::lemma_fundamental_div_mod(c - o, step);
            vstd::arithmetic::div_mod::lemma_fundamental_div_mod(r - o, step);
            assert(a >= 0 && b >= 0) by (nonlinear_arith)
                requires
                    c - o == step * a,
                    r - o == step * b,
                    c - o >= 0,
                    r - o >= 0,
                    step >= 1,
            ;
            assert(a < nc) by {
                vstd::arithmetic::div_mod::lemma_fundamental_div_mod(cols - o - 1, step);
                let q = (cols - o - 1) / step;
                assert(a <= q) by (nonlinear_arith)
                    requires
                        step * a <= cols - o - 1,
                        cols - o - 1 == step * q + (cols - o - 1) % step,
                        (cols - o - 1) % step < step,
                        step >= 1,
                ;
            }
            assert(b < nr) by {
                vstd::arithmetic::div_mod::lemma_fundamental_div_mod(rows - o - 1, step);
                let q = (rows - o - 1) / step;
                assert(b <= q) by (nonlinear_arith)
                    requires
                        step * b <= rows - o - 1,
                        rows - o - 1 == step * q + (rows - o - 1) % step,
                        (rows - o - 1) % step < step,
                        step >= 1,
                ;
            }
            let p = grid_pos(a, b, nr);
            assert(0 <= p < nc * nr) by (nonlinear_arith)
                requires
                    p == a * nr + b,
                    0 <= a < nc,
                    0 <= b < nr,
            ;
            assert(o + a * step == c && o + b * step == r) by (nonlinear_arith)
                requires
                    c - o == step * a,
                    r - o == step * b,
            ;
            assert(0 <= c + r * cols <= usize::MAX) by (nonlinear_arith)
                requires
                    0 <= c < cols,
                    0 <= r < rows,
                    cols * rows <= usize::MAX,
            ;
            assert(cells[p] == x);
            assert(p < t);
            assert(taken[p] == x);
            assert(taken.contains(x));
        }
    }
}

impl Initializer {
    /// Chooses `k` seed cells of `matrix`: none for `k == 0`, every cell
    /// when `k` exceeds the number of cells, otherwise the cells picked by
    /// the strategy.
    pub fn initialize<T, const N: usize>(&self, matrix: &MatrixView<'_, T, N>, k: usize) -> (seeds:
        HashSet<usize>)
        requires
            matrix.wf(),
        ensures
            k == 0 ==> seeds@ == Set::<usize>::empty(),
            k > matrix.points_view().len() ==> seeds@ == all_cells(matrix.points_view().len() as int),
            1 <= k <= matrix.points_view().len() ==> exists|m: int|
                is_rounded_sqrt_ratio(m, matrix.points_view().len() as int, k as int) && seeds@
                    == grid_seeds(
                    matrix.cols_view() as int,
                    matrix.rows_view() as int,
                    k as int,
                    if m >= 1 {
                        m
                    } else {
                        1
                    },
                ),
            forall|mm: int|
                #![trigger is_rounded_sqrt_ratio(mm, matrix.points_view().len() as int, k as int)]
                1 <= k <= matrix.points_view().len() && is_rounded_sqrt_ratio(mm, matrix.points_view().len() as int, k as int) ==> ({
                    let cols = matrix.cols_view() as int;
                    let rows = matrix.rows_view() as int;
                    let step = if mm >= 1 { mm } else { 1 };
                    let o = step / 2;
                    let ncols = if cols <= o { 0 } else { (cols - o - 1) / step + 1 };
                    let nrows = if rows <= o { 0 } else { (rows - o - 1) / step + 1 };
                    &&& seeds@.finite()
                    &&& seeds@.len() <= k
                    &&& seeds@.len() == if k < ncols * nrows { k as int } else { ncols * nrows }
                    &&& forall|x: usize|
                        #[trigger] seeds@.contains(x) <==> exists|c: int, r: int|
                            o <= c < cols && o <= r < rows && (c - o) % step == 0 && (r - o) % step
                                == 0 && ((c - o) / step) * nrows + (r - o) / step < k && x
                                == #[trigger] cell_index(c, r, cols)
                }),
    {
        proof {
            assert(obeys_key_model::<usize>());
            assert(builds_valid_hashers::<std::hash::RandomState>());
        }
        if k == 0 {
            return HashSet::new();
        }
        let size = matrix.size();
        if k > size {
            let mut all: HashSet<usize> = HashSet::with_capacity(size);
            let mut i: usize = 0;
            while i < size
                invariant
                    i <= size,
                    all@ == all_cells(i as int),
                    obeys_key_model::<usize>(),
                    builds_valid_hashers::<std::hash::RandomState>(),
                decreases size - i,
            {
                all.insert(i);
                proof {
                    assert(all@ =~= all_cells(i + 1));
                }
                i = i + 1;
            }
            return all;
        }
        match self {
            Initializer::Grid => self.initialize_grid(matrix, k),
        }
    }

    /// Walks the grid column by column, rows and columns `step` apart, and
    /// takes the first `k` cells.
    fn initialize_grid<T, const N: usize>(&self, matrix: &MatrixView<'_, T, N>, k: usize) -> (seeds:
        HashSet<usize>)
        requires
            matrix.wf(),
            1 <= k <= matrix.points_view().len(),
        ensures
            exists|m: int|
                is_rounded_sqrt_ratio(m, matrix.points_view().len() as int, k as int) && seeds@
                    == grid_seeds(
                    matrix.cols_view() as int,
                    matrix.rows_view() as int,
                    k as int,
                    if m >= 1 {
                        m
                    } else {
                        1
                    },
                ),
            forall|mm: int|
                #![trigger is_rounded_sqrt_ratio(mm, matrix.points_view().len() as int, k as int)]
                is_rounded_sqrt_ratio(mm, matrix.points_view().len() as int, k as int) ==> ({
                    let cols = matrix.cols_view() as int;
                    let rows = matrix.rows_view() as int;
                    let step = if mm >= 1 { mm } else { 1 };
                    let o = step / 2;
                    let ncols = if cols <= o { 0 } else { (cols - o - 1) / step + 1 };
                    let nrows = if rows <= o { 0 } else { (rows - o - 1) / step + 1 };
                    &&& seeds@.finite()
                    &&& seeds@.len() <= k
                    &&& seeds@.len() == if k < ncols * nrows { k as int } else { ncols * nrows }
                    &&& forall|x: usize|
                        #[trigger] seeds@.contains(x) <==> exists|c: int, r: int|
                            o <= c < cols && o <= r < rows && (c - o) % step == 0 && (r - o) % step
                                == 0 && ((c - o) / step) * nrows + (r - o) / step < k && x
                                == #[trigger] cell_index(c, r, cols)
                }),
    {
        proof {
            assert(obeys_key_model::<usize>());
            assert(builds_valid_hashers::<std::hash::RandomState>());
            matrix.lemma_wf_shape();
        }
        let size = matrix.size();
        let m = rounded_sqrt_ratio(size, k);
        let step = if m >= 1 {
            m
        } else {
            1
        };
        let offset = step / 2;
        let (cols, rows) = matrix.shape();
        let ghost ci = cols as int;
        let ghost ri = rows as int;
        let ghost cells = grid_cells(offset as int, offset as int, ci, ri, step as int);
        let ghost mut done: Seq<usize> = Seq::empty();
        let mut seeds: HashSet<usize> = HashSet::with_capacity(k);
        let mut full = false;
        let mut i = offset;
        while !full && i < cols
            invariant
                obeys_key_model::<usize>(),
                builds_valid_hashers::<std::hash::RandomState>(),
                matrix.wf(),
                ci == cols,
                ri == rows,
                cols == matrix.cols_view(),
                rows == matrix.rows_view(),
                ci * ri == size,
                size == matrix.points_view().len(),
                1 <= k <= size,
                step >= 1,
                offset == step / 2,
                cells == grid_cells(offset as int, offset as int, ci, ri, step as int),
                seeds@ == done.to_set(),
                done.no_duplicates(),
                full ==> done.len() == k && k <= cells.len() && done == cells.take(k as int),
                !full ==> {
                    &&& done.len() < k
                    &&& cells == done + grid_cells(i as int, offset as int, ci, ri, step as int)
                    &&& all_before(done, ci, ri, i as int, 0)
                },
            decreases (if full {
                0
            } else {
                cols - i + 1
            }),
        {
            let mut j = offset;
            proof {
                assert(grid_cells(i as int, offset as int, ci, ri, step as int) == grid_rows(
                    i as int,
                    offset as int,
                    ri,
                    ci,
                    step as int,
                ) + grid_cells(i + step, offset as int, ci, ri, step as int));
                assert(cells =~= done + grid_rows(i as int, j as int, ri, ci, step as int)
                    + grid_cells(i + step, offset as int, ci, ri, step as int));
                lemma_all_before_mono(done, ci, ri, i as int, 0, i as int, j as int);
            }
            while !full && j < rows
                invariant
                    obeys_key_model::<usize>(),
                    builds_valid_hashers::<std::hash::RandomState>(),
                    matrix.wf(),
                    ci == cols,
                    ri == rows,
                    cols == matrix.cols_view(),
                    rows == matrix.rows_view(),
                    i < cols,
                    ci * ri == size,
                    1 <= k <= size,
                    step >= 1,
                    seeds@ == done.to_set(),
                    done.no_duplicates(),
                    full ==> done.len() == k && k <= cells.len() && done == cells.take(k as int),
                    !full ==> {
                        &&& done.len() < k
                        &&& cells == done + grid_rows(i as int, j as int, ri, ci, step as int)
                            + grid_cells(i + step, offset as int, ci, ri, step as int)
                        &&& all_before(done, ci, ri, i as int, j as int)
                    },
                decreases (if full {
                    0
                } else {
                    rows - j + 1
                }),
            {
                if let Some(index) = matrix.flatten_index(i, j) {
                    let ghost rest = grid_rows(i as int, j + step, ri, ci, step as int) + grid_cells(
                        i + step,
                        offset as int,
                        ci,
                        ri,
                        step as int,
                    );
                    proof {
                        assert(index == cell_index(i as int, j as int, ci));
                        assert(!done.contains(index)) by {
                            if done.contains(index) {
                                let x = choose|x: int| 0 <= x < done.len() && done[x] == index;
                                assert(cell_before(done[x] as int, ci, ri, i as int, j as int));
                                let (c, r) = choose|c: int, r: int|
                                    0 <= c < ci && 0 <= r < ri && (c < i || (c == i && r < j))
                                        && done[x] == #[trigger] cell_index(c, r, ci);
                                lemma_cell_index_injective(c, r, i as int, j as int, ci);
                            }
                        }
                        assert(grid_rows(i as int, j as int, ri, ci, step as int) == seq![index]
                            + grid_rows(i as int, j + step, ri, ci, step as int));
                        assert(cells =~= done.push(index) + rest);
                    }
                    seeds.insert(index);
                    proof {
                        let d2 = done.push(index);
                        done.lemma_push_to_set_commute(index);
                        assert(all_before(d2, ci, ri, i as int, j + 1)) by {
                            lemma_all_before_mono(done, ci, ri, i as int, j as int, i as int, j + 1);
                            assert forall|x: int| 0 <= x < d2.len() implies #[trigger] cell_before(
                                d2[x] as int,
                                ci,
                                ri,
                                i as int,
                                j + 1,
                            ) by {
                                if x < done.len() {
                                    assert(d2[x] == done[x]);
                                    assert(cell_before(done[x] as int, ci, ri, i as int, j + 1));
                                } else {
                                    assert(d2[x] == cell_index(i as int, j as int, ci));
                                }
                            }
                        }
                        done = d2;
                        done.unique_seq_to_set();
                    }
                    if seeds.len() >= k {
                        full = true;
                        proof {
                            assert(cells.take(k as int) =~= done);
                        }
                    } else {
                        if step >= rows - j {
                            proof {
                                assert(grid_rows(i as int, j + step, ri, ci, step as int)
                                    =~= Seq::<usize>::empty());
                                lemma_all_before_mono(done, ci, ri, i as int, j + 1, i as int, ri);
                            }
                            j = rows;
                        } else {
                            proof {
                                lemma_all_before_mono(done, ci, ri, i as int, j + 1, i as int, j + step);
                            }
                            j = j + step;
                        }
                        proof {
                            assert(cells =~= done + grid_rows(i as int, j as int, ri, ci, step as int)
                                + grid_cells(i + step, offset as int, ci, ri, step as int));
                        }
                    }
                }
            }
            if !full {
                proof {
                    assert(grid_rows(i as int, j as int, ri, ci, step as int) =~= Seq::<usize>::empty());
                    assert(cells =~= done + grid_cells(i + step, offset as int, ci, ri, step as int));
                }
                if step >= cols - i {
                    proof {
                        assert(grid_cells(i + step, offset as int, ci, ri, step as int)
                            =~= Seq::<usize>::empty());
                        lemma_all_before_mono(done, ci, ri, i as int, j as int, ci, 0);
                    }
                    i = cols;
                } else {
                    proof {
                        lemma_all_before_mono(done, ci, ri, i as int, j as int, i + step, 0);
                    }
                    i = i + step;
                }
            }
        }
        proof {
            let cl = cells.len();
            if !full {
                assert(grid_cells(i as int, offset as int, ci, ri, step as int) =~= Seq::<usize>::empty());
                assert(cells =~= done);
                assert(cells.take(cl as int) =~= cells);
            }
            assert(seeds@ =~= grid_seeds(ci, ri, k as int, step as int));
            lemma_grid_seeds_members(ci, ri, k as int, step as int);
            done.unique_seq_to_set();
            assert(seeds@.len() == done.len());
            assert forall|mm: int| is_rounded_sqrt_ratio(mm, size as int, k as int) implies mm == m by {
                lemma_rounded_sqrt_ratio_unique(mm, m as int, size as int, k as int);
            }
        }
        seeds
    }
}

} // verus!
