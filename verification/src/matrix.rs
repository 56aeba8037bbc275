//! A read-only view of a slice of points as a `cols` x `rows` grid.
use crate::point::Point;
use vstd::prelude::*;

verus! {

/// Errors of building a matrix view.
#[derive(Debug, Clone, Copy, PartialEq, Eq, Structural)]
pub enum MatrixError {
    /// The number of points is not `cols * rows`.
    DimensionMismatch { cols: usize, rows: usize, expected: usize, actual: usize },
}

/// `col + row * cols` is a valid index when the cell lies in the grid.
proof fn lemma_cell_index(col: int, row: int, cols: int, rows: int)
    requires
        0 <= col < cols,
        0 <= row < rows,
    ensures
        0 <= col + row * cols < cols * rows,
{
    assert(0 <= col + row * cols < cols * rows) by (nonlinear_arith)
        requires
            0 <= col < cols,
            0 <= row < rows,
    ;
}

/// Whether the offset `(dx, dy)` from `(col, row)` names another cell of the grid.
pub open spec fn is_neighbor_offset(
    cols: int,
    rows: int,
    col: int,
    row: int,
    dx: int,
    dy: int,
) -> bool {
    &&& !(dx == 0 && dy == 0)
    &&& 0 <= col + dx < cols
    &&& 0 <= row + dy < rows
}

/// The indices of the cells at the offsets from `(dx, dy)` onwards, offsets
/// taken row by row (`dy` outer, `dx` inner) within `[-r, r]`, skipping the
/// cell itself and the offsets that fall outside the grid.
pub open spec fn offsets_from(
    cols: int,
    rows: int,
    col: int,
    row: int,
    r: int,
    dx: int,
    dy: int,
) -> Seq<usize>
    decreases r + 1 - dy, r + 2 - dx,
{
    if dy > r {
        Seq::empty()
    } else if dx > r {
        offsets_from(cols, rows, col, row, r, -r, dy + 1)
    } else {
        let tail = offsets_from(cols, rows, col, row, r, dx + 1, dy);
        if is_neighbor_offset(cols, rows, col, row, dx, dy) {
            seq![((col + dx) + (row + dy) * cols) as usize] + tail
        } else {
            tail
        }
    }
}

/// The indices of the cells within `radius` of `(col, row)` (the
/// Chebyshev neighbourhood), in row-major order; none when the cell itself
/// is outside the grid.
pub open spec fn neighbor_indices(cols: int, rows: int, col: int, row: int, radius: int) -> Seq<
    usize,
> {
    if col >= cols || row >= rows {
        Seq::empty()
    } else {
        offsets_from(cols, rows, col, row, radius, -radius, -radius)
    }
}

/// The index of the cell at the offset `(dx, dy)` from `(col, row)`.
pub open spec fn offset_index(cols: int, col: int, row: int, dx: int, dy: int) -> int {
    (col + dx) + (row + dy) * cols
}

/// `k` is the index of a cell within `r` of `(col, row)`, other than the
/// cell itself, at an offset no earlier than `(dx0, dy0)` in row-major order.
pub open spec fn window_index_from(
    cols: int,
    rows: int,
    col: int,
    row: int,
    r: int,
    dx0: int,
    dy0: int,
    k: int,
) -> bool {
    exists|dx: int, dy: int|
        -r <= dx <= r && dy <= r && (dy > dy0 || (dy == dy0 && dx >= dx0)) && is_neighbor_offset(
            cols,
            rows,
            col,
            row,
            dx,
            dy,
        ) && k == #[trigger] offset_index(cols, col, row, dx, dy)
}

/// Row-major order: a cell in an earlier row, or earlier in the same row,
/// has the smaller index.
proof fn lemma_row_major(cols: int, c1: int, r1: int, c2: int, r2: int)
    requires
        0 <= c1 < cols,
        0 <= c2 < cols,
        r1 < r2 || (r1 == r2 && c1 < c2),
    ensures
        c1 + r1 * cols < c2 + r2 * cols,
{
    if r1 < r2 {
        assert(c1 + r1 * cols < c2 + r2 * cols) by (nonlinear_arith)
            requires
                0 <= c1 < cols,
                0 <= c2 < cols,
                r1 < r2,
        ;
    }
}

/// The offsets from `(dx0, dy0)` on give, in increasing order, exactly the
/// cells of the window at those offsets.
proof fn lemma_offsets_from(cols: int, rows: int, col: int, row: int, r: int, dx0: int, dy0: int)
    requires
        0 <= col < cols,
        0 <= row < rows,
        0 <= r,
        -r <= dx0 <= r + 1,
        -r <= dy0,
        cols * rows <= usize::MAX,
    ensures
        forall|i: int, j: int|
            0 <= i < j < offsets_from(cols, rows, col, row, r, dx0, dy0).len() ==> offsets_from(
                cols,
                rows,
                col,
                row,
                r,
                dx0,
                dy0,
            )[i] < offsets_from(cols, rows, col, row, r, dx0, dy0)[j],
        forall|i: int|
            0 <= i < offsets_from(cols, rows, col, row, r, dx0, dy0).len() ==> window_index_from(
                cols,
                rows,
                col,
                row,
                r,
                dx0,
                dy0,
                #[trigger] offsets_from(cols, rows, col, row, r, dx0, dy0)[i] as int,
            ),
        forall|k: int|
            #[trigger] window_index_from(cols, rows, col, row, r, dx0, dy0, k) ==> offsets_from(
                cols,
                rows,
                col,
                row,
                r,
                dx0,
                dy0,
            ).contains(k as usize),
    decreases r + 1 - dy0, r + 2 - dx0,
{
    let s = offsets_from(cols, rows, col, row, r, dx0, dy0);
    if dy0 > r {
        assert forall|k: int| #[trigger] window_index_from(cols, rows, col, row, r, dx0, dy0, k) implies s.contains(
            k as usize,
        ) by {
            let (dx, dy) = choose|dx: int, dy: int|
                -r <= dx <= r && dy <= r && (dy > dy0 || (dy == dy0 && dx >= dx0)) && is_neighbor_offset(
                    cols,
                    rows,
                    col,
                    row,
                    dx,
                    dy,
                ) && k == #[trigger] offset_index(cols, col, row, dx, dy);
        }
    } else if dx0 > r {
        lemma_offsets_from(cols, rows, col, row, r, -r, dy0 + 1);
        assert(s == offsets_from(cols, rows, col, row, r, -r, dy0 + 1));
        assert forall|i: int| 0 <= i < s.len() implies window_index_from(
            cols,
            rows,
            col,
            row,
            r,
            dx0,
            dy0,
            #[trigger] s[i] as int,
        ) by {
            assert(window_index_from(cols, rows, col, row, r, -r, dy0 + 1, s[i] as int));
            let (dx, dy) = choose|dx: int, dy: int|
                -r <= dx <= r && dy <= r && (dy > dy0 + 1 || (dy == dy0 + 1 && dx >= -r))
                    && is_neighbor_offset(cols, rows, col, row, dx, dy) && s[i] as int
                    == #[trigger] offset_index(cols, col, row, dx, dy);
            assert(offset_index(cols, col, row, dx, dy) == s[i] as int);
        }
        assert forall|k: int| #[trigger] window_index_from(cols, rows, col, row, r, dx0, dy0, k) implies s.contains(
            k as usize,
        ) by {
            let (dx, dy) = choose|dx: int, dy: int|
                -r <= dx <= r && dy <= r && (dy > dy0 || (dy == dy0 && dx >= dx0)) && is_neighbor_offset(
                    cols,
                    rows,
                    col,
                    row,
                    dx,
                    dy,
                ) && k == #[trigger] offset_index(cols, col, row, dx, dy);
            assert(window_index_from(cols, rows, col, row, r, -r, dy0 + 1, k));
        }
    } else {
        lemma_offsets_from(cols, rows, col, row, r, dx0 + 1, dy0);
        let tail = offsets_from(cols, rows, col, row, r, dx0 + 1, dy0);
        let here = offset_index(cols, col, row, dx0, dy0);
        assert forall|i: int| 0 <= i < tail.len() implies (is_neighbor_offset(cols, rows, col, row, dx0, dy0)
            ==> #[trigger] tail[i] as int > here) && window_index_from(cols, rows, col, row, r, dx0, dy0, tail[i] as int) by {
            assert(window_index_from(cols, rows, col, row, r, dx0 + 1, dy0, tail[i] as int));
            let (dx, dy) = choose|dx: int, dy: int|
                -r <= dx <= r && dy <= r && (dy > dy0 || (dy == dy0 && dx >= dx0 + 1))
                    && is_neighbor_offset(cols, rows, col, row, dx, dy) && tail[i] as int
                    == #[trigger] offset_index(cols, col, row, dx, dy);
            if is_neighbor_offset(cols, rows, col, row, dx0, dy0) {
                lemma_row_major(cols, col + dx0, row + dy0, col + dx, row + dy);
            } else {
                assert(offset_index(cols, col, row, dx, dy) == tail[i] as int);
            }
        }
        if is_neighbor_offset(cols, rows, col, row, dx0, dy0) {
            lemma_cell_index(col + dx0, row + dy0, cols, rows);
            assert(s == seq![here as usize] + tail);
            assert forall|i: int, j: int| 0 <= i < j < s.len() implies s[i] < s[j] by {
                if i == 0 {
                    assert(s[j] == tail[j - 1]);
                } else {
                    assert(s[i] == tail[i - 1] && s[j] == tail[j - 1]);
                }
            }
            assert forall|i: int| 0 <= i < s.len() implies window_index_from(
                cols,
                rows,
                col,
                row,
                r,
                dx0,
                dy0,
                #[trigger] s[i] as int,
            ) by {
                if i == 0 {
                    assert(offset_index(cols, col, row, dx0, dy0) == s[0] as int);
                } else {
                    assert(s[i] == tail[i - 1]);
                }
            }
            assert forall|k: int| #[trigger] window_index_from(cols, rows, col, row, r, dx0, dy0, k) implies s.contains(
                k as usize,
            ) by {
                let (dx, dy) = choose|dx: int, dy: int|
                    -r <= dx <= r && dy <= r && (dy > dy0 || (dy == dy0 && dx >= dx0)) && is_neighbor_offset(
                        cols,
                        rows,
                        col,
                        row,
                        dx,
                        dy,
                    ) && k == #[trigger] offset_index(cols, col, row, dx, dy);
                if dx == dx0 && dy == dy0 {
                    assert(s[0] == k as usize);
                } else {
                    assert(window_index_from(cols, rows, col, row, r, dx0 + 1, dy0, k));
                    assert(tail.contains(k as usize));
                    let j = choose|j: int| 0 <= j < tail.len() && tail[j] == k as usize;
                    assert(s[j + 1] == k as usize);
                }
            }
        } else {
            assert(s == tail);
            assert forall|k: int| #[trigger] window_index_from(cols, rows, col, row, r, dx0, dy0, k) implies s.contains(
                k as usize,
            ) by {
                let (dx, dy) = choose|dx: int, dy: int|
                    -r <= dx <= r && dy <= r && (dy > dy0 || (dy == dy0 && dx >= dx0)) && is_neighbor_offset(
                        cols,
                        rows,
                        col,
                        row,
                        dx,
                        dy,
                    ) && k == #[trigger] offset_index(cols, col, row, dx, dy);
                assert(!(dx == dx0 && dy == dy0));
                assert(window_index_from(cols, rows, col, row, r, dx0 + 1, dy0, k));
            }
        }
    }
}

/// The neighbours of a cell inside the grid come in increasing order, and
/// they are exactly the other cells within `radius` of it (the Chebyshev
/// window); a cell outside the grid has none.
pub proof fn lemma_neighbor_indices(cols: int, rows: int, col: int, row: int, radius: int)
    requires
        0 <= radius,
        0 <= col,
        0 <= row,
        cols * rows <= usize::MAX,
    ensures
        forall|i: int, j: int|
            0 <= i < j < neighbor_indices(cols, rows, col, row, radius).len() ==> neighbor_indices(
                cols,
                rows,
                col,
                row,
                radius,
            )[i] < neighbor_indices(cols, rows, col, row, radius)[j],
        col < cols && row < rows ==> forall|k: usize|
            #![trigger neighbor_indices(cols, rows, col, row, radius).contains(k)]
            #![trigger window_index_from(cols, rows, col, row, radius, -radius, -radius, k as int)]
            neighbor_indices(cols, rows, col, row, radius).contains(k) <==> window_index_from(
                cols,
                rows,
                col,
                row,
                radius,
                -radius,
                -radius,
                k as int,
            ),
        col >= cols || row >= rows ==> neighbor_indices(cols, rows, col, row, radius).len() == 0,
{
    if col < cols && row < rows {
        lemma_offsets_from(cols, rows, col, row, radius, -radius, -radius);
        let s = offsets_from(cols, rows, col, row, radius, -radius, -radius);
        assert forall|k: usize| s.contains(k) implies window_index_from(
            cols,
            rows,
            col,
            row,
            radius,
            -radius,
            -radius,
            k as int,
        ) by {
            let i = choose|i: int| 0 <= i < s.len() && s[i] == k;
            assert(window_index_from(cols, rows, col, row, radius, -radius, -radius, s[i] as int));
        }
        assert forall|k: usize| window_index_from(cols, rows, col, row, radius, -radius, -radius, k as int)
            implies s.contains(k) by {
            assert(s.contains((k as int) as usize));
        }
    }
}

/// A matrix view over a slice of points.
#[derive(Debug)]
pub struct MatrixView<'a, T, const N: usize> {
    pub(crate) cols: usize,
    pub(crate) rows: usize,
    points: &'a [Point<T, N>],
}

impl<'a, T, const N: usize> MatrixView<'a, T, N> {
    /// The points, row after row.
    pub closed spec fn points_view(&self) -> Seq<Point<T, N>> {
        self.points@
    }

    /// The number of columns.
    pub closed spec fn cols_view(&self) -> nat {
        self.cols as nat
    }

    /// The number of rows.
    pub closed spec fn rows_view(&self) -> nat {
        self.rows as nat
    }

    /// The grid holds exactly one point per cell.
    pub closed spec fn wf(&self) -> bool {
        &&& self.points@.len() == self.cols * self.rows
        &&& self.cols * self.rows <= usize::MAX
    }

    /// Creates a view of `points` as `cols` columns and `rows` rows.
    pub fn new(cols: usize, rows: usize, points: &'a [Point<T, N>]) -> (m: Result<Self, MatrixError>)
        requires
            cols * rows <= usize::MAX,
        ensures
            points@.len() == cols * rows <==> m is Ok,
            m matches Ok(v) ==> {
                &&& v.wf()
                &&& v.cols_view() == cols
                &&& v.rows_view() == rows
                &&& v.points_view() == points@
            },
            m matches Err(e) ==> e == (MatrixError::DimensionMismatch {
                cols,
                rows,
                expected: (cols * rows) as usize,
                actual: points@.len() as usize,
            }),
    {
        let expected = cols * rows;
        let actual = points.len();
        if expected != actual {
            return Err(MatrixError::DimensionMismatch { cols, rows, expected, actual });
        }
        Ok(MatrixView { cols, rows, points })
    }

    /// A well-formed view holds `cols * rows` points, a number that fits in `usize`.
    pub proof fn lemma_wf_shape(&self)
        requires
            self.wf(),
        ensures
            self.points_view().len() == self.cols_view() * self.rows_view(),
            self.cols_view() * self.rows_view() <= usize::MAX,
    {
    }

    /// Returns the number of points.
    pub fn size(&self) -> (n: usize)
        ensures
            n == self.points_view().len(),
    {
        self.points.len()
    }

    /// Returns the shape `(cols, rows)`.
    pub fn shape(&self) -> (s: (usize, usize))
        ensures
            s.0 == self.cols_view(),
            s.1 == self.rows_view(),
    {
        (self.cols, self.rows)
    }

    /// Returns the index of the point at `(col, row)`, if the cell exists.
    pub fn flatten_index(&self, col: usize, row: usize) -> (index: Option<usize>)
        requires
            self.wf(),
        ensures
            index == if col < self.cols_view() && row < self.rows_view() {
                Some((col + row * self.cols_view()) as usize)
            } else {
                None::<usize>
            },
            index matches Some(i) ==> i < self.points_view().len() && i == col + row
                * self.cols_view(),
    {
        if col < self.cols && row < self.rows {
            proof {
                lemma_cell_index(col as int, row as int, self.cols as int, self.rows as int);
            }
            Some(col + row * self.cols)
        } else {
            None
        }
    }

    /// Returns the point at `(col, row)`, if the cell exists.
    pub fn get(&self, col: usize, row: usize) -> (p: Option<&Point<T, N>>)
        requires
            self.wf(),
        ensures
            p matches Some(q) ==> col < self.cols_view() && row < self.rows_view() && *q
                == self.points_view()[col + row * self.cols_view()],
            p is None <==> !(col < self.cols_view() && row < self.rows_view()),
    {
        match self.flatten_index(col, row) {
            Some(index) => {
                let p = &self.points[index];
                assert(index as int == col + row * self.cols_view());
                Some(p)
            },
            None => None,
        }
    }

    /// Returns an iterator over the 8-neighbourhood of `(col, row)`.
    pub fn neighbors(&self, col: usize, row: usize) -> (it: NeighborIterator<'_, T, N>)
        requires
            self.wf(),
        ensures
            it.wf(),
            it.matrix_view() == *self,
            it.remaining() == neighbor_indices(
                self.cols_view() as int,
                self.rows_view() as int,
                col as int,
                row as int,
                1,
            ),
    {
        NeighborIterator::new(self, col, row, 1)
    }

    /// Returns an iterator over the cells within `radius` of `(col, row)`.
    pub fn neighbors_within(&self, col: usize, row: usize, radius: usize) -> (it: NeighborIterator<
        '_,
        T,
        N,
    >)
        requires
            self.wf(),
            radius < isize::MAX,
        ensures
            it.wf(),
            it.matrix_view() == *self,
            it.remaining() == neighbor_indices(
                self.cols_view() as int,
                self.rows_view() as int,
                col as int,
                row as int,
                radius as int,
            ),
    {
        NeighborIterator::new(self, col, row, radius)
    }
}

/// An iterator over the neighbours of a cell of a matrix view.
#[derive(Debug)]
pub struct NeighborIterator<'a, T, const N: usize> {
    matrix: &'a MatrixView<'a, T, N>,
    col: usize,
    row: usize,
    radius: isize,
    dx: isize,
    dy: isize,
}

impl<'a, T, const N: usize> NeighborIterator<'a, T, N> {
    /// The matrix this iterator walks over.
    pub closed spec fn matrix_view(&self) -> MatrixView<'a, T, N> {
        *self.matrix
    }

    /// The offsets still to be visited lie in the window.
    pub closed spec fn wf(&self) -> bool {
        &&& self.matrix.wf()
        &&& 0 <= self.radius < isize::MAX
        &&& -self.radius <= self.dx <= self.radius + 1
        &&& -self.radius <= self.dy <= self.radius + 1
    }

    /// The indices this iterator has yet to yield, in order.
    pub closed spec fn remaining(&self) -> Seq<usize> {
        if self.col >= self.matrix.cols || self.row >= self.matrix.rows {
            Seq::empty()
        } else {
            offsets_from(
                self.matrix.cols as int,
                self.matrix.rows as int,
                self.col as int,
                self.row as int,
                self.radius as int,
                self.dx as int,
                self.dy as int,
            )
        }
    }

    /// Creates an iterator over the cells within `radius` of `(col, row)`.
    pub fn new(matrix: &'a MatrixView<'a, T, N>, col: usize, row: usize, radius: usize) -> (it: Self)
        requires
            matrix.wf(),
            radius < isize::MAX,
        ensures
            it.wf(),
            it.matrix_view() == *matrix,
            it.remaining() == neighbor_indices(
                matrix.cols_view() as int,
                matrix.rows_view() as int,
                col as int,
                row as int,
                radius as int,
            ),
    {
        let radius = radius as isize;
        NeighborIterator { matrix, col, row, radius, dx: -radius, dy: -radius }
    }

    /// Returns the next neighbour: its index and its point.
    pub fn next(&mut self) -> (item: Option<(usize, &'a Point<T, N>)>)
        requires
            old(self).wf(),
        ensures
            final(self).wf(),
            final(self).matrix_view() == old(self).matrix_view(),
            old(self).remaining().len() == 0 ==> item is None,
            old(self).remaining().len() > 0 ==> {
                &&& item matches Some(p)
                &&& p.0 == old(self).remaining()[0]
                &&& p.0 < old(self).matrix_view().points_view().len()
                &&& *p.1 == old(self).matrix_view().points_view()[p.0 as int]
                &&& final(self).remaining() == old(self).remaining().drop_first()
            },
    {
        let cols = self.matrix.cols;
        let rows = self.matrix.rows;
        if self.col >= cols || self.row >= rows {
            return None;
        }
        let ghost r = self.radius as int;
        let ghost c = self.col as int;
        let ghost w = self.row as int;
        let ghost start = self.remaining();
        while self.dy <= self.radius
            invariant
                self.wf(),
                self.matrix == old(self).matrix,
                self.col == old(self).col,
                self.row == old(self).row,
                self.radius == old(self).radius,
                cols == self.matrix.cols,
                rows == self.matrix.rows,
                self.col < cols,
                self.row < rows,
                r == self.radius,
                c == self.col,
                w == self.row,
                self.remaining() == start,
                start == old(self).remaining(),
            decreases r + 1 - self.dy, r + 2 - self.dx,
        {
            let dy = self.dy;
            while self.dx <= self.radius
                invariant
                    self.wf(),
                    self.matrix == old(self).matrix,
                    self.col == old(self).col,
                    self.row == old(self).row,
                    self.radius == old(self).radius,
                    cols == self.matrix.cols,
                    rows == self.matrix.rows,
                    self.col < cols,
                    self.row < rows,
                    r == self.radius,
                    c == self.col,
                    w == self.row,
                    dy == self.dy,
                    dy <= r,
                    self.remaining() == start,
                    start == old(self).remaining(),
                decreases r + 2 - self.dx,
            {
                let dx = self.dx;
                self.dx = self.dx + 1;
                if dx == 0 && dy == 0 {
                    continue;
                }
                let col = offset_coordinate(self.col, dx);
                let row = offset_coordinate(self.row, dy);
                match (col, row) {
                    (Some(col), Some(row)) => {
                        if col >= cols || row >= rows {
                            continue;
                        }
                        proof {
                            lemma_cell_index(col as int, row as int, cols as int, rows as int);
                        }
                        let index = col + row * cols;
                        let point = &self.matrix.points[index];
                        proof {
                            let ci = cols as int;
                            let ri = rows as int;
                            let tail = offsets_from(ci, ri, c, w, r, dx + 1, dy as int);
                            assert(is_neighbor_offset(ci, ri, c, w, dx as int, dy as int));
                            assert(offsets_from(ci, ri, c, w, r, dx as int, dy as int) == seq![index]
                                + tail);
                            assert(start == seq![index] + tail);
                            assert((seq![index] + tail).drop_first() =~= tail);
                            assert(old(self).remaining() == start);
                            assert(self.remaining() == tail);
                            assert(start[0] == index);
                        }
                        return Some((index, point));
                    },
                    _ => {
                        continue;
                    },
                }
            }
            self.dx = -self.radius;
            self.dy = self.dy + 1;
        }
        None
    }
}

/// `base + offset`, if it is a valid `usize`.
fn offset_coordinate(base: usize, offset: isize) -> (r: Option<usize>)
    ensures
        r matches Some(v) ==> v == base + offset,
        r is None ==> base + offset < 0 || base + offset > usize::MAX,
{
    if offset < 0 {
        let magnitude = (0 - (offset + 1)) as usize + 1;
        if magnitude > base {
            None
        } else {
            Some(base - magnitude)
        }
    } else {
        let magnitude = offset as usize;
        if base > usize::MAX - magnitude {
            None
        } else {
            Some(base + magnitude)
        }
    }
}

} // verus!
