use vstd::prelude::*;
use crate::track::{
    CellSize, Fraction, MAX_TRACKS, auto_count, axis_denominator, base_size_num, frac_is,
    lemma_base_size_bounded, lemma_full_coverage, lemma_locate, lemma_track_start_bounded,
    lemma_unique_slot, percent_total, resolve_tracks, sizes_nonneg, track_start,
};

verus! {

/// A complete grid definition: the column tracks from left to right, the row
/// tracks from top to bottom, and the viewport `(width, height)`.
#[derive(Debug, Default)]
pub struct Layout {
    pub columns: Vec<CellSize>,
    pub rows: Vec<CellSize>,
    pub viewport: (u32, u32),
}

/// Collects a grid definition step by step; see [`LayoutBuilder::build`].
#[derive(Clone, Debug, Default)]
pub struct LayoutBuilder {
    columns: Option<Vec<CellSize>>,
    rows: Option<Vec<CellSize>>,
    viewport: Option<(u32, u32)>,
}

/// The position of the cell of row `r` and column `c` in a grid of
/// `n_columns` columns, in row-major order.
pub open spec fn grid_index(n_columns: int, r: int, c: int) -> int {
    r * n_columns + c
}

/// `cell` is the rectangle `(x1, y1, x2, y2)` of row `r` and column `c` of `l`:
/// it spans that column's track horizontally and that row's track vertically.
pub open spec fn cell_is(cell: (Fraction, Fraction, Fraction, Fraction), l: Layout, r: int, c: int) -> bool {
    let cols = l.columns@;
    let rows = l.rows@;
    let w = l.viewport.0 as int;
    let h = l.viewport.1 as int;
    &&& frac_is(cell.0, track_start(cols, w, c), axis_denominator(cols))
    &&& frac_is(cell.1, track_start(rows, h, r), axis_denominator(rows))
    &&& frac_is(cell.2, track_start(cols, w, c + 1), axis_denominator(cols))
    &&& frac_is(cell.3, track_start(rows, h, r + 1), axis_denominator(rows))
}

/// `cells` is the grid of `l`: one rectangle per row and column, rows outer
/// and columns inner.
pub open spec fn is_grid_of(l: Layout, cells: Seq<(Fraction, Fraction, Fraction, Fraction)>) -> bool {
    let n_cols = l.columns.len() as int;
    &&& cells.len() == l.rows.len() * n_cols
    &&& forall|r: int, c: int|
        0 <= r < l.rows.len() && 0 <= c < n_cols ==> cell_is(
            #[trigger] cells[grid_index(n_cols, r, c)],
            l,
            r,
            c,
        )
}

/// The tracks given, or a single automatic track where none were given.
pub open spec fn tracks_or_default(o: Option<Seq<CellSize>>) -> Seq<CellSize> {
    match o {
        Some(t) => t,
        None => seq![CellSize::Auto],
    }
}

/// `l` is what `b` builds: its viewport, and its tracks or the default ones.
pub open spec fn builds(b: LayoutBuilder, l: Layout) -> bool {
    &&& b.spec_viewport() == Some(l.viewport)
    &&& l.columns@ == tracks_or_default(b.spec_columns())
    &&& l.rows@ == tracks_or_default(b.spec_rows())
}

/// The point `(xn / xd, yn / yd)` lies in `cell`, its left and top edges
/// included, its right and bottom edges excluded.
pub open spec fn cell_contains(
    cell: (Fraction, Fraction, Fraction, Fraction),
    xn: int,
    xd: int,
    yn: int,
    yd: int,
) -> bool {
    &&& cell.0.num * xd <= xn * cell.0.den
    &&& xn * cell.2.den < cell.2.num * xd
    &&& cell.1.num * yd <= yn * cell.1.den
    &&& yn * cell.3.den < cell.3.num * yd
}

/// An axis whose tracks add up to its whole length: it has an automatic
/// track, or its percentages add up to 100.
pub open spec fn fills_axis(t: Seq<CellSize>) -> bool {
    auto_count(t) > 0 || percent_total(t) == 100
}

/// In the grid of `l`, all the cells of one row share their top and bottom
/// edges, and all the cells of one column share their left and right edges.
pub proof fn lemma_row_major(l: Layout, cells: Seq<(Fraction, Fraction, Fraction, Fraction)>)
    requires
        is_grid_of(l, cells),
    ensures
        cells.len() == l.rows.len() * l.columns.len(),
        forall|r: int, c1: int, c2: int|
            0 <= r < l.rows.len() && 0 <= c1 < l.columns.len() && 0 <= c2 < l.columns.len() ==> {
                &&& (#[trigger] cells[grid_index(l.columns.len() as int, r, c1)]).1
                    == (#[trigger] cells[grid_index(l.columns.len() as int, r, c2)]).1
                &&& cells[grid_index(l.columns.len() as int, r, c1)].3 == cells[grid_index(
                    l.columns.len() as int,
                    r,
                    c2,
                )].3
            },
        forall|r1: int, r2: int, c: int|
            0 <= r1 < l.rows.len() && 0 <= r2 < l.rows.len() && 0 <= c < l.columns.len() ==> {
                &&& (#[trigger] cells[grid_index(l.columns.len() as int, r1, c)]).0
                    == (#[trigger] cells[grid_index(l.columns.len() as int, r2, c)]).0
                &&& cells[grid_index(l.columns.len() as int, r1, c)].2 == cells[grid_index(
                    l.columns.len() as int,
                    r2,
                    c,
                )].2
            },
{
}

/// With only a viewport `(w, h)` set, the grid is a single cell that covers
/// the whole viewport.
pub proof fn lemma_default_tracks(
    b: LayoutBuilder,
    l: Layout,
    cells: Seq<(Fraction, Fraction, Fraction, Fraction)>,
)
    requires
        b.spec_columns() is None,
        b.spec_rows() is None,
        builds(b, l),
        is_grid_of(l, cells),
    ensures
        cells.len() == 1,
        cells[0].0.num == 0 && cells[0].1.num == 0,
        cells[0].2.den > 0 && cells[0].2.num == l.viewport.0 * cells[0].2.den,
        cells[0].3.den > 0 && cells[0].3.num == l.viewport.1 * cells[0].3.den,
{
    let w = l.viewport.0 as int;
    let h = l.viewport.1 as int;
    assert(l.columns@ == seq![CellSize::Auto]);
    assert(l.rows@ == seq![CellSize::Auto]);
    assert(auto_count(l.columns@) == 1) by {
        assert(l.columns@.drop_last().len() == 0);
        assert(auto_count(l.columns@.drop_last()) == 0);
        assert(l.columns@.last() == CellSize::Auto);
    }
    assert(auto_count(l.rows@) == 1) by {
        assert(l.rows@.drop_last().len() == 0);
        assert(auto_count(l.rows@.drop_last()) == 0);
        assert(l.rows@.last() == CellSize::Auto);
    }
    assert(l.columns.len() == 1 && l.rows.len() == 1);
    assert(cells.len() == 1 * 1);
    lemma_full_coverage(l.columns@, w);
    lemma_full_coverage(l.rows@, h);
    assert(track_start(l.columns@, w, 0) == 0);
    assert(track_start(l.rows@, h, 0) == 0);
    assert(cell_is(cells[grid_index(1, 0, 0)], l, 0, 0));
}

/// With no negative track, and with both axes filled, every point of the
/// viewport lies in exactly one cell of the grid.
pub proof fn lemma_tiling(
    l: Layout,
    cells: Seq<(Fraction, Fraction, Fraction, Fraction)>,
    xn: int,
    xd: int,
    yn: int,
    yd: int,
)
    requires
        is_grid_of(l, cells),
        sizes_nonneg(l.columns@, l.viewport.0 as int),
        sizes_nonneg(l.rows@, l.viewport.1 as int),
        fills_axis(l.columns@),
        fills_axis(l.rows@),
        xd > 0 && 0 <= xn < l.viewport.0 * xd,
        yd > 0 && 0 <= yn < l.viewport.1 * yd,
    ensures
        exists|i: int| 0 <= i < cells.len() && cell_contains(#[trigger] cells[i], xn, xd, yn, yd),
        forall|i: int, j: int|
            0 <= i < cells.len() && 0 <= j < cells.len() && cell_contains(#[trigger] cells[i], xn, xd, yn, yd)
                && cell_contains(#[trigger] cells[j], xn, xd, yn, yd) ==> i == j,
{
    let ct = l.columns@;
    let rt = l.rows@;
    let w = l.viewport.0 as int;
    let h = l.viewport.1 as int;
    let dx = axis_denominator(ct);
    let dy = axis_denominator(rt);
    let n_cols = ct.len() as int;
    let n_rows = rt.len() as int;
    lemma_full_coverage(ct, w);
    lemma_full_coverage(rt, h);
    assert(xn * dx < track_start(ct, w, n_cols) * xd) by (nonlinear_arith)
        requires
            xn < w * xd,
            dx > 0,
            track_start(ct, w, n_cols) == w * dx,
    ;
    assert(yn * dy < track_start(rt, h, n_rows) * yd) by (nonlinear_arith)
        requires
            yn < h * yd,
            dy > 0,
            track_start(rt, h, n_rows) == h * dy,
    ;
    assert(0 <= xn * dx) by (nonlinear_arith)
        requires
            0 <= xn,
            dx > 0,
    ;
    assert(0 <= yn * dy) by (nonlinear_arith)
        requires
            0 <= yn,
            dy > 0,
    ;
    lemma_locate(ct, w, xn * dx, xd, n_cols);
    lemma_locate(rt, h, yn * dy, yd, n_rows);
    let c = choose|c: int|
        0 <= c < n_cols && track_start(ct, w, c) * xd <= xn * dx < #[trigger] track_start(ct, w, c + 1) * xd;
    let r = choose|r: int|
        0 <= r < n_rows && track_start(rt, h, r) * yd <= yn * dy < #[trigger] track_start(rt, h, r + 1) * yd;
    let k = grid_index(n_cols, r, c);
    assert(0 <= k < n_rows * n_cols) by (nonlinear_arith)
        requires
            k == r * n_cols + c,
            0 <= r < n_rows,
            0 <= c < n_cols,
    ;
    assert(cell_is(cells[k], l, r, c));
    assert(cell_contains(cells[k], xn, xd, yn, yd));
    assert forall|i: int, j: int|
        0 <= i < cells.len() && 0 <= j < cells.len() && cell_contains(#[trigger] cells[i], xn, xd, yn, yd)
            && cell_contains(#[trigger] cells[j], xn, xd, yn, yd) implies i == j by {
        lemma_cell_position(l, cells, xn, xd, yn, yd, i, r, c);
        lemma_cell_position(l, cells, xn, xd, yn, yd, j, r, c);
    }
}

/// A cell of the grid that holds the point is the cell at row `r` and column
/// `c`, wherever those hold the point too.
proof fn lemma_cell_position(
    l: Layout,
    cells: Seq<(Fraction, Fraction, Fraction, Fraction)>,
    xn: int,
    xd: int,
    yn: int,
    yd: int,
    i: int,
    r: int,
    c: int,
)
    requires
        is_grid_of(l, cells),
        sizes_nonneg(l.columns@, l.viewport.0 as int),
        sizes_nonneg(l.rows@, l.viewport.1 as int),
        xd > 0,
        yd > 0,
        0 <= i < cells.len(),
        cell_contains(cells[i], xn, xd, yn, yd),
        0 <= r < l.rows.len(),
        0 <= c < l.columns.len(),
        track_start(l.columns@, l.viewport.0 as int, c) * xd <= xn * axis_denominator(l.columns@)
            < track_start(l.columns@, l.viewport.0 as int, c + 1) * xd,
        track_start(l.rows@, l.viewport.1 as int, r) * yd <= yn * axis_denominator(l.rows@)
            < track_start(l.rows@, l.viewport.1 as int, r + 1) * yd,
    ensures
        i == grid_index(l.columns.len() as int, r, c),
{
    let n_cols = l.columns.len() as int;
    let n_rows = l.rows.len() as int;
    assert(n_cols > 0) by (nonlinear_arith)
        requires
            0 <= i < n_rows * n_cols,
            n_rows >= 0,
            n_cols >= 0,
    ;
    vstd::arithmetic::div_mod::lemma_fundamental_div_mod(i, n_cols);
    vstd::arithmetic::div_mod::lemma_mod_bound(i, n_cols);
    let q = i / n_cols;
    let m = i % n_cols;
    assert(0 <= q < n_rows) by (nonlinear_arith)
        requires
            i == n_cols * q + m,
            0 <= m < n_cols,
            0 <= i < n_rows * n_cols,
    ;
    assert(grid_index(n_cols, q, m) == i);
    assert(cell_is(cells[grid_index(n_cols, q, m)], l, q, m));
    lemma_unique_slot(l.columns@, l.viewport.0 as int, xn * axis_denominator(l.columns@), xd, m, c);
    lemma_unique_slot(l.rows@, l.viewport.1 as int, yn * axis_denominator(l.rows@), yd, q, r);
}

fn copy_tracks(t: &[CellSize]) -> (r: Vec<CellSize>)
    ensures
        r@ == t@,
{
    let mut r: Vec<CellSize> = Vec::new();
    let mut i: usize = 0;
    while i < t.len()
        invariant
            i <= t.len(),
            r@ == t@.take(i as int),
        decreases t.len() - i,
    {
        r.push(t[i]);
        i += 1;
        proof {
            assert(r@ =~= t@.take(i as int));
        }
    }
    proof {
        assert(t@.take(t.len() as int) =~= t@);
    }
    r
}

impl Layout {
    /// A builder with nothing set.
    pub fn new() -> (b: LayoutBuilder)
        ensures
            b.spec_columns() is None,
            b.spec_rows() is None,
            b.spec_viewport() is None,
    {
        LayoutBuilder { columns: None, rows: None, viewport: None }
    }

    /// The cell rectangles `(x1, y1, x2, y2)`, one per row and column, row by
    /// row from the top and, within a row, column by column from the left.
    pub fn get_grid(&self) -> (res: Vec<(Fraction, Fraction, Fraction, Fraction)>)
        requires
            self.columns.len() <= MAX_TRACKS,
            self.rows.len() <= MAX_TRACKS,
        ensures
            is_grid_of(*self, res@),
    {
        let ghost w = self.viewport.0 as int;
        let ghost h = self.viewport.1 as int;
        let ghost ct = self.columns@;
        let ghost rt = self.rows@;
        let column_tracks = resolve_tracks(self.columns.as_slice(), self.viewport.0);
        let row_tracks = resolve_tracks(self.rows.as_slice(), self.viewport.1);
        let n_cols = column_tracks.len();
        let n_rows = row_tracks.len();
        let mut res: Vec<(Fraction, Fraction, Fraction, Fraction)> = Vec::new();
        let mut row_pos: i128 = 0;
        let mut ri: usize = 0;
        while ri < n_rows
            invariant
                n_cols == column_tracks.len() == ct.len() <= MAX_TRACKS,
                n_rows == row_tracks.len() == rt.len() <= MAX_TRACKS,
                ct == self.columns@,
                rt == self.rows@,
                w == self.viewport.0 as int,
                h == self.viewport.1 as int,
                forall|j: int|
                    0 <= j < n_cols ==> frac_is(
                        #[trigger] column_tracks@[j],
                        base_size_num(ct, w, j),
                        axis_denominator(ct),
                    ),
                forall|j: int|
                    0 <= j < n_rows ==> frac_is(
                        #[trigger] row_tracks@[j],
                        base_size_num(rt, h, j),
                        axis_denominator(rt),
                    ),
                ri <= n_rows,
                row_pos == track_start(rt, h, ri as int),
                res.len() == ri * n_cols,
                forall|r: int, c: int|
                    0 <= r < ri && 0 <= c < n_cols ==> cell_is(
                        #[trigger] res@[grid_index(n_cols as int, r, c)],
                        *self,
                        r,
                        c,
                    ),
            decreases n_rows - ri,
        {
            let row = row_tracks[ri];
            proof {
                lemma_track_start_bounded(rt, h, ri as int);
                lemma_base_size_bounded(rt, h, ri as int);
            }
            let mut col_pos: i128 = 0;
            let mut ci: usize = 0;
            while ci < n_cols
                invariant
                    n_cols == column_tracks.len() == ct.len() <= MAX_TRACKS,
                    n_rows == rt.len() <= MAX_TRACKS,
                    ct == self.columns@,
                    rt == self.rows@,
                    w == self.viewport.0 as int,
                    h == self.viewport.1 as int,
                    forall|j: int|
                        0 <= j < n_cols ==> frac_is(
                            #[trigger] column_tracks@[j],
                            base_size_num(ct, w, j),
                            axis_denominator(ct),
                        ),
                    frac_is(row, base_size_num(rt, h, ri as int), axis_denominator(rt)),
                    ri < n_rows,
                    row_pos == track_start(rt, h, ri as int),
                    row_pos + row.num == track_start(rt, h, ri as int + 1),
                    ci <= n_cols,
                    col_pos == track_start(ct, w, ci as int),
                    res.len() == ri * n_cols + ci,
                    forall|r: int, c: int|
                        0 <= r < ri && 0 <= c < n_cols ==> cell_is(
                            #[trigger] res@[grid_index(n_cols as int, r, c)],
                            *self,
                            r,
                            c,
                        ),
                    forall|c: int|
                        0 <= c < ci ==> cell_is(
                            #[trigger] res@[grid_index(n_cols as int, ri as int, c)],
                            *self,
                            ri as int,
                            c,
                        ),
                decreases n_cols - ci,
            {
                let col = column_tracks[ci];
                proof {
                    lemma_track_start_bounded(ct, w, ci as int);
                    lemma_base_size_bounded(ct, w, ci as int);
                    lemma_track_start_bounded(rt, h, ri as int + 1);
                }
                let cell = (
                    Fraction { num: col_pos, den: col.den },
                    Fraction { num: row_pos, den: row.den },
                    Fraction { num: col_pos + col.num, den: col.den },
                    Fraction { num: row_pos + row.num, den: row.den },
                );
                let ghost before = res@;
                res.push(cell);
                proof {
                    assert(grid_index(n_cols as int, ri as int, ci as int) == ri * n_cols + ci);
                    assert forall|r: int, c: int|
                        0 <= r < ri && 0 <= c < n_cols implies cell_is(
                            #[trigger] res@[grid_index(n_cols as int, r, c)],
                            *self,
                            r,
                            c,
                        ) by {
                        assert(grid_index(n_cols as int, r, c) < ri * n_cols) by (nonlinear_arith)
                            requires
                                0 <= r < ri,
                                0 <= c < n_cols,
                        ;
                        assert(res@[grid_index(n_cols as int, r, c)] == before[grid_index(n_cols as int, r, c)]);
                    }
                    assert forall|c: int|
                        0 <= c <= ci implies cell_is(
                            #[trigger] res@[grid_index(n_cols as int, ri as int, c)],
                            *self,
                            ri as int,
                            c,
                        ) by {
                        if c < ci {
                            assert(res@[grid_index(n_cols as int, ri as int, c)] == before[grid_index(n_cols as int, ri as int, c)]);
                        }
                    }
                }
                col_pos = col_pos + col.num;
                ci += 1;
            }
            proof {
                assert((ri + 1) * n_cols == ri * n_cols + n_cols) by (nonlinear_arith);
            }
            row_pos = row_pos + row.num;
            ri += 1;
        }
        res
    }
}

impl LayoutBuilder {
    /// The column tracks set so far, if any.
    pub closed spec fn spec_columns(&self) -> Option<Seq<CellSize>> {
        match self.columns {
            Some(v) => Some(v@),
            None => None,
        }
    }

    /// The row tracks set so far, if any.
    pub closed spec fn spec_rows(&self) -> Option<Seq<CellSize>> {
        match self.rows {
            Some(v) => Some(v@),
            None => None,
        }
    }

    /// The viewport set so far, if any.
    pub closed spec fn spec_viewport(&self) -> Option<(u32, u32)> {
        self.viewport
    }

    /// Sets the column tracks, replacing any set before.
    pub fn with_columns(self, cols: &[CellSize]) -> (b: Self)
        ensures
            b.spec_columns() == Some(cols@),
            b.spec_rows() == self.spec_rows(),
            b.spec_viewport() == self.spec_viewport(),
    {
        LayoutBuilder { columns: Some(copy_tracks(cols)), rows: self.rows, viewport: self.viewport }
    }

    /// Sets the row tracks, replacing any set before.
    pub fn with_rows(self, rows: &[CellSize]) -> (b: Self)
        ensures
            b.spec_columns() == self.spec_columns(),
            b.spec_rows() == Some(rows@),
            b.spec_viewport() == self.spec_viewport(),
    {
        LayoutBuilder { columns: self.columns, rows: Some(copy_tracks(rows)), viewport: self.viewport }
    }

    /// Sets the viewport, replacing any set before.
    pub fn with_viewport(self, width: u32, height: u32) -> (b: Self)
        ensures
            b.spec_columns() == self.spec_columns(),
            b.spec_rows() == self.spec_rows(),
            b.spec_viewport() == Some((width, height)),
    {
        LayoutBuilder { columns: self.columns, rows: self.rows, viewport: Some((width, height)) }
    }

    /// The layout defined so far. Fails when no viewport was set; tracks
    /// that were not set default to a single automatic track.
    pub fn build(&self) -> (r: Result<Layout, &'static str>)
        ensures
            r is Err <==> self.spec_viewport() is None,
            r matches Ok(l) ==> builds(*self, l),
            r matches Err(e) ==> e@ == "ViewPort size not defined."@,
    {
        let viewport = match self.viewport {
            Some(v) => v,
            None => {
                return Err("ViewPort size not defined.");
            },
        };
        let columns = match &self.columns {
            Some(cols) => copy_tracks(cols.as_slice()),
            None => vec![CellSize::Auto],
        };
        let rows = match &self.rows {
            Some(rows) => copy_tracks(rows.as_slice()),
            None => vec![CellSize::Auto],
        };
        proof {
            assert(columns@ =~= tracks_or_default(self.spec_columns()));
            assert(rows@ =~= tracks_or_default(self.spec_rows()));
        }
        Ok(Layout { columns, rows, viewport })
    }
}

} // verus!
