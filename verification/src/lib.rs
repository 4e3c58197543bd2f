//! Render tabular data as box-drawn text for a fixed-width terminal.
//!
//! A [`Table`] owns [`Row`]s of [`Cell`]s.  Each cell carries its content, a
//! column span, an alignment and a padding flag.  Rendering wraps cell text
//! to the available width along Unicode line-break opportunities, solves one
//! width per column across rows whose spans differ, and joins the borders of
//! vertically adjacent cells with the correct junction glyph.

use vstd::prelude::*;

mod cell;
mod row;
mod segment;
mod solver;
mod style;
pub mod table_cell;
mod text;
mod width;

pub use crate::cell::{Alignment, Cell};
pub use crate::row::{Join, Row};
pub use crate::style::TableStyle;
pub use crate::table_cell::{string_width, TableCell};

use crate::cell::spec_width_opt;
use crate::segment::brks_wf;
use crate::row::{
    bottom_border_spec, content_lines_spec, row_cols, row_line_count, row_renderable,
    separator_spec, top_border_spec,
};
use crate::solver::{even_cols, fit_row_cols, ColumnWidths};

verus! {

/// Represents the vertical position of a row.
#[derive(Eq, PartialEq, Copy, Clone, Structural)]
pub enum RowPosition {
    First,
    Mid,
    Last,
}

/// Why a table could not be rendered.
#[derive(Debug, Eq, PartialEq, Copy, Clone, Structural)]
pub enum RenderError {
    /// A fixed total width smaller than the space its borders need.
    NoBorderSpace,
    /// Some cell's assigned width cannot hold its (padded) content.
    TooNarrow,
}

/// The greatest column count among the rows `k ..`.
pub open spec fn max_cols_from(rows: Seq<Row>, k: int) -> int
    decreases rows.len() - k,
{
    if k < 0 || k >= rows.len() {
        0
    } else {
        let c = row_cols(rows[k].spec_cells());
        let rest = max_cols_from(rows, k + 1);
        if c >= rest {
            c
        } else {
            rest
        }
    }
}

/// The number of grid columns of the table: the greatest column count among
/// its rows.
pub open spec fn table_cols(rows: Seq<Row>) -> int {
    max_cols_from(rows, 0)
}

pub proof fn lemma_max_cols_nonneg(rows: Seq<Row>, k: int)
    ensures
        max_cols_from(rows, k) >= 0,
    decreases rows.len() - k,
{
    if 0 <= k < rows.len() {
        lemma_max_cols_nonneg(rows, k + 1);
        crate::row::lemma_pre_cols_mono(rows[k].spec_cells(), 0, rows[k].spec_cells().len() as int);
    }
}

/// The column solution of the unconstrained mode: each row's single-line
/// requirements applied in turn.
pub open spec fn fit_rows_all(rows: Seq<Row>, cols: Seq<usize>, k: int, bw: int) -> Seq<usize>
    decreases rows.len() - k,
{
    if k < 0 || k >= rows.len() {
        cols
    } else {
        fit_rows_all(rows, fit_row_cols(rows[k].spec_cells(), cols, 0, 0, bw), k + 1, bw)
    }
}

/// The column widths the table renders with: an even split of a fixed total
/// width, or the expansion to fit every cell's single-line minimum.
pub open spec fn solved_cols(rows: Seq<Row>, style: TableStyle, width: Option<int>) -> Seq<usize> {
    let cols = table_cols(rows);
    let bw = style.spec_border_width() as int;
    let zero = Seq::new(cols as nat, |i: int| 0usize);
    match width {
        Option::Some(total) => if cols >= 1 {
            even_cols(total, cols, bw)
        } else {
            zero
        },
        Option::None => fit_rows_all(rows, zero, 0, bw),
    }
}

/// A fixed total width leaves room for all the vertical borders.
pub open spec fn width_ok(rows: Seq<Row>, style: TableStyle, width: Option<int>) -> bool {
    match width {
        Option::Some(total) => table_cols(rows) >= 1 ==> total >= (style.spec_border_width() as int)
            * (table_cols(rows) + 1),
        Option::None => true,
    }
}

/// Every row from `k` on can be rendered against the solved column widths.
pub open spec fn rows_renderable(rows: Seq<Row>, cws: Seq<usize>, bw: int, k: int) -> bool
    decreases rows.len() - k,
{
    if k < 0 || k >= rows.len() {
        true
    } else {
        row_renderable(rows[k].spec_cells(), cws, bw) && rows_renderable(rows, cws, bw, k + 1)
    }
}

/// The table can be rendered at the given width.
pub open spec fn table_renderable(rows: Seq<Row>, style: TableStyle, width: Option<int>) -> bool {
    rows.len() == 0 || (width_ok(rows, style, width) && rows_renderable(
        rows,
        solved_cols(rows, style, width),
        style.spec_border_width() as int,
        0,
    ))
}

/// The sentinel line an empty table renders as.
pub open spec fn empty_marker() -> Seq<char> {
    seq!['<', 'e', 'm', 'p', 't', 'y', ' ', 't', 'a', 'b', 'l', 'e', '>', '\n']
}

/// The separators and content of the rows `i ..`, each against its previous
/// row.
pub open spec fn rows_tail_spec(
    rows: Seq<Row>,
    cws: Seq<usize>,
    style: TableStyle,
    sep_rows: bool,
    i: int,
) -> Seq<char>
    decreases rows.len() - i,
{
    if i < 1 || i >= rows.len() {
        Seq::<char>::empty()
    } else {
        (if sep_rows {
            separator_spec(
                rows[i - 1].spec_cells(),
                rows[i].spec_cells(),
                rows[i].spec_has_separator(),
                cws,
                style,
            )
        } else {
            Seq::<char>::empty()
        }) + content_lines_spec(
            rows[i].spec_cells(),
            cws,
            style,
            0,
            row_line_count(rows[i].spec_cells(), cws, 0, 0, style.spec_border_width() as int),
        ) + rows_tail_spec(rows, cws, style, sep_rows, i + 1)
    }
}

/// The full rendering of a table: the sentinel for an empty table, otherwise
/// an optional top border, each row's content with optional separators, and
/// an optional bottom border.
pub open spec fn render_spec(
    rows: Seq<Row>,
    style: TableStyle,
    sep_rows: bool,
    top: bool,
    bottom: bool,
    width: Option<int>,
) -> Seq<char> {
    if rows.len() == 0 {
        empty_marker()
    } else {
        let cws = solved_cols(rows, style, width);
        let bw = style.spec_border_width() as int;
        (if top {
            top_border_spec(rows[0].spec_cells(), rows[0].spec_has_separator(), cws, style)
        } else {
            Seq::<char>::empty()
        }) + content_lines_spec(
            rows[0].spec_cells(),
            cws,
            style,
            0,
            row_line_count(rows[0].spec_cells(), cws, 0, 0, bw),
        ) + rows_tail_spec(rows, cws, style, sep_rows, 1) + (if bottom {
            bottom_border_spec(
                rows[rows.len() - 1].spec_cells(),
                rows[rows.len() - 1].spec_has_separator(),
                cws,
                style,
            )
        } else {
            Seq::<char>::empty()
        })
    }
}

/// A set of rows containing data.
#[derive(Debug, Clone)]
pub struct Table {
    rows: Vec<Row>,
    style: TableStyle,
    has_separate_rows: bool,
    has_top_border: bool,
    has_bottom_border: bool,
}

impl Table {
    pub closed spec fn spec_rows(&self) -> Seq<Row> {
        self.rows@
    }

    pub closed spec fn spec_style(&self) -> TableStyle {
        self.style
    }

    pub closed spec fn spec_separate_rows(&self) -> bool {
        self.has_separate_rows
    }

    pub closed spec fn spec_top_border(&self) -> bool {
        self.has_top_border
    }

    pub closed spec fn spec_bottom_border(&self) -> bool {
        self.has_bottom_border
    }

    /// Every row of the table is well formed.
    pub open spec fn wf(&self) -> bool {
        forall|k: int| 0 <= k < self.spec_rows().len() ==> (#[trigger] self.spec_rows()[k]).wf()
    }

    /// An empty table with the extended style, separate rows, and both
    /// borders.
    pub fn new() -> (t: Table)
        ensures
            t.wf(),
            t.spec_rows().len() == 0,
            t.spec_style() == TableStyle::spec_extended(),
            t.spec_separate_rows() == true,
            t.spec_top_border() == true,
            t.spec_bottom_border() == true,
    {
        Table {
            rows: Vec::new(),
            style: TableStyle::extended(),
            has_separate_rows: true,
            has_top_border: true,
            has_bottom_border: true,
        }
    }

    /// A table of the given rows, with the default style and flags.
    pub fn from_rows(rows: Vec<Row>) -> (t: Table)
        requires
            forall|k: int| 0 <= k < rows@.len() ==> (#[trigger] rows@[k]).wf(),
        ensures
            t.wf(),
            t.spec_rows() == rows@,
            t.spec_style() == TableStyle::spec_extended(),
            t.spec_separate_rows() == true,
            t.spec_top_border() == true,
            t.spec_bottom_border() == true,
    {
        Table {
            rows,
            style: TableStyle::extended(),
            has_separate_rows: true,
            has_top_border: true,
            has_bottom_border: true,
        }
    }

    /// Add a row.
    pub fn with_row(self, row: Row) -> (t: Table)
        requires
            self.wf(),
            row.wf(),
        ensures
            t.wf(),
            t.spec_rows() == self.spec_rows().push(row),
            t.spec_style() == self.spec_style(),
            t.spec_separate_rows() == self.spec_separate_rows(),
            t.spec_top_border() == self.spec_top_border(),
            t.spec_bottom_border() == self.spec_bottom_border(),
    {
        let mut this = self;
        this.add_row(row);
        this
    }

    /// Add a row.
    pub fn add_row(&mut self, row: Row)
        requires
            old(self).wf(),
            row.wf(),
        ensures
            final(self).wf(),
            final(self).spec_rows() == old(self).spec_rows().push(row),
            final(self).spec_style() == old(self).spec_style(),
            final(self).spec_separate_rows() == old(self).spec_separate_rows(),
            final(self).spec_top_border() == old(self).spec_top_border(),
            final(self).spec_bottom_border() == old(self).spec_bottom_border(),
    {
        self.rows.push(row);
        proof {
            assert forall|k: int|
                0 <= k < self.spec_rows().len() implies (#[trigger] self.spec_rows()[k]).wf() by {
                if k < old(self).spec_rows().len() {
                    assert(old(self).spec_rows()[k].wf());
                } else {
                    assert(self.spec_rows()[k] == row);
                }
            }
        }
    }

    pub fn with_style(self, style: TableStyle) -> (t: Table)
        requires
            self.wf(),
        ensures
            t.wf(),
            t.spec_rows() == self.spec_rows(),
            t.spec_style() == style,
            t.spec_separate_rows() == self.spec_separate_rows(),
            t.spec_top_border() == self.spec_top_border(),
            t.spec_bottom_border() == self.spec_bottom_border(),
    {
        let mut this = self;
        this.set_style(style);
        this
    }

    pub fn set_style(&mut self, style: TableStyle)
        requires
            old(self).wf(),
        ensures
            final(self).wf(),
            final(self).spec_rows() == old(self).spec_rows(),
            final(self).spec_style() == style,
            final(self).spec_separate_rows() == old(self).spec_separate_rows(),
            final(self).spec_top_border() == old(self).spec_top_border(),
            final(self).spec_bottom_border() == old(self).spec_bottom_border(),
    {
        self.style = style;
        proof {
            assert(self.spec_rows() == old(self).spec_rows());
            assert forall|k: int|
                0 <= k < self.spec_rows().len() implies (#[trigger] self.spec_rows()[k]).wf() by {
                assert(old(self).spec_rows()[k].wf());
            }
        }
    }

    pub fn has_separate_rows(&self) -> (r: bool)
        ensures
            r == self.spec_separate_rows(),
    {
        self.has_separate_rows
    }

    pub fn with_separate_rows(self, has_separate_rows: bool) -> (t: Table)
        requires
            self.wf(),
        ensures
            t.wf(),
            t.spec_rows() == self.spec_rows(),
            t.spec_style() == self.spec_style(),
            t.spec_separate_rows() == has_separate_rows,
            t.spec_top_border() == self.spec_top_border(),
            t.spec_bottom_border() == self.spec_bottom_border(),
    {
        let mut this = self;
        this.set_separate_rows(has_separate_rows);
        this
    }

    pub fn set_separate_rows(&mut self, has_separate_rows: bool)
        requires
            old(self).wf(),
        ensures
            final(self).wf(),
            final(self).spec_rows() == old(self).spec_rows(),
            final(self).spec_style() == old(self).spec_style(),
            final(self).spec_separate_rows() == has_separate_rows,
            final(self).spec_top_border() == old(self).spec_top_border(),
            final(self).spec_bottom_border() == old(self).spec_bottom_border(),
    {
        self.has_separate_rows = has_separate_rows;
        proof {
            assert(self.spec_rows() == old(self).spec_rows());
            assert forall|k: int|
                0 <= k < self.spec_rows().len() implies (#[trigger] self.spec_rows()[k]).wf() by {
                assert(old(self).spec_rows()[k].wf());
            }
        }
    }

    /// Whether the table draws a border above its first row.
    pub fn set_top_border(&mut self, has_top_border: bool)
        requires
            old(self).wf(),
        ensures
            final(self).wf(),
            final(self).spec_rows() == old(self).spec_rows(),
            final(self).spec_style() == old(self).spec_style(),
            final(self).spec_separate_rows() == old(self).spec_separate_rows(),
            final(self).spec_top_border() == has_top_border,
            final(self).spec_bottom_border() == old(self).spec_bottom_border(),
    {
        self.has_top_border = has_top_border;
        proof {
            assert(self.spec_rows() == old(self).spec_rows());
            assert forall|k: int|
                0 <= k < self.spec_rows().len() implies (#[trigger] self.spec_rows()[k]).wf() by {
                assert(old(self).spec_rows()[k].wf());
            }
        }
    }

    /// Whether the table draws a border below its last row.
    pub fn set_bottom_border(&mut self, has_bottom_border: bool)
        requires
            old(self).wf(),
        ensures
            final(self).wf(),
            final(self).spec_rows() == old(self).spec_rows(),
            final(self).spec_style() == old(self).spec_style(),
            final(self).spec_separate_rows() == old(self).spec_separate_rows(),
            final(self).spec_top_border() == old(self).spec_top_border(),
            final(self).spec_bottom_border() == has_bottom_border,
    {
        self.has_bottom_border = has_bottom_border;
        proof {
            assert(self.spec_rows() == old(self).spec_rows());
            assert forall|k: int|
                0 <= k < self.spec_rows().len() implies (#[trigger] self.spec_rows()[k]).wf() by {
                assert(old(self).spec_rows()[k].wf());
            }
        }
    }

    /// Render the table at the given viewport width (`None`: unbounded).
    ///
    /// Fails exactly when a fixed width cannot hold the borders, or some
    /// cell's assigned width cannot hold its content.
    pub fn render(&self, view_width: Option<usize>) -> (r: Result<String, RenderError>)
        requires
            self.wf(),
        ensures
            (r is Ok) == table_renderable(
                self.spec_rows(),
                self.spec_style(),
                spec_width_opt(view_width),
            ),
            r matches Ok(out) ==> out@ == render_spec(
                self.spec_rows(),
                self.spec_style(),
                self.spec_separate_rows(),
                self.spec_top_border(),
                self.spec_bottom_border(),
                spec_width_opt(view_width),
            ),
            r matches Err(e) ==> (e == RenderError::NoBorderSpace) == !width_ok(
                self.spec_rows(),
                self.spec_style(),
                spec_width_opt(view_width),
            ),
    {
        let ghost rowsv = self.rows@;
        let ghost stylev = self.style;
        let ghost wopt = spec_width_opt(view_width);
        let nrows = self.rows.len();
        if nrows == 0 {
            let out = String::from_str("<empty table>\n");
            proof {
                reveal_strlit("<empty table>\n");
                assert(out@ =~= empty_marker());
            }
            return Result::Ok(out);
        }
        let bw = self.style.border_width();

        // the table's column count
        let mut cols: usize = 0;
        let mut k: usize = 0;
        proof {
            lemma_max_cols_nonneg(rowsv, 0);
        }
        while k < nrows
            invariant
                self.wf(),
                rowsv == self.rows@,
                nrows == rowsv.len(),
                k <= nrows,
                table_cols(rowsv) == (if cols as int >= max_cols_from(rowsv, k as int) {
                    cols as int
                } else {
                    max_cols_from(rowsv, k as int)
                }),
            decreases nrows - k,
        {
            proof {
                assert(self.spec_rows()[k as int].wf());
                assert(rowsv[k as int].wf());
                lemma_max_cols_nonneg(rowsv, k as int + 1);
            }
            let c = self.rows[k].num_columns();
            if c > cols {
                cols = c;
            }
            k = k + 1;
        }
        proof {
            assert(cols as int == table_cols(rowsv));
        }

        // solve the column widths
        let mut cw = ColumnWidths::new();
        cw.reset(cols);
        match view_width {
            Option::Some(total) => {
                if cols >= 1 {
                    proof {
                        assert((bw as int) * ((cols as int) + 1) <= 3 * ((cols as int) + 1))
                            by (nonlinear_arith)
                            requires
                                bw <= 3,
                                cols >= 1,
                        ;
                    }
                    let needed: u128 = (bw as u128) * ((cols as u128) + 1);
                    if (total as u128) < needed {
                        proof {
                            assert(!width_ok(rowsv, stylev, wopt));
                        }
                        return Result::Err(RenderError::NoBorderSpace);
                    }
                    cw.fit_even_rows(total, cols, bw);
                }
            },
            Option::None => {
                let mut k: usize = 0;
                while k < nrows
                    invariant
                        self.wf(),
                        rowsv == self.rows@,
                        nrows == rowsv.len(),
                        k <= nrows,
                        bw == stylev.spec_border_width(),
                        bw <= 3,
                        cols as int == table_cols(rowsv),
                        cw.view().len() == cols,
                        fit_rows_all(rowsv, Seq::new(cols as nat, |i: int| 0usize), 0, bw as int)
                            == fit_rows_all(rowsv, cw.view(), k as int, bw as int),
                    decreases nrows - k,
                {
                    proof {
                        assert(self.spec_rows()[k as int].wf());
                        assert(rowsv[k as int].wf());
                        lemma_row_cols_le_table(rowsv, k as int);
                        lemma_fit_row_len(rowsv[k as int].spec_cells(), cw.view(), 0, 0, bw as int);
                    }
                    cw.fit_row_singleline(&self.rows[k], bw);
                    k = k + 1;
                }
            },
        }
        let ghost cwsv = cw.view();
        proof {
            assert(cwsv == solved_cols(rowsv, stylev, wopt));
            assert(width_ok(rowsv, stylev, wopt));
        }

        // every row must fit
        let mut k: usize = 0;
        while k < nrows
            invariant
                self.wf(),
                rowsv == self.rows@,
                nrows == rowsv.len(),
                k <= nrows,
                bw == stylev.spec_border_width(),
                bw <= 3,
                stylev == self.spec_style(),
                wopt == spec_width_opt(view_width),
                cwsv == cw.view(),
                cwsv == solved_cols(rowsv, stylev, wopt),
                width_ok(rowsv, stylev, wopt),
                rows_renderable(rowsv, cwsv, bw as int, 0) == rows_renderable(
                    rowsv,
                    cwsv,
                    bw as int,
                    k as int,
                ),
            decreases nrows - k,
        {
            proof {
                assert(self.spec_rows()[k as int].wf());
                assert(rowsv[k as int].wf());
            }
            if !self.rows[k].check_renderable(cw.widths_vec(), bw) {
                proof {
                    assert(!rows_renderable(rowsv, cwsv, bw as int, k as int));
                }
                return Result::Err(RenderError::TooNarrow);
            }
            k = k + 1;
        }
        proof {
            assert(rows_renderable(rowsv, cwsv, bw as int, 0));
            assert(table_renderable(rowsv, stylev, wopt));
        }

        // emit
        proof {
            assert(self.spec_rows()[0].wf());
            assert(rowsv[0].wf());
        }
        let mut out = String::new();
        if self.has_top_border {
            proof {
                lemma_rows_renderable_at(rowsv, cwsv, bw as int, 0, 0);
            }
            let border = self.rows[0].render_top_separator(cw.widths_vec(), &self.style);
            out.append(border.as_str());
        }
        proof {
            lemma_rows_renderable_at(rowsv, cwsv, bw as int, 0, 0);
        }
        let lines0 = self.rows[0].layout(cw.widths_vec(), bw);
        let content0 = self.rows[0].render_content(cw.widths_vec(), lines0, &self.style);
        out.append(content0.as_str());
        let ghost head = out@;
        let mut i: usize = 1;
        while i < nrows
            invariant
                self.wf(),
                rowsv == self.rows@,
                nrows == rowsv.len(),
                1 <= i <= nrows,
                bw == stylev.spec_border_width(),
                bw <= 3,
                stylev == self.style,
                cwsv == cw.view(),
                rows_renderable(rowsv, cwsv, bw as int, 0),
                head + rows_tail_spec(rowsv, cwsv, stylev, self.spec_separate_rows(), 1) == out@
                    + rows_tail_spec(rowsv, cwsv, stylev, self.spec_separate_rows(), i as int),
            decreases nrows - i,
        {
            proof {
                assert(self.spec_rows()[i as int].wf());
                assert(self.spec_rows()[i as int - 1].wf());
                assert(rowsv[i as int].wf());
                assert(rowsv[i as int - 1].wf());
                lemma_rows_renderable_at(rowsv, cwsv, bw as int, 0, i as int);
                lemma_rows_renderable_at(rowsv, cwsv, bw as int, 0, i as int - 1);
            }
            if self.has_separate_rows {
                let sep = {
                    let prev = &self.rows[i - 1];
                    self.rows[i].render_separator(prev, cw.widths_vec(), &self.style)
                };
                out.append(sep.as_str());
            }
            let lines = self.rows[i].layout(cw.widths_vec(), bw);
            let content = self.rows[i].render_content(cw.widths_vec(), lines, &self.style);
            out.append(content.as_str());
            proof {
                assert(rows_tail_spec(rowsv, cwsv, stylev, self.spec_separate_rows(), i as int)
                    =~= (if self.spec_separate_rows() {
                    separator_spec(
                        rowsv[i as int - 1].spec_cells(),
                        rowsv[i as int].spec_cells(),
                        rowsv[i as int].spec_has_separator(),
                        cwsv,
                        stylev,
                    )
                } else {
                    Seq::<char>::empty()
                }) + content_lines_spec(
                    rowsv[i as int].spec_cells(),
                    cwsv,
                    stylev,
                    0,
                    row_line_count(rowsv[i as int].spec_cells(), cwsv, 0, 0, bw as int),
                ) + rows_tail_spec(rowsv, cwsv, stylev, self.spec_separate_rows(), i as int + 1));
                assert(head + rows_tail_spec(rowsv, cwsv, stylev, self.spec_separate_rows(), 1)
                    =~= out@ + rows_tail_spec(
                    rowsv,
                    cwsv,
                    stylev,
                    self.spec_separate_rows(),
                    i as int + 1,
                ));
            }
            i = i + 1;
        }
        proof {
            assert(rows_tail_spec(rowsv, cwsv, stylev, self.spec_separate_rows(), nrows as int)
                =~= Seq::<char>::empty());
        }
        if self.has_bottom_border {
            proof {
                assert(self.spec_rows()[nrows as int - 1].wf());
                lemma_rows_renderable_at(rowsv, cwsv, bw as int, 0, nrows as int - 1);
            }
            let border = {
                let last = &self.rows[nrows - 1];
                last.render_bottom_separator(cw.widths_vec(), &self.style)
            };
            out.append(border.as_str());
        }
        proof {
            assert(out@ =~= render_spec(
                rowsv,
                stylev,
                self.spec_separate_rows(),
                self.spec_top_border(),
                self.spec_bottom_border(),
                wopt,
            ));
        }
        Result::Ok(out)
    }

    /// Render the table at a fixed total width.
    pub fn fixed_width(&self, width: usize) -> (r: Result<String, RenderError>)
        requires
            self.wf(),
        ensures
            (r is Ok) == table_renderable(
                self.spec_rows(),
                self.spec_style(),
                Option::Some(width as int),
            ),
            r matches Ok(out) ==> out@ == render_spec(
                self.spec_rows(),
                self.spec_style(),
                self.spec_separate_rows(),
                self.spec_top_border(),
                self.spec_bottom_border(),
                Option::Some(width as int),
            ),
    {
        self.render(Option::Some(width))
    }
}

/// Every row of a renderable run is itself renderable.
pub proof fn lemma_rows_renderable_at(rows: Seq<Row>, cws: Seq<usize>, bw: int, k: int, i: int)
    requires
        rows_renderable(rows, cws, bw, k),
        0 <= k <= i < rows.len(),
    ensures
        row_renderable(rows[i].spec_cells(), cws, bw),
    decreases i - k,
{
    if k < i {
        lemma_rows_renderable_at(rows, cws, bw, k + 1, i);
    }
}

/// A row's column count never exceeds the table's.
pub proof fn lemma_row_cols_le_table(rows: Seq<Row>, i: int)
    requires
        0 <= i < rows.len(),
    ensures
        row_cols(rows[i].spec_cells()) <= table_cols(rows),
{
    lemma_row_cols_le_from(rows, 0, i);
}

pub proof fn lemma_row_cols_le_from(rows: Seq<Row>, k: int, i: int)
    requires
        0 <= k <= i < rows.len(),
    ensures
        row_cols(rows[i].spec_cells()) <= max_cols_from(rows, k),
    decreases i - k,
{
    if k < i {
        lemma_row_cols_le_from(rows, k + 1, i);
    } else {
        lemma_max_cols_nonneg(rows, k + 1);
    }
}

/// The requirement-fitting pass keeps the number of columns.
pub proof fn lemma_fit_row_len(cells: Seq<Cell>, cols: Seq<usize>, idx: int, k: int, bw: int)
    requires
        crate::row::cells_wf(cells),
        0 <= k,
        idx == crate::row::pre_cols(cells, k),
        row_cols(cells) <= cols.len(),
    ensures
        fit_row_cols(cells, cols, idx, k, bw).len() == cols.len(),
    decreases cells.len() - k,
{
    if k < cells.len() {
        let span = cells[k].spec_col_span() as int;
        let need = crate::cell::clamp_usize(
            Cell::spec_min_width(cells[k].spec_content(), cells[k].spec_pad(), true),
        );
        assert(cells[k].wf());
        crate::row::lemma_pre_cols_mono(cells, 0, k);
        crate::row::lemma_pre_cols_mono(cells, k + 1, cells.len() as int);
        assert(crate::row::pre_cols(cells, k + 1) == idx + span);
        let stepped = crate::solver::fit_cell_cols(cols, idx, span, bw, need);
        if span == 1 {
            assert(stepped == cols.update(
                idx,
                (if cols[idx] >= need {
                    cols[idx] as int
                } else {
                    need
                }) as usize,
            ));
        }
        assert(stepped.len() == cols.len());
        lemma_fit_row_len(cells, stepped, idx + span, k + 1, bw);
        assert(fit_row_cols(cells, cols, idx, k, bw) == fit_row_cols(
            cells,
            stepped,
            idx + span,
            k + 1,
            bw,
        ));
    }
}


/// Rendering is a function of the table and the width alone: two renderings
/// of the same table at the same width are identical.
pub proof fn lemma_render_deterministic(t: &Table, width: Option<int>, a: Seq<char>, b: Seq<char>)
    requires
        a == render_spec(
            t.spec_rows(),
            t.spec_style(),
            t.spec_separate_rows(),
            t.spec_top_border(),
            t.spec_bottom_border(),
            width,
        ),
        b == render_spec(
            t.spec_rows(),
            t.spec_style(),
            t.spec_separate_rows(),
            t.spec_top_border(),
            t.spec_bottom_border(),
            width,
        ),
    ensures
        a == b,
{
}

proof fn lemma_max_seg_only_end(w: Seq<usize>, brks: Seq<(usize, bool)>, k: int)
    requires
        brks_wf(brks, w.len() as int),
        0 <= k,
        forall|j: int| 0 <= j < brks.len() ==> ((#[trigger] brks[j]).1 ==> brks[j].0 == w.len()),
    ensures
        crate::segment::max_seg(w, brks, true, 0, k) == crate::width::seg_w(
            w,
            0,
            w.len() as int,
        ),
    decreases brks.len() - k,
{
    let n = w.len() as int;
    if k >= brks.len() {
    } else {
        let p = brks[k].0 as int;
        if (true && !brks[k].1) || p <= 0 {
            lemma_max_seg_only_end(w, brks, k + 1);
        } else {
            // a mandatory entry lies at the end of the text, and it is the
            // last entry of the list
            assert(p == n);
            assert forall|t: int| k < t < brks.len() implies (#[trigger] brks[t]).0 > n by {
                crate::segment::lemma_brks_sorted(brks, n, k, t);
            }
            assert(brks.len() == k + 1);
            assert(crate::segment::max_seg(w, brks, true, p, k + 1) == crate::width::seg_w(
                w,
                n,
                n,
            ));
            crate::width::lemma_seg_w_nonneg(w, 0, n);
        }
    }
}

/// Round trip: a single-row, single-column table whose content needs no
/// wrapping renders, at unconstrained width, as the content flanked by
/// exactly one padding space per side between the style's vertical edges,
/// under the style's four corner glyphs.
#[verifier::rlimit(100)]
#[verifier::spinoff_prover]
pub proof fn lemma_round_trip_single_cell(t: &Table, cell: Cell)
    requires
        t.spec_rows().len() == 1,
        t.spec_rows()[0].spec_cells() =~= seq![cell],
        t.spec_rows()[0].spec_has_separator(),
        t.spec_top_border(),
        t.spec_bottom_border(),
        cell.wf(),
        cell.spec_col_span() == 1,
        cell.spec_pad(),
    ensures
        ({
            let s = cell.spec_content();
            let st = t.spec_style();
            let brks = crate::cell::cell_brks_of(s);
            let tw = crate::width::seg_w(crate::cell::cell_widths_of(s), 0, s.len() as int);
            (crate::segment::brks_wf(brks, s.len() as int) && (forall|j: int|
                0 <= j < brks.len() ==> ((#[trigger] brks[j]).1 ==> brks[j].0 == s.len()))
                && crate::cell::trim_line_end(s, 0, s.len() as int) == s.len() as int && tw + 2
                <= usize::MAX as int) ==> render_spec(
                t.spec_rows(),
                st,
                t.spec_separate_rows(),
                true,
                true,
                Option::None,
            ) == seq![st.top_left_corner] + crate::text::char_run(st.horizontal, tw + 2) + seq![
                st.top_right_corner,
                '\n',
                st.vertical,
                ' ',
            ] + s + seq![' ', st.vertical, '\n', st.bottom_left_corner] + crate::text::char_run(
                st.horizontal,
                tw + 2,
            ) + seq![st.bottom_right_corner, '\n']
        }),
{
    let s = cell.spec_content();
    let st = t.spec_style();
    let brks = crate::cell::cell_brks_of(s);
    let wv = crate::cell::cell_widths_of(s);
    let n = s.len() as int;
    let tw = crate::width::seg_w(wv, 0, n);
    let rows = t.spec_rows();
    let cells = rows[0].spec_cells();
    let bw = st.spec_border_width() as int;
    if crate::segment::brks_wf(brks, n) && (forall|j: int|
        0 <= j < brks.len() ==> ((#[trigger] brks[j]).1 ==> brks[j].0 == s.len()))
        && crate::cell::trim_line_end(s, 0, n) == n && tw + 2 <= usize::MAX as int {
        // one column
        assert(row_cols(cells) == 1) by {
            assert(crate::row::pre_cols(cells, 1) == crate::row::pre_cols(cells, 0)
                + cells[0].spec_col_span());
        }
        assert(table_cols(rows) == 1) by {
            assert(max_cols_from(rows, 1) == 0);
        }
        // the solved column width is the content width plus the padding
        crate::width::lemma_seg_w_nonneg(wv, 0, n);
        lemma_max_seg_only_end(wv, brks, 0);
        let need = crate::cell::clamp_usize(Cell::spec_min_width(s, true, true));
        assert(need == tw + 2);
        let zero = Seq::new(1nat, |i: int| 0usize);
        let solved = solved_cols(rows, st, Option::None);
        assert(cells[0] == cell);
        assert(solved =~= seq![(tw + 2) as usize]) by {
            assert(solved == fit_rows_all(rows, zero, 0, bw));
            assert(fit_rows_all(rows, zero, 0, bw) == fit_rows_all(
                rows,
                fit_row_cols(rows[0].spec_cells(), zero, 0, 0, bw),
                1,
                bw,
            ));
            let fitted = fit_row_cols(cells, zero, 0, 0, bw);
            assert(fit_rows_all(rows, fitted, 1, bw) == fitted);
            let stepped = crate::solver::fit_cell_cols(zero, 0, 1, bw, need);
            assert(fit_row_cols(cells, zero, 0, 0, bw) == fit_row_cols(cells, stepped, 1, 1, bw));
            assert(fit_row_cols(cells, stepped, 1, 1, bw) == stepped);
            assert(stepped =~= seq![(tw + 2) as usize]);
        }
        // the cell's span width and single-line layout
        let sw = crate::cell::span_w(solved, 0, 1, bw);
        assert(sw == tw + 2) by {
            crate::width::lemma_seg_w_step(solved, 0, 0);
        }
        let starts = crate::cell::cell_line_starts(s, true, Option::Some(sw));
        assert(starts.len() == 1) by {
            crate::segment::lemma_exact_fit_no_wrap(wv, brks, sw - 2);
        }
        assert(starts[0] == 0usize) by {
            crate::segment::lemma_line_starts_wf(wv, brks, Option::Some(sw - 2), 0);
        }
        // one content line for the row
        assert(row_line_count(cells, solved, 0, 0, bw) == 1) by {
            assert(row_line_count(cells, solved, 1, 1, bw) == 0);
        }
        // the rendered line
        let line = crate::cell::rendered_cell_line(s, true, cell.spec_alignment(), sw, starts, 0);
        assert(line =~= seq![' '] + s + seq![' ']) by {
            assert(crate::cell::line_span(s, starts, 0) == (0int, n));
            assert(crate::width::seg_w(wv, 0, n) == tw);
            assert(crate::text::char_run(' ', 0) =~= Seq::<char>::empty());
            assert(s.subrange(0, n) =~= s);
        }
        // borders
        assert(crate::row::border_cells(cells, solved, 0, 0, bw, st.horizontal, st.outer_top_horizontal)
            =~= crate::text::char_run(st.horizontal, tw + 2)) by {
            assert(crate::row::border_cells(cells, solved, 1, 1, bw, st.horizontal, st.outer_top_horizontal)
                =~= Seq::<char>::empty());
        }
        assert(crate::row::border_cells(cells, solved, 0, 0, bw, st.horizontal, st.outer_bottom_horizontal)
            =~= crate::text::char_run(st.horizontal, tw + 2)) by {
            assert(crate::row::border_cells(cells, solved, 1, 1, bw, st.horizontal, st.outer_bottom_horizontal)
                =~= Seq::<char>::empty());
        }
        // content block
        assert(content_lines_spec(cells, solved, st, 0, 1) =~= seq![st.vertical, ' '] + s + seq![
            ' ',
            st.vertical,
            '\n',
        ]) by {
            assert(crate::row::cells_line_spec(cells, solved, 1, 1, bw, st, 0) =~= Seq::<
                char,
            >::empty());
            assert(crate::row::cells_line_spec(cells, solved, 0, 0, bw, st, 0) =~= line + seq![
                st.vertical,
            ]);
            assert(content_lines_spec(cells, solved, st, 1, 1) =~= Seq::<char>::empty());
        }
        assert(rows_tail_spec(rows, solved, st, t.spec_separate_rows(), 1) =~= Seq::<
            char,
        >::empty());
        assert(render_spec(rows, st, t.spec_separate_rows(), true, true, Option::None)
            =~= seq![st.top_left_corner] + crate::text::char_run(st.horizontal, tw + 2) + seq![
            st.top_right_corner,
            '\n',
            st.vertical,
            ' ',
        ] + s + seq![' ', st.vertical, '\n', st.bottom_left_corner] + crate::text::char_run(
            st.horizontal,
            tw + 2,
        ) + seq![st.bottom_right_corner, '\n']);
    }
}

/// A source of one table row: column labels, and one row of values.
pub trait IntoRow {
    /// A row of column labels for values of this type.
    fn headers(&self) -> (r: Row)
        ensures
            r.wf(),
    ;

    /// One row of this value's fields as text.
    fn into_row(&self) -> (r: Row)
        ensures
            r.wf(),
    ;
}

impl IntoRow for String {
    fn headers(&self) -> (r: Row) {
        Row::new().with_cell(Cell::borrowed("value"))
    }

    fn into_row(&self) -> (r: Row) {
        Row::new().with_cell(Cell::borrowed(self.as_str()))
    }
}

/// Build a table with one row per input value.
pub fn data_table<R: IntoRow>(input: &Vec<R>) -> (t: Table)
    ensures
        t.wf(),
        t.spec_rows().len() == input@.len(),
        t.spec_style() == TableStyle::spec_extended(),
        t.spec_separate_rows() == true,
        t.spec_top_border() == true,
        t.spec_bottom_border() == true,
{
    let mut table = Table::new();
    let mut i: usize = 0;
    while i < input.len()
        invariant
            i <= input@.len(),
            table.wf(),
            table.spec_rows().len() == i,
            table.spec_style() == TableStyle::spec_extended(),
            table.spec_separate_rows() == true,
            table.spec_top_border() == true,
            table.spec_bottom_border() == true,
        decreases input@.len() - i,
    {
        let row = input[i].into_row();
        table.add_row(row);
        i = i + 1;
    }
    table
}

} // verus!
