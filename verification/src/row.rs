//! A row of cells, and the border drawing between adjacent rows.
//!
//! Each vertical border position of a row is either past the row's columns
//! (`Empty`), interior to a spanning cell (`Middle`), or a cell boundary
//! (`End`).  The junction glyph between two adjacent rows is a function of
//! the two classifications.

use vstd::prelude::*;

use crate::cell::{cell_line_starts, line_fits, rendered_cell_line, span_w, Cell};
use crate::style::TableStyle;
use crate::text::{char_run, push_char, push_run};
use crate::width::{lemma_seg_w_nonneg, lemma_seg_w_step, seg_w};

verus! {

/// Classification of one vertical border position of a row.
#[derive(Debug, Clone, Copy, PartialEq, Eq, Structural)]
pub enum Join {
    /// Past the last column of the row.
    Empty,
    /// Interior to a cell that spans several columns.
    Middle,
    /// A boundary between cells (or the outer edge).
    End,
}

/// A set of table cells.
#[derive(Debug, Clone)]
pub struct Row {
    cells: Vec<Cell>,
    has_separator: bool,
}

/// Sum of the column spans of the first `k` cells.
pub open spec fn pre_cols(cells: Seq<Cell>, k: int) -> int
    decreases k,
{
    if k <= 0 {
        0
    } else {
        pre_cols(cells, k - 1) + cells[k - 1].spec_col_span()
    }
}

/// Number of grid columns the row occupies.
pub open spec fn row_cols(cells: Seq<Cell>) -> int {
    pre_cols(cells, cells.len() as int)
}

/// All cells of the row are well formed.
pub open spec fn cells_wf(cells: Seq<Cell>) -> bool {
    forall|k: int| 0 <= k < cells.len() ==> (#[trigger] cells[k]).wf()
}

pub proof fn lemma_pre_cols_mono(cells: Seq<Cell>, i: int, j: int)
    requires
        0 <= i <= j,
    ensures
        pre_cols(cells, i) <= pre_cols(cells, j),
    decreases j - i,
{
    if i < j {
        lemma_pre_cols_mono(cells, i, j - 1);
    }
}

pub proof fn lemma_pre_cols_push(cells: Seq<Cell>, c: Cell, k: int)
    requires
        0 <= k <= cells.len(),
    ensures
        pre_cols(cells.push(c), k) == pre_cols(cells, k),
    decreases k,
{
    if k > 0 {
        lemma_pre_cols_push(cells, c, k - 1);
    }
}

/// `pos` is the boundary at the start or end of some cell of the row.
pub open spec fn is_pre_sum(cells: Seq<Cell>, pos: int) -> bool {
    exists|k: int| 0 <= k <= cells.len() && pre_cols(cells, k) == pos
}

/// How the row meets the vertical border position `pos`.
pub open spec fn join_at(cells: Seq<Cell>, pos: int) -> Join {
    if pos > row_cols(cells) {
        Join::Empty
    } else if is_pre_sum(cells, pos) {
        Join::End
    } else {
        Join::Middle
    }
}

/// The junction glyph where the border above meets the border below; the
/// rightmost position takes the edge variant.
pub open spec fn joiner_spec(above: Join, below: Join, style: TableStyle, last: bool) -> char {
    match (above, below) {
        (Join::Empty, Join::Empty) => style.horizontal,
        (Join::Empty, Join::Middle) => style.horizontal,
        (Join::Middle, Join::Empty) => style.horizontal,
        (Join::Middle, Join::Middle) => style.horizontal,
        (Join::Empty, Join::End) => if last {
            style.top_right_corner
        } else {
            style.outer_top_horizontal
        },
        (Join::Middle, Join::End) => if last {
            style.top_right_corner
        } else {
            style.outer_top_horizontal
        },
        (Join::End, Join::Empty) => if last {
            style.bottom_right_corner
        } else {
            style.outer_bottom_horizontal
        },
        (Join::End, Join::Middle) => if last {
            style.bottom_right_corner
        } else {
            style.outer_bottom_horizontal
        },
        (Join::End, Join::End) => if last {
            style.outer_right_vertical
        } else {
            style.intersection
        },
    }
}

pub(crate) fn joiner(above: Join, below: Join, style: &TableStyle, last: bool) -> (c: char)
    ensures
        c == joiner_spec(above, below, *style, last),
{
    match (above, below) {
        (Join::Empty, Join::Empty)
        | (Join::Empty, Join::Middle)
        | (Join::Middle, Join::Empty)
        | (Join::Middle, Join::Middle) => style.horizontal,
        (Join::Empty, Join::End) | (Join::Middle, Join::End) => if last {
            style.top_right_corner
        } else {
            style.outer_top_horizontal
        },
        (Join::End, Join::Empty) | (Join::End, Join::Middle) => if last {
            style.bottom_right_corner
        } else {
            style.outer_bottom_horizontal
        },
        (Join::End, Join::End) => if last {
            style.outer_right_vertical
        } else {
            style.intersection
        },
    }
}

impl Row {
    pub closed spec fn spec_cells(&self) -> Seq<Cell> {
        self.cells@
    }

    pub closed spec fn spec_has_separator(&self) -> bool {
        self.has_separator
    }

    /// Every cell is well formed and the column count fits the machine word.
    pub open spec fn wf(&self) -> bool {
        cells_wf(self.spec_cells()) && row_cols(self.spec_cells()) <= usize::MAX as int
    }

    /// An empty row with a separator above it.
    pub fn new() -> (r: Row)
        ensures
            r.wf(),
            r.spec_cells().len() == 0,
            r.spec_has_separator() == true,
    {
        Row { cells: Vec::new(), has_separator: true }
    }

    /// Whether the row should have a border drawn above it.
    pub fn with_separator(self, has_separator: bool) -> (r: Row)
        requires
            self.wf(),
        ensures
            r.wf(),
            r.spec_cells() == self.spec_cells(),
            r.spec_has_separator() == has_separator,
    {
        let mut this = self;
        this.set_has_separator(has_separator);
        this
    }

    /// Whether the row should have a border drawn above it.
    pub fn set_has_separator(&mut self, has_separator: bool)
        requires
            old(self).wf(),
        ensures
            final(self).wf(),
            final(self).spec_cells() == old(self).spec_cells(),
            final(self).spec_has_separator() == has_separator,
    {
        self.has_separator = has_separator;
    }

    pub fn add_cell(&mut self, cell: Cell)
        requires
            old(self).wf(),
            cell.wf(),
            row_cols(old(self).spec_cells()) + cell.spec_col_span() <= usize::MAX as int,
        ensures
            final(self).wf(),
            final(self).spec_cells() == old(self).spec_cells().push(cell),
            final(self).spec_has_separator() == old(self).spec_has_separator(),
    {
        proof {
            lemma_pre_cols_push(self.cells@, cell, self.cells@.len() as int);
        }
        self.cells.push(cell);
    }

    pub fn with_cell(self, cell: Cell) -> (r: Row)
        requires
            self.wf(),
            cell.wf(),
            row_cols(self.spec_cells()) + cell.spec_col_span() <= usize::MAX as int,
        ensures
            r.wf(),
            r.spec_cells() == self.spec_cells().push(cell),
            r.spec_has_separator() == self.spec_has_separator(),
    {
        let mut this = self;
        this.add_cell(cell);
        this
    }


    /// Number of cells in the row.
    pub(crate) fn cells_len(&self) -> (r: usize)
        ensures
            r == self.spec_cells().len(),
    {
        self.cells.len()
    }

    /// The cell at position `k`.
    pub(crate) fn cell_at(&self, k: usize) -> (r: &Cell)
        requires
            k < self.spec_cells().len(),
        ensures
            *r == self.spec_cells()[k as int],
    {
        &self.cells[k]
    }

    /// Number of columns in the row: the sum of its cells' column spans.
    pub fn num_columns(&self) -> (r: usize)
        requires
            self.wf(),
        ensures
            r as int == row_cols(self.spec_cells()),
    {
        let mut acc: usize = 0;
        let mut k: usize = 0;
        let n = self.cells.len();
        while k < n
            invariant
                self.wf(),
                n == self.spec_cells().len(),
                k <= n,
                acc as int == pre_cols(self.spec_cells(), k as int),
            decreases n - k,
        {
            proof {
                lemma_pre_cols_mono(self.spec_cells(), k as int + 1, n as int);
            }
            acc = acc + self.cells[k].col_span_value();
            k = k + 1;
        }
        acc
    }

    /// How this row meets the vertical border position `pos`.
    pub(crate) fn join_kind(&self, pos: usize) -> (r: Join)
        requires
            self.wf(),
        ensures
            r == join_at(self.spec_cells(), pos as int),
    {
        let n = self.cells.len();
        let mut acc: usize = 0;
        let mut k: usize = 0;
        loop
            invariant
                self.wf(),
                n == self.spec_cells().len(),
                k <= n,
                acc as int == pre_cols(self.spec_cells(), k as int),
                forall|t: int| 0 <= t < k ==> pre_cols(self.spec_cells(), t) < pos as int,
            decreases n - k,
        {
            if acc == pos {
                proof {
                    lemma_pre_cols_mono(self.spec_cells(), k as int, n as int);
                    assert(is_pre_sum(self.spec_cells(), pos as int));
                }
                return Join::End;
            }
            if acc > pos {
                proof {
                    assert forall|t: int|
                        0 <= t <= self.spec_cells().len() implies pre_cols(self.spec_cells(), t)
                        != pos as int by {
                        if t >= k {
                            lemma_pre_cols_mono(self.spec_cells(), k as int, t);
                        }
                    }
                    lemma_pre_cols_mono(self.spec_cells(), k as int, n as int);
                }
                return Join::Middle;
            }
            if k == n {
                proof {
                    assert(row_cols(self.spec_cells()) == acc as int);
                }
                return Join::Empty;
            }
            proof {
                lemma_pre_cols_mono(self.spec_cells(), k as int + 1, n as int);
            }
            acc = acc + self.cells[k].col_span_value();
            k = k + 1;
        }
    }
}


/// The border run of the row's cells: for each cell, its span's width in
/// horizontal rule characters, with `junction` between cells.
pub open spec fn border_cells(
    cells: Seq<Cell>,
    cws: Seq<usize>,
    idx: int,
    k: int,
    bw: int,
    h: char,
    junction: char,
) -> Seq<char>
    decreases cells.len() - k,
{
    if k < 0 || k >= cells.len() {
        Seq::<char>::empty()
    } else {
        let span = cells[k].spec_col_span() as int;
        char_run(h, span_w(cws, idx, span, bw)) + (if k + 1 < cells.len() {
            seq![junction]
        } else {
            Seq::<char>::empty()
        }) + border_cells(cells, cws, idx + span, k + 1, bw, h, junction)
    }
}

/// A full horizontal border line of the row, or nothing when the row draws
/// no separator.
pub open spec fn border_line_spec(
    cells: Seq<Cell>,
    has_sep: bool,
    cws: Seq<usize>,
    style: TableStyle,
    left: char,
    right: char,
    junction: char,
) -> Seq<char> {
    if !has_sep {
        Seq::<char>::empty()
    } else {
        seq![left] + border_cells(
            cells,
            cws,
            0,
            0,
            style.spec_border_width() as int,
            style.horizontal,
            junction,
        ) + seq![right, '\n']
    }
}

/// The row's top border line.
pub open spec fn top_border_spec(
    cells: Seq<Cell>,
    has_sep: bool,
    cws: Seq<usize>,
    style: TableStyle,
) -> Seq<char> {
    border_line_spec(
        cells,
        has_sep,
        cws,
        style,
        style.top_left_corner,
        style.top_right_corner,
        style.outer_top_horizontal,
    )
}

/// The row's bottom border line.
pub open spec fn bottom_border_spec(
    cells: Seq<Cell>,
    has_sep: bool,
    cws: Seq<usize>,
    style: TableStyle,
) -> Seq<char> {
    border_line_spec(
        cells,
        has_sep,
        cws,
        style,
        style.bottom_left_corner,
        style.bottom_right_corner,
        style.outer_bottom_horizontal,
    )
}

/// The junction-bearing part of a separator line, from border position `p`
/// to the rightmost position `m`.
pub open spec fn sep_cols(
    above: Seq<Cell>,
    below: Seq<Cell>,
    cws: Seq<usize>,
    style: TableStyle,
    p: int,
    m: int,
) -> Seq<char>
    decreases m - p + 1,
{
    if p > m || p < 1 {
        Seq::<char>::empty()
    } else {
        char_run(style.horizontal, cws[p - 1] as int) + seq![
            joiner_spec(join_at(above, p), join_at(below, p), style, p == m),
        ] + sep_cols(above, below, cws, style, p + 1, m)
    }
}

/// The separator line between two adjacent rows, or nothing when the lower
/// row draws no separator.
pub open spec fn separator_spec(
    above: Seq<Cell>,
    below: Seq<Cell>,
    below_has_sep: bool,
    cws: Seq<usize>,
    style: TableStyle,
) -> Seq<char> {
    if !below_has_sep {
        Seq::<char>::empty()
    } else {
        let m = if row_cols(above) >= row_cols(below) {
            row_cols(above)
        } else {
            row_cols(below)
        };
        seq![style.outer_left_vertical] + sep_cols(above, below, cws, style, 1, m) + seq!['\n']
    }
}

/// A cell can be rendered at span width `sw`: the width fits the machine
/// word, holds at least one character of (padded) content, and every laid
/// out line of the cell fits it.
pub open spec fn cell_fits(cell: Cell, sw: int) -> bool {
    &&& 1 <= sw <= usize::MAX as int
    &&& (cell.spec_pad() ==> sw >= 3)
    &&& forall|ln: int|
        line_fits(
            cell.spec_content(),
            cell.spec_pad(),
            cell_line_starts(cell.spec_content(), cell.spec_pad(), Option::Some(sw)),
            ln,
            sw,
        )
}

/// Every cell of the row, at its spanned width, can be rendered.
pub open spec fn cells_fit(cells: Seq<Cell>, cws: Seq<usize>, idx: int, k: int, bw: int) -> bool
    decreases cells.len() - k,
{
    if k < 0 || k >= cells.len() {
        true
    } else {
        let span = cells[k].spec_col_span() as int;
        cell_fits(cells[k], span_w(cws, idx, span, bw)) && cells_fit(cells, cws, idx + span, k + 1, bw)
    }
}

/// The row can be rendered against the given column widths.
pub open spec fn row_renderable(cells: Seq<Cell>, cws: Seq<usize>, bw: int) -> bool {
    row_cols(cells) <= cws.len() && cells_fit(cells, cws, 0, 0, bw)
}

/// The number of display lines the row needs: the largest line count of its
/// cells, each laid out at its spanned width.
pub open spec fn row_line_count(cells: Seq<Cell>, cws: Seq<usize>, idx: int, k: int, bw: int) -> int
    decreases cells.len() - k,
{
    if k < 0 || k >= cells.len() {
        0
    } else {
        let span = cells[k].spec_col_span() as int;
        let sw = span_w(cws, idx, span, bw);
        let mine = cell_line_starts(cells[k].spec_content(), cells[k].spec_pad(), Option::Some(sw)).len() as int;
        let rest = row_line_count(cells, cws, idx + span, k + 1, bw);
        if mine >= rest {
            mine
        } else {
            rest
        }
    }
}

/// One content line of the row's cells, each followed by a vertical border.
pub open spec fn cells_line_spec(
    cells: Seq<Cell>,
    cws: Seq<usize>,
    idx: int,
    k: int,
    bw: int,
    style: TableStyle,
    ln: int,
) -> Seq<char>
    decreases cells.len() - k,
{
    if k < 0 || k >= cells.len() {
        Seq::<char>::empty()
    } else {
        let cell = cells[k];
        let span = cell.spec_col_span() as int;
        let sw = span_w(cws, idx, span, bw);
        rendered_cell_line(
            cell.spec_content(),
            cell.spec_pad(),
            cell.spec_alignment(),
            sw,
            cell_line_starts(cell.spec_content(), cell.spec_pad(), Option::Some(sw)),
            ln,
        ) + seq![style.vertical] + cells_line_spec(cells, cws, idx + span, k + 1, bw, style, ln)
    }
}

/// The content lines `ln .. num` of the row.
pub open spec fn content_lines_spec(
    cells: Seq<Cell>,
    cws: Seq<usize>,
    style: TableStyle,
    ln: int,
    num: int,
) -> Seq<char>
    decreases num - ln,
{
    if ln >= num {
        Seq::<char>::empty()
    } else {
        seq![style.vertical] + cells_line_spec(
            cells,
            cws,
            0,
            0,
            style.spec_border_width() as int,
            style,
            ln,
        ) + seq!['\n'] + content_lines_spec(cells, cws, style, ln + 1, num)
    }
}

/// Emit one cell's span of a border: the spanned column widths in `h`, with
/// `bw` more per swallowed interior border.
fn push_span_run(out: &mut String, h: char, cws: &Vec<usize>, idx: usize, span: usize, bw: usize)
    requires
        span >= 1,
        idx + span <= cws@.len(),
        bw <= 3,
    ensures
        final(out)@ == old(out)@ + char_run(
            h,
            span_w(cws@, idx as int, span as int, bw as int),
        ),
{
    let n = cws.len();
    proof {
        lemma_seg_w_step(cws@, idx as int, idx as int);
        assert(idx + span <= n);
    }
    push_run(out, h, cws[idx]);
    let end = idx + span;
    proof {
        assert(bw as int * ((idx as int + 1) - idx as int - 1) == 0) by (nonlinear_arith);
        assert(out@ =~= old(out)@ + char_run(
            h,
            seg_w(cws@, idx as int, idx as int + 1) + bw as int * ((idx as int + 1) - idx as int
                - 1),
        ));
    }
    let mut c = idx + 1;
    while c < end
        invariant
            end == idx + span,
            end <= cws@.len(),
            idx + 1 <= c <= end,
            bw <= 3,
            out@ == old(out)@ + char_run(
                h,
                seg_w(cws@, idx as int, c as int) + bw * (c - idx - 1),
            ),
        decreases end - c,
    {
        let ghost partial = seg_w(cws@, idx as int, c as int) + bw * (c - idx - 1);
        proof {
            lemma_seg_w_nonneg(cws@, idx as int, c as int);
            assert(bw * (c - idx - 1) >= 0) by (nonlinear_arith)
                requires
                    bw >= 0,
                    c - idx - 1 >= 0,
            ;
        }
        push_run(out, h, bw);
        proof {
            crate::text::lemma_char_run_concat(h, partial, bw as int);
        }
        push_run(out, h, cws[c]);
        proof {
            crate::text::lemma_char_run_concat(h, partial + bw, cws@[c as int] as int);
            lemma_seg_w_step(cws@, idx as int, c as int);
            assert(bw * (c + 1 - idx - 1) == bw * (c - idx - 1) + bw) by (nonlinear_arith);
            assert(out@ =~= old(out)@ + char_run(
                h,
                seg_w(cws@, idx as int, c as int + 1) + bw * (c + 1 - idx - 1),
            ));
        }
        c = c + 1;
    }
}

impl Row {
    /// Render a horizontal border line for the row with the given corner and
    /// junction glyphs.
    fn border_line(
        &self,
        cell_widths: &Vec<usize>,
        style: &TableStyle,
        left: char,
        right: char,
        junction: char,
    ) -> (r: String)
        requires
            self.wf(),
            row_cols(self.spec_cells()) <= cell_widths@.len(),
        ensures
            r@ == border_line_spec(
                self.spec_cells(),
                self.spec_has_separator(),
                cell_widths@,
                *style,
                left,
                right,
                junction,
            ),
    {
        let mut out = String::new();
        if !self.has_separator {
            proof {
                assert(out@ =~= Seq::<char>::empty());
            }
            return out;
        }
        let bw = style.border_width();
        push_char(&mut out, left);
        let ghost cells = self.spec_cells();
        let ghost cwsv = cell_widths@;
        let ghost bwi = style.spec_border_width() as int;
        let n = self.cells.len();
        let mut k: usize = 0;
        let mut idx: usize = 0;
        while k < n
            invariant
                self.wf(),
                cells == self.spec_cells(),
                cwsv == cell_widths@,
                n == cells.len(),
                k <= n,
                bw == style.spec_border_width(),
                bw <= 3,
                bwi == bw as int,
                row_cols(cells) <= cwsv.len(),
                idx as int == pre_cols(cells, k as int),
                seq![left] + border_cells(cells, cwsv, 0, 0, bwi, style.horizontal, junction)
                    == out@ + border_cells(cells, cwsv, idx as int, k as int, bwi, style.horizontal, junction),
            decreases n - k,
        {
            let span = self.cells[k].col_span_value();
            proof {
                assert(cells[k as int].wf());
                lemma_pre_cols_mono(cells, k as int + 1, n as int);
                assert(pre_cols(cells, k as int + 1) == idx + span);
            }
            let ghost before = out@;
            push_span_run(&mut out, style.horizontal, cell_widths, idx, span, bw);
            if k + 1 < n {
                push_char(&mut out, junction);
                proof {
                    assert(before + (char_run(style.horizontal, span_w(cwsv, idx as int, span as int, bwi))
                        + seq![junction]) =~= out@);
                }
            }
            proof {
                assert(border_cells(cells, cwsv, idx as int, k as int, bwi, style.horizontal, junction)
                    =~= char_run(style.horizontal, span_w(cwsv, idx as int, span as int, bwi))
                        + (if k as int + 1 < cells.len() { seq![junction] } else { Seq::<char>::empty() })
                        + border_cells(cells, cwsv, idx + span, k as int + 1, bwi, style.horizontal, junction));
                assert(seq![left] + border_cells(cells, cwsv, 0, 0, bwi, style.horizontal, junction)
                    =~= out@ + border_cells(cells, cwsv, idx + span, k as int + 1, bwi, style.horizontal, junction));
            }
            idx = idx + span;
            k = k + 1;
        }
        push_char(&mut out, right);
        push_char(&mut out, '\n');
        proof {
            assert(border_cells(cells, cwsv, idx as int, n as int, bwi, style.horizontal, junction)
                =~= Seq::<char>::empty());
            assert(out@ =~= border_line_spec(
                cells,
                self.spec_has_separator(),
                cwsv,
                *style,
                left,
                right,
                junction,
            ));
        }
        out
    }

    /// Render the border above the row when it is the first row of the
    /// table.
    pub fn render_top_separator(&self, cell_widths: &Vec<usize>, style: &TableStyle) -> (r: String)
        requires
            self.wf(),
            row_cols(self.spec_cells()) <= cell_widths@.len(),
        ensures
            r@ == top_border_spec(
                self.spec_cells(),
                self.spec_has_separator(),
                cell_widths@,
                *style,
            ),
    {
        self.border_line(
            cell_widths,
            style,
            style.top_left_corner,
            style.top_right_corner,
            style.outer_top_horizontal,
        )
    }

    /// Render the border below the row when it is the last row of the table.
    pub fn render_bottom_separator(&self, cell_widths: &Vec<usize>, style: &TableStyle) -> (r:
        String)
        requires
            self.wf(),
            row_cols(self.spec_cells()) <= cell_widths@.len(),
        ensures
            r@ == bottom_border_spec(
                self.spec_cells(),
                self.spec_has_separator(),
                cell_widths@,
                *style,
            ),
    {
        self.border_line(
            cell_widths,
            style,
            style.bottom_left_corner,
            style.bottom_right_corner,
            style.outer_bottom_horizontal,
        )
    }

    /// Render the separator between `prev` (above) and this row (below),
    /// merging the two rows' cell boundaries into junction glyphs.
    pub fn render_separator(
        &self,
        prev: &Row,
        cell_widths: &Vec<usize>,
        style: &TableStyle,
    ) -> (r: String)
        requires
            self.wf(),
            prev.wf(),
            row_cols(prev.spec_cells()) <= cell_widths@.len(),
            row_cols(self.spec_cells()) <= cell_widths@.len(),
        ensures
            r@ == separator_spec(
                prev.spec_cells(),
                self.spec_cells(),
                self.spec_has_separator(),
                cell_widths@,
                *style,
            ),
    {
        let mut out = String::new();
        if !self.has_separator {
            proof {
                assert(out@ =~= Seq::<char>::empty());
            }
            return out;
        }
        let ta = prev.num_columns();
        let tb = self.num_columns();
        let m = if ta >= tb {
            ta
        } else {
            tb
        };
        let ghost above = prev.spec_cells();
        let ghost below = self.spec_cells();
        let ghost cwsv = cell_widths@;
        push_char(&mut out, style.outer_left_vertical);
        let mut i: usize = 0;
        while i < m
            invariant
                self.wf(),
                prev.wf(),
                above == prev.spec_cells(),
                below == self.spec_cells(),
                cwsv == cell_widths@,
                m as int == (if row_cols(above) >= row_cols(below) {
                    row_cols(above)
                } else {
                    row_cols(below)
                }),
                m <= cwsv.len(),
                i <= m,
                seq![style.outer_left_vertical] + sep_cols(above, below, cwsv, *style, 1, m as int)
                    == out@ + sep_cols(above, below, cwsv, *style, i as int + 1, m as int),
            decreases m - i,
        {
            let p = i + 1;
            let ghost before = out@;
            push_run(&mut out, style.horizontal, cell_widths[p - 1]);
            let ja = prev.join_kind(p);
            let jb = self.join_kind(p);
            let jc = joiner(ja, jb, style, p == m);
            push_char(&mut out, jc);
            proof {
                assert(sep_cols(above, below, cwsv, *style, p as int, m as int)
                    =~= char_run(style.horizontal, cwsv[p as int - 1] as int) + seq![
                    joiner_spec(join_at(above, p as int), join_at(below, p as int), *style, p as int == m as int),
                ] + sep_cols(above, below, cwsv, *style, p as int + 1, m as int));
                assert(out@ =~= before + (char_run(style.horizontal, cwsv[p as int - 1] as int) + seq![jc]));
                assert(seq![style.outer_left_vertical] + sep_cols(above, below, cwsv, *style, 1, m as int)
                    =~= out@ + sep_cols(above, below, cwsv, *style, p as int + 1, m as int));
            }
            i = i + 1;
        }
        push_char(&mut out, '\n');
        proof {
            assert(sep_cols(above, below, cwsv, *style, m as int + 1, m as int)
                =~= Seq::<char>::empty());
            assert(out@ =~= separator_spec(above, below, self.spec_has_separator(), cwsv, *style));
        }
        out
    }

    /// Whether every cell of the row can be rendered against the given
    /// column widths.
    pub(crate) fn check_renderable(&self, cell_widths: &Vec<usize>, bw: usize) -> (r: bool)
        requires
            self.wf(),
            bw <= 3,
        ensures
            r == row_renderable(self.spec_cells(), cell_widths@, bw as int),
    {
        let cols = self.num_columns();
        if cols > cell_widths.len() {
            return false;
        }
        let ghost cells = self.spec_cells();
        let ghost cwsv = cell_widths@;
        let n = self.cells.len();
        let mut k: usize = 0;
        let mut idx: usize = 0;
        while k < n
            invariant
                self.wf(),
                cells == self.spec_cells(),
                cwsv == cell_widths@,
                n == cells.len(),
                k <= n,
                bw <= 3,
                row_cols(cells) <= cwsv.len(),
                idx as int == pre_cols(cells, k as int),
                cells_fit(cells, cwsv, 0, 0, bw as int) == cells_fit(
                    cells,
                    cwsv,
                    idx as int,
                    k as int,
                    bw as int,
                ),
            decreases n - k,
        {
            let cell = &self.cells[k];
            let span = cell.col_span_value();
            proof {
                assert(cells[k as int].wf());
                lemma_pre_cols_mono(cells, k as int + 1, n as int);
            }
            let ghost swi = span_w(cwsv, idx as int, span as int, bw as int);
            let sw_opt = cell.width(bw, cell_widths, idx);
            match sw_opt {
                Option::None => {
                    proof {
                        assert(!cell_fits(cells[k as int], swi));
                        assert(!cells_fit(cells, cwsv, idx as int, k as int, bw as int));
                    }
                    return false;
                },
                Option::Some(sw) => {
                    if sw < 1 {
                        proof {
                            assert(!cell_fits(cells[k as int], swi));
                            assert(!cells_fit(cells, cwsv, idx as int, k as int, bw as int));
                        }
                        return false;
                    }
                    if cell.pad_value() && sw < 3 {
                        proof {
                            assert(!cell_fits(cells[k as int], swi));
                            assert(!cells_fit(cells, cwsv, idx as int, k as int, bw as int));
                        }
                        return false;
                    }
                    let starts = cell.layout(Option::Some(sw));
                    let mut ln: usize = 0;
                    let nl = starts.len();
                    while ln < nl
                        invariant
                            cell.wf(),
                            cells == self.spec_cells(),
                            cwsv == cell_widths@,
                            0 <= k < cells.len(),
                            *cell == cells[k as int],
                            swi == span_w(cwsv, idx as int, cell.spec_col_span() as int, bw as int),
                            sw as int == swi,
                            row_cols(cells) <= cwsv.len(),
                            cells_fit(cells, cwsv, 0, 0, bw as int) == cells_fit(
                                cells,
                                cwsv,
                                idx as int,
                                k as int,
                                bw as int,
                            ),
                            nl == starts@.len(),
                            ln <= nl,
                            starts@ == cell_line_starts(
                                cell.spec_content(),
                                cell.spec_pad(),
                                Option::Some(sw as int),
                            ),
                            crate::segment::starts_wf(starts@, cell.spec_content().len() as int),
                            sw >= 1,
                            cell.spec_pad() ==> sw >= 3,
                            forall|t: int|
                                0 <= t < ln ==> line_fits(
                                    cell.spec_content(),
                                    cell.spec_pad(),
                                    starts@,
                                    t,
                                    sw as int,
                                ),
                        decreases nl - ln,
                    {
                        if !cell.line_fit(&starts, ln, sw) {
                            proof {
                                assert(!line_fits(
                                    cell.spec_content(),
                                    cell.spec_pad(),
                                    cell_line_starts(
                                        cell.spec_content(),
                                        cell.spec_pad(),
                                        Option::Some(sw as int),
                                    ),
                                    ln as int,
                                    sw as int,
                                ));
                                assert(!cell_fits(cells[k as int], swi));
                                assert(!cells_fit(cells, cwsv, idx as int, k as int, bw as int));
                            }
                            return false;
                        }
                        ln = ln + 1;
                    }
                    proof {
                        assert forall|t: int|
                            line_fits(
                                cell.spec_content(),
                                cell.spec_pad(),
                                starts@,
                                t,
                                sw as int,
                            ) by {
                            if !(0 <= t < starts@.len()) {
                                let sv = cell.spec_content();
                                assert(crate::cell::line_span(sv, starts@, t) == (
                                    sv.len() as int,
                                    sv.len() as int,
                                ));
                                assert(crate::cell::trim_line_end(sv, sv.len() as int, sv.len() as int)
                                    == sv.len() as int);
                                assert(seg_w(crate::cell::cell_widths_of(sv), sv.len() as int, sv.len() as int) == 0);
                            }
                        }
                        assert(cell_fits(cells[k as int], span_w(cwsv, idx as int, span as int, bw as int)));
                    }
                },
            }
            idx = idx + span;
            k = k + 1;
        }
        true
    }

    /// The number of lines needed to display this row at the given column
    /// widths.
    pub(crate) fn layout(&self, cell_widths: &Vec<usize>, bw: usize) -> (r: usize)
        requires
            self.wf(),
            bw <= 3,
            row_renderable(self.spec_cells(), cell_widths@, bw as int),
        ensures
            r as int == row_line_count(self.spec_cells(), cell_widths@, 0, 0, bw as int),
    {
        let ghost cells = self.spec_cells();
        let ghost cwsv = cell_widths@;
        let n = self.cells.len();
        let mut k: usize = 0;
        let mut idx: usize = 0;
        let mut best: usize = 0;
        while k < n
            invariant
                self.wf(),
                cells == self.spec_cells(),
                cwsv == cell_widths@,
                n == cells.len(),
                k <= n,
                bw <= 3,
                row_cols(cells) <= cwsv.len(),
                idx as int == pre_cols(cells, k as int),
                cells_fit(cells, cwsv, idx as int, k as int, bw as int),
                row_line_count(cells, cwsv, 0, 0, bw as int) == (if best as int >= row_line_count(
                    cells,
                    cwsv,
                    idx as int,
                    k as int,
                    bw as int,
                ) {
                    best as int
                } else {
                    row_line_count(cells, cwsv, idx as int, k as int, bw as int)
                }),
            decreases n - k,
        {
            let cell = &self.cells[k];
            let span = cell.col_span_value();
            proof {
                assert(cells[k as int].wf());
                lemma_pre_cols_mono(cells, k as int + 1, n as int);
                lemma_row_line_count_nonneg(cells, cwsv, idx + span as int, k as int + 1, bw as int);
            }
            proof {
                assert(cells_fit(cells, cwsv, idx as int, k as int, bw as int));
                assert(cell_fits(cells[k as int], span_w(cwsv, idx as int, span as int, bw as int)));
            }
            let sw_opt = cell.width(bw, cell_widths, idx);
            let sw = match sw_opt {
                Option::Some(sw) => sw,
                Option::None => {
                    proof {
                        assert(false);
                    }
                    0
                },
            };
            let starts = cell.layout(Option::Some(sw));
            let mine = starts.len();
            if mine > best {
                best = mine;
            }
            idx = idx + span;
            k = k + 1;
        }
        best
    }
}


impl Row {
    /// Render the row's content: `num_lines` lines of its cells' aligned
    /// text, separated by vertical borders.
    pub fn render_content(
        &self,
        cell_widths: &Vec<usize>,
        num_lines: usize,
        style: &TableStyle,
    ) -> (r: String)
        requires
            self.wf(),
            row_renderable(self.spec_cells(), cell_widths@, style.spec_border_width() as int),
        ensures
            r@ == content_lines_spec(self.spec_cells(), cell_widths@, *style, 0, num_lines as int),
    {
        let bw = style.border_width();
        let ghost cells = self.spec_cells();
        let ghost cwsv = cell_widths@;
        let ghost bwi = bw as int;
        let n = self.cells.len();
        let mut out = String::new();
        let mut ln: usize = 0;
        while ln < num_lines
            invariant
                self.wf(),
                cells == self.spec_cells(),
                cwsv == cell_widths@,
                n == cells.len(),
                bw == style.spec_border_width(),
                bw <= 3,
                bwi == bw as int,
                row_renderable(cells, cwsv, bwi),
                ln <= num_lines,
                content_lines_spec(cells, cwsv, *style, 0, num_lines as int) == out@
                    + content_lines_spec(cells, cwsv, *style, ln as int, num_lines as int),
            decreases num_lines - ln,
        {
            let ghost base = out@;
            push_char(&mut out, style.vertical);
            let mut k: usize = 0;
            let mut idx: usize = 0;
            while k < n
                invariant
                    self.wf(),
                    cells == self.spec_cells(),
                    cwsv == cell_widths@,
                    n == cells.len(),
                    k <= n,
                    bw == style.spec_border_width(),
                    bw <= 3,
                    bwi == bw as int,
                    row_cols(cells) <= cwsv.len(),
                    idx as int == pre_cols(cells, k as int),
                    cells_fit(cells, cwsv, idx as int, k as int, bwi),
                    out@ + cells_line_spec(cells, cwsv, idx as int, k as int, bwi, *style, ln as int)
                        == base + seq![style.vertical] + cells_line_spec(
                        cells,
                        cwsv,
                        0,
                        0,
                        bwi,
                        *style,
                        ln as int,
                    ),
                decreases n - k,
            {
                let cell = &self.cells[k];
                proof {
                    assert(cells[k as int].wf());
                    lemma_pre_cols_mono(cells, k as int + 1, n as int);
                    assert(cell_fits(cells[k as int], span_w(cwsv, idx as int, cells[k as int].spec_col_span() as int, bwi)));
                }
                let span = cell.col_span_value();
                let sw_opt = cell.width(bw, cell_widths, idx);
                let sw = match sw_opt {
                    Option::Some(sw) => sw,
                    Option::None => {
                        proof {
                            assert(false);
                        }
                        0
                    },
                };
                let starts = cell.layout(Option::Some(sw));
                let ghost before = out@;
                let line = cell.render_line(&starts, ln, sw);
                out.append(line.as_str());
                push_char(&mut out, style.vertical);
                proof {
                    assert(cells_line_spec(cells, cwsv, idx as int, k as int, bwi, *style, ln as int)
                        =~= line@ + seq![style.vertical] + cells_line_spec(
                        cells,
                        cwsv,
                        idx + span,
                        k as int + 1,
                        bwi,
                        *style,
                        ln as int,
                    ));
                    assert(out@ =~= before + (line@ + seq![style.vertical]));
                    assert(out@ + cells_line_spec(cells, cwsv, idx + span, k as int + 1, bwi, *style, ln as int)
                        =~= base + seq![style.vertical] + cells_line_spec(
                        cells,
                        cwsv,
                        0,
                        0,
                        bwi,
                        *style,
                        ln as int,
                    ));
                }
                idx = idx + span;
                k = k + 1;
            }
            push_char(&mut out, '\n');
            proof {
                assert(cells_line_spec(cells, cwsv, idx as int, n as int, bwi, *style, ln as int)
                    =~= Seq::<char>::empty());
                assert(content_lines_spec(cells, cwsv, *style, ln as int, num_lines as int)
                    =~= seq![style.vertical] + cells_line_spec(cells, cwsv, 0, 0, bwi, *style, ln as int)
                        + seq!['\n'] + content_lines_spec(
                        cells,
                        cwsv,
                        *style,
                        ln as int + 1,
                        num_lines as int,
                    ));
                assert(content_lines_spec(cells, cwsv, *style, 0, num_lines as int) =~= out@
                    + content_lines_spec(cells, cwsv, *style, ln as int + 1, num_lines as int));
            }
            ln = ln + 1;
        }
        proof {
            assert(content_lines_spec(cells, cwsv, *style, num_lines as int, num_lines as int)
                =~= Seq::<char>::empty());
            assert(out@ =~= content_lines_spec(cells, cwsv, *style, 0, num_lines as int));
        }
        out
    }
}

pub proof fn lemma_row_line_count_nonneg(
    cells: Seq<Cell>,
    cws: Seq<usize>,
    idx: int,
    k: int,
    bw: int,
)
    ensures
        row_line_count(cells, cws, idx, k, bw) >= 0,
    decreases cells.len() - k,
{
    if 0 <= k < cells.len() {
        let span = cells[k].spec_col_span() as int;
        lemma_row_line_count_nonneg(cells, cws, idx + span, k + 1, bw);
    }
}

} // verus!
