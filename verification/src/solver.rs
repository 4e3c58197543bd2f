//! The column-width solver.
//!
//! In constrained mode a fixed total width is split evenly over the columns,
//! the last column absorbing the integer remainder.  In unconstrained mode
//! every column is raised until each cell's single-line minimum width fits,
//! a spanning cell splitting its requirement evenly over its columns with
//! the remainder going to the earliest ones.

use vstd::prelude::*;

use vstd::arithmetic::div_mod::{
    lemma_div_is_ordered, lemma_div_multiples_vanish, lemma_fundamental_div_mod,
    lemma_div_pos_is_pos,
};
use vstd::pervasive::VecAdditionalExecFns;

use crate::cell::{clamp_usize, Cell};
use crate::row::{lemma_pre_cols_mono, pre_cols, row_cols, Row};

verus! {

/// The even column split of a fixed total width: every column but the last
/// gets `(total - bw) / cols - bw`, and the last absorbs the remainder so
/// that columns plus all borders exactly fill the total.
pub open spec fn even_cols(total: int, cols: int, bw: int) -> Seq<usize> {
    let q = (total - bw) / cols;
    let cw = q - bw;
    let last = total - (cols - 1) * q - 2 * bw;
    Seq::new(
        cols as nat,
        |i: int|
            if i < cols - 1 {
                cw as usize
            } else {
                last as usize
            },
    )
}

/// One cell's single-line requirement applied to the columns it spans.
pub open spec fn fit_cell_cols(cols: Seq<usize>, idx: int, span: int, bw: int, need: int) -> Seq<
    usize,
> {
    if span == 1 {
        cols.update(
            idx,
            (if cols[idx] >= need {
                cols[idx] as int
            } else {
                need
            }) as usize,
        )
    } else {
        let required = if need >= bw * (span - 1) {
            need - bw * (span - 1)
        } else {
            0
        };
        let floor = required / span;
        let rem = required % span;
        Seq::new(
            cols.len(),
            |i: int|
                if idx <= i < idx + span {
                    let want = floor + if i - idx < rem {
                        1int
                    } else {
                        0int
                    };
                    if cols[i] >= want {
                        cols[i]
                    } else {
                        want as usize
                    }
                } else {
                    cols[i]
                },
        )
    }
}

/// The single-line requirement of each cell of a row, applied in turn.
pub open spec fn fit_row_cols(
    cells: Seq<Cell>,
    cols: Seq<usize>,
    idx: int,
    k: int,
    bw: int,
) -> Seq<usize>
    decreases cells.len() - k,
{
    if k < 0 || k >= cells.len() {
        cols
    } else {
        let span = cells[k].spec_col_span() as int;
        let need = clamp_usize(
            Cell::spec_min_width(cells[k].spec_content(), cells[k].spec_pad(), true),
        );
        fit_row_cols(cells, fit_cell_cols(cols, idx, span, bw, need), idx + span, k + 1, bw)
    }
}

/// Calculated column widths.
#[derive(Debug, Clone)]
pub(crate) struct ColumnWidths {
    widths: Vec<usize>,
}

impl ColumnWidths {
    pub closed spec fn view(&self) -> Seq<usize> {
        self.widths@
    }

    pub(crate) fn new() -> (r: ColumnWidths)
        ensures
            r.view() =~= Seq::<usize>::empty(),
    {
        ColumnWidths { widths: Vec::new() }
    }

    /// Reset to `num_cols` columns of width zero.
    pub(crate) fn reset(&mut self, num_cols: usize)
        ensures
            final(self).view() == Seq::new(num_cols as nat, |i: int| 0usize),
    {
        self.widths = Vec::new();
        let mut i: usize = 0;
        while i < num_cols
            invariant
                i <= num_cols,
                self.widths@ =~= Seq::new(i as nat, |t: int| 0usize),
            decreases num_cols - i,
        {
            self.widths.push(0);
            proof {
                assert(self.widths@ =~= Seq::new(i as nat + 1, |t: int| 0usize));
            }
            i = i + 1;
        }
        proof {
            assert(self.widths@ =~= Seq::new(num_cols as nat, |t: int| 0usize));
        }
    }

    pub(crate) fn widths_vec(&self) -> (r: &Vec<usize>)
        ensures
            r@ == self.view(),
    {
        &self.widths
    }

    /// Split a fixed total width evenly: all columns but the last get the
    /// same interior width, and the last absorbs the remainder so that the
    /// columns plus all borders fill the total exactly.
    pub(crate) fn fit_even_rows(&mut self, total_width: usize, cols: usize, border_width: usize)
        requires
            cols >= 1,
            old(self).view().len() == cols,
            border_width <= 3,
            total_width >= border_width * (cols + 1),
        ensures
            final(self).view() == even_cols(total_width as int, cols as int, border_width as int),
    {
        let ghost total = total_width as int;
        let ghost colsi = cols as int;
        let ghost bw = border_width as int;
        proof {
            // q = (total - bw) / cols lies between bw and (total - bw)
            assert(bw * (colsi + 1) == bw * colsi + bw) by (nonlinear_arith);
            lemma_div_is_ordered(bw * colsi, total - bw, colsi);
            lemma_div_multiples_vanish(bw, colsi);
            lemma_fundamental_div_mod(total - bw, colsi);
            lemma_div_pos_is_pos(total - bw, colsi);
            assert(colsi * ((total - bw) / colsi) <= total - bw) by (nonlinear_arith)
                requires
                    total - bw == colsi * ((total - bw) / colsi) + ((total - bw) % colsi),
                    (total - bw) % colsi >= 0,
            ;
        }
        let q = (total_width - border_width) / cols;
        let cell_width = q - border_width;
        let mut used: usize = 0;
        let mut i: usize = 0;
        while i < cols - 1
            invariant
                cols >= 1,
                q as int == (total as int - bw) / colsi,
                bw <= q,
                colsi * q <= total - bw,
                cell_width == q - border_width,
                total == total_width as int,
                colsi == cols as int,
                bw == border_width as int,
                i <= cols - 1,
                used as int == i * (q as int),
                self.view().len() == cols,
                forall|t: int| 0 <= t < i ==> self.view()[t] == cell_width,
                forall|t: int|
                    i <= t < cols ==> self.view()[t] == old(self).view()[t],
            decreases cols - 1 - i,
        {
            proof {
                assert((i + 1) * (q as int) == i * (q as int) + q) by (nonlinear_arith);
                assert((i + 1) * (q as int) <= colsi * (q as int)) by (nonlinear_arith)
                    requires
                        i + 1 <= colsi,
                        q >= 0,
                ;
            }
            self.widths.set(i, cell_width);
            used = used + q;
            i = i + 1;
        }
        proof {
            assert((colsi - 1) * (q as int) + q == colsi * (q as int)) by (nonlinear_arith);
            assert(used as int == (colsi - 1) * (q as int));
        }
        let last = total_width - used - 2 * border_width;
        self.widths.set(cols - 1, last);
        proof {
            assert(self.view() =~= even_cols(total, colsi, bw));
        }
    }

    /// Raise the columns so that each cell of the row fits on a single line.
    pub(crate) fn fit_row_singleline(&mut self, row: &Row, border_width: usize)
        requires
            row.wf(),
            border_width <= 3,
            row_cols(row.spec_cells()) <= old(self).view().len(),
        ensures
            final(self).view() == fit_row_cols(
                row.spec_cells(),
                old(self).view(),
                0,
                0,
                border_width as int,
            ),
    {
        let ghost cells = row.spec_cells();
        let ghost orig = self.view();
        let ghost bw = border_width as int;
        let n = row.cells_len();
        let mut k: usize = 0;
        let mut idx: usize = 0;
        while k < n
            invariant
                row.wf(),
                cells == row.spec_cells(),
                bw == border_width as int,
                border_width <= 3,
                n == cells.len(),
                k <= n,
                idx as int == pre_cols(cells, k as int),
                row_cols(cells) <= self.view().len(),
                self.view().len() == orig.len(),
                fit_row_cols(cells, orig, 0, 0, bw) == fit_row_cols(
                    cells,
                    self.view(),
                    idx as int,
                    k as int,
                    bw,
                ),
            decreases n - k,
        {
            let cell = row.cell_at(k);
            proof {
                assert(cells[k as int].wf());
                lemma_pre_cols_mono(cells, k as int + 1, n as int);
            }
            let span = cell.col_span_value();
            let need = cell.min_width(true);
            let ghost before = self.view();
            if span == 1 {
                let cur = self.widths[idx];
                if need > cur {
                    self.widths.set(idx, need);
                }
                proof {
                    assert(self.view() =~= fit_cell_cols(before, idx as int, 1, bw, need as int));
                }
            } else {
                proof {
                    assert((border_width as int) * ((span - 1) as int) <= 3 * ((span - 1) as int))
                        by (nonlinear_arith)
                        requires
                            border_width <= 3,
                            span >= 1,
                    ;
                }
                let bw_span: u128 = (border_width as u128) * ((span - 1) as u128);
                let required: usize = if (need as u128) >= bw_span {
                    need - ((bw_span) as usize)
                } else {
                    0
                };
                proof {
                    assert(required as int == (if need as int >= bw * (span as int - 1) {
                        need as int - bw * (span as int - 1)
                    } else {
                        0int
                    }));
                }
                let floor = required / span;
                let rem = required % span;
                proof {
                    assert(0 <= (required as int) % (span as int) && (required as int) % (
                    span as int) < span as int) by (nonlinear_arith)
                        requires
                            span as int > 0,
                            required as int >= 0,
                    ;
                    lemma_fundamental_div_mod(required as int, span as int);
                    lemma_div_pos_is_pos(required as int, span as int);
                    assert(2 * (required as int / span as int) <= required as int)
                        by (nonlinear_arith)
                        requires
                            required as int == span as int * (required as int / span as int)
                                + required as int % span as int,
                            required as int % span as int >= 0,
                            required as int / span as int >= 0,
                            span as int >= 2,
                    ;
                }
                let wlen = self.widths.len();
                let mut j: usize = 0;
                while j < span
                    invariant
                        idx + span <= wlen,
                        wlen == self.view().len(),
                        j <= span,
                        span >= 2,
                        bw == border_width as int,
                        required as int == (if need as int >= bw * (span as int - 1) {
                            need as int - bw * (span as int - 1)
                        } else {
                            0int
                        }),
                        floor as int == required as int / span as int,
                        rem as int == required as int % span as int,
                        rem < span,
                        floor + 1 <= usize::MAX,
                        self.view().len() == before.len(),
                        forall|t: int|
                            0 <= t < self.view().len() && !(idx <= t < idx + j)
                                ==> self.view()[t] == before[t],
                        forall|t: int|
                            idx <= t < idx + j ==> self.view()[t] == fit_cell_cols(
                                before,
                                idx as int,
                                span as int,
                                bw,
                                need as int,
                            )[t],
                    decreases span - j,
                {
                    let want = if j < rem {
                        floor + 1
                    } else {
                        floor
                    };
                    let cur = self.widths[idx + j];
                    if want > cur {
                        self.widths.set(idx + j, want);
                    }
                    proof {
                        assert forall|t: int| idx <= t < idx + j + 1 implies self.view()[t]
                            == fit_cell_cols(before, idx as int, span as int, bw, need as int)[t] by {
                            if t == idx + j {
                                assert(before[t] == (if want > cur {
                                    cur
                                } else {
                                    self.view()[t]
                                }) || true);
                            }
                        }
                    }
                    j = j + 1;
                }
                proof {
                    assert(self.view() =~= fit_cell_cols(
                        before,
                        idx as int,
                        span as int,
                        bw,
                        need as int,
                    ));
                }
            }
            idx = idx + span;
            k = k + 1;
        }
    }
}

} // verus!
