//! An earlier, simpler cell type kept for its plain wrapping API.
//!
//! A [`TableCell`] exposes its wrapped content directly as a list of line
//! strings, each flanked by the padding character, rather than rendering
//! aligned lines.  It shares the verified segmentation and width accounting
//! of [`Cell`](crate::cell::Cell).

use vstd::prelude::*;

pub use crate::cell::Alignment;

use crate::cell::{
    cell_brks_of, cell_line_starts, cell_widths_of, clamp_usize, content_metrics, line_span,
    spec_width_opt, trim_line_end,
};
use crate::segment::{layout_lines, max_seg, omax, starts_wf};
use crate::text::push_char;
use crate::width::{char_width_lookup, char_width_opt, seg_w, seg_width_exec, to_chars};

verus! {

/// A table cell holding text, with a column span, an alignment and a
/// padding flag.
#[derive(Debug, Clone)]
pub struct TableCell {
    data: String,
    chars: Vec<char>,
    col_span: usize,
    alignment: Alignment,
    pad_content: bool,
}

/// The width a single character counts for in [`TableCell::min_width`]:
/// control characters count one column there.
pub open spec fn min_char_width(c: char) -> usize {
    match char_width_opt(c) {
        Option::Some(cw) => cw,
        Option::None => 1,
    }
}

/// The widest single character of `s` under [`min_char_width`], scanning
/// from index `k`.
pub open spec fn max_char_width(s: Seq<char>, k: int) -> int
    decreases s.len() - k,
{
    if k < 0 || k >= s.len() {
        0
    } else {
        let cw = min_char_width(s[k]) as int;
        let rest = max_char_width(s, k + 1);
        if cw >= rest {
            cw
        } else {
            rest
        }
    }
}

/// One wrapped line of content: the line's characters flanked by the
/// padding character on both sides.
pub open spec fn wrapped_line(s: Seq<char>, pc: char, starts: Seq<usize>, ln: int) -> Seq<char> {
    let (a, b) = line_span(s, starts, ln);
    let dend = trim_line_end(s, a, b);
    seq![pc] + s.subrange(a, dend) + seq![pc]
}

impl TableCell {
    pub closed spec fn spec_data(&self) -> Seq<char> {
        self.data@
    }

    pub closed spec fn spec_col_span(&self) -> usize {
        self.col_span
    }

    pub closed spec fn spec_alignment(&self) -> Alignment {
        self.alignment
    }

    pub closed spec fn spec_pad(&self) -> bool {
        self.pad_content
    }

    /// The cell's derived character vector mirrors its content, and a span
    /// is at least one column.
    pub closed spec fn wf(&self) -> bool {
        self.chars@ == self.data@ && self.col_span >= 1
    }

    /// The padding character: a space when padding is on, the null
    /// character otherwise.
    pub open spec fn spec_pad_char(&self) -> char {
        if self.spec_pad() {
            ' '
        } else {
            '\0'
        }
    }

    /// A cell that owns its content, with span 1, left alignment and
    /// padding.
    pub fn owned(data: String) -> (c: TableCell)
        ensures
            c.wf(),
            c.spec_data() == data@,
            c.spec_col_span() == 1,
            c.spec_alignment() == Alignment::Left,
            c.spec_pad() == true,
    {
        let chars = to_chars(data.as_str());
        TableCell { data, chars, col_span: 1, alignment: Alignment::Left, pad_content: true }
    }

    /// A cell copying the given content, with span 1, left alignment and
    /// padding.
    pub fn borrowed(data: &str) -> (c: TableCell)
        ensures
            c.wf(),
            c.spec_data() == data@,
            c.spec_col_span() == 1,
            c.spec_alignment() == Alignment::Left,
            c.spec_pad() == true,
    {
        let chars = to_chars(data);
        let owned_data = String::from_str(data);
        TableCell {
            data: owned_data,
            chars,
            col_span: 1,
            alignment: Alignment::Left,
            pad_content: true,
        }
    }

    /// Set the number of columns this cell spans.
    pub fn with_col_span(self, col_span: usize) -> (c: TableCell)
        requires
            self.wf(),
            col_span >= 1,
        ensures
            c.wf(),
            c.spec_data() == self.spec_data(),
            c.spec_col_span() == col_span,
            c.spec_alignment() == self.spec_alignment(),
            c.spec_pad() == self.spec_pad(),
    {
        let mut this = self;
        this.set_col_span(col_span);
        this
    }

    pub fn set_col_span(&mut self, col_span: usize)
        requires
            old(self).wf(),
            col_span >= 1,
        ensures
            final(self).wf(),
            final(self).spec_data() == old(self).spec_data(),
            final(self).spec_col_span() == col_span,
            final(self).spec_alignment() == old(self).spec_alignment(),
            final(self).spec_pad() == old(self).spec_pad(),
    {
        self.col_span = col_span;
    }

    pub fn with_alignment(self, alignment: Alignment) -> (c: TableCell)
        requires
            self.wf(),
        ensures
            c.wf(),
            c.spec_data() == self.spec_data(),
            c.spec_col_span() == self.spec_col_span(),
            c.spec_alignment() == alignment,
            c.spec_pad() == self.spec_pad(),
    {
        let mut this = self;
        this.set_alignment(alignment);
        this
    }

    pub fn set_alignment(&mut self, alignment: Alignment)
        requires
            old(self).wf(),
        ensures
            final(self).wf(),
            final(self).spec_data() == old(self).spec_data(),
            final(self).spec_col_span() == old(self).spec_col_span(),
            final(self).spec_alignment() == alignment,
            final(self).spec_pad() == old(self).spec_pad(),
    {
        self.alignment = alignment;
    }

    pub fn with_padding(self, padding: bool) -> (c: TableCell)
        requires
            self.wf(),
        ensures
            c.wf(),
            c.spec_data() == self.spec_data(),
            c.spec_col_span() == self.spec_col_span(),
            c.spec_alignment() == self.spec_alignment(),
            c.spec_pad() == padding,
    {
        let mut this = self;
        this.set_padding(padding);
        this
    }

    pub fn set_padding(&mut self, padding: bool)
        requires
            old(self).wf(),
        ensures
            final(self).wf(),
            final(self).spec_data() == old(self).spec_data(),
            final(self).spec_col_span() == old(self).spec_col_span(),
            final(self).spec_alignment() == old(self).spec_alignment(),
            final(self).spec_pad() == padding,
    {
        self.pad_content = padding;
    }

    /// The display width of the cell: its widest segment between mandatory
    /// breaks, plus the padding spaces.
    pub fn width(&self) -> (r: usize)
        requires
            self.wf(),
        ensures
            r as int == clamp_usize(
                max_seg(
                    cell_widths_of(self.spec_data()),
                    cell_brks_of(self.spec_data()),
                    true,
                    0,
                    0,
                ) + (if self.spec_pad() {
                    2int
                } else {
                    0int
                }),
            ),
    {
        let helper = crate::cell::Cell::borrowed(self.data.as_str());
        let helper = if self.pad_content {
            helper
        } else {
            helper.with_padding(false)
        };
        helper.min_width(true)
    }

    /// The minimum width required to display the cell: its widest single
    /// character (control characters counting one column), plus the padding
    /// spaces.
    pub fn min_width(&self) -> (r: usize)
        requires
            self.wf(),
        ensures
            r as int == max_char_width(self.spec_data(), 0) + (if self.spec_pad() {
                2int
            } else {
                0int
            }),
    {
        let n = self.chars.len();
        let mut best: usize = 0;
        let mut k: usize = 0;
        while k < n
            invariant
                self.wf(),
                n == self.spec_data().len(),
                self.chars@ == self.spec_data(),
                k <= n,
                best <= 3,
                max_char_width(self.spec_data(), 0) == (if best as int >= max_char_width(
                    self.spec_data(),
                    k as int,
                ) {
                    best as int
                } else {
                    max_char_width(self.spec_data(), k as int)
                }),
            decreases n - k,
        {
            proof {
                lemma_max_char_width_nonneg(self.spec_data(), k as int + 1);
            }
            let cw = match char_width_lookup(self.chars[k]) {
                Option::Some(cw) => cw,
                Option::None => 1,
            };
            if cw > best {
                best = cw;
            }
            k = k + 1;
        }
        if self.pad_content {
            best + 2
        } else {
            best
        }
    }

    /// Wrap the cell's content to the provided width: each line's text
    /// flanked by the padding character on both sides.
    pub fn wrapped_content(&self, width: usize) -> (r: Vec<String>)
        requires
            self.wf(),
            width >= 1,
            self.spec_pad() ==> width >= 3,
        ensures
            ({
                let starts = cell_line_starts(
                    self.spec_data(),
                    self.spec_pad(),
                    Option::Some(width as int),
                );
                r@.len() == starts.len() && (forall|ln: int|
                    0 <= ln < r@.len() ==> (#[trigger] r@[ln])@ == wrapped_line(
                        self.spec_data(),
                        self.spec_pad_char(),
                        starts,
                        ln,
                    ))
            }),
    {
        let ghost sv = self.data@;
        let (w, brks) = content_metrics(&self.data, &self.chars);
        let avail = if self.pad_content {
            width - 2
        } else {
            width
        };
        proof {
            assert(omax(Option::Some(avail)) == crate::cell::content_avail(
                self.spec_pad(),
                spec_width_opt(Option::Some(width)),
            ));
        }
        let starts = layout_lines(&w, &brks, Option::Some(avail));
        proof {
            crate::segment::lemma_line_starts_wf(w@, brks@, omax(Option::Some(avail)), 0);
        }
        let pc = if self.pad_content {
            ' '
        } else {
            '\0'
        };
        let nl = starts.len();
        let n = self.chars.len();
        let mut r: Vec<String> = Vec::new();
        let mut ln: usize = 0;
        while ln < nl
            invariant
                self.wf(),
                sv == self.spec_data(),
                n == sv.len(),
                self.chars@ == sv,
                nl == starts@.len(),
                ln <= nl,
                pc == self.spec_pad_char(),
                starts_wf(starts@, sv.len() as int),
                starts@ == cell_line_starts(sv, self.spec_pad(), Option::Some(width as int)),
                r@.len() == ln,
                forall|t: int|
                    0 <= t < ln ==> (#[trigger] r@[t])@ == wrapped_line(sv, pc, starts@, t),
            decreases nl - ln,
        {
            let a = starts[ln];
            let b = if ln + 1 < nl {
                starts[ln + 1]
            } else {
                n
            };
            proof {
                assert((a as int, b as int) == line_span(sv, starts@, ln as int));
                assert(a <= b);
            }
            let mut dend = b;
            let mut done = false;
            while !done
                invariant
                    a <= dend <= b <= n,
                    n == sv.len(),
                    self.chars@ == sv,
                    trim_line_end(sv, a as int, b as int) == trim_line_end(
                        sv,
                        a as int,
                        dend as int,
                    ),
                    done ==> trim_line_end(sv, a as int, dend as int) == dend as int,
                decreases dend - a + (if done {
                    0int
                } else {
                    1int
                }),
            {
                if dend == a {
                    done = true;
                } else {
                    let c = self.chars[dend - 1];
                    if crate::cell::is_line_break_char_exec(c) {
                        dend = dend - 1;
                    } else {
                        done = true;
                    }
                }
            }
            let mut line = String::new();
            push_char(&mut line, pc);
            let piece = self.data.as_str().substring_char(a, dend);
            line.append(piece);
            push_char(&mut line, pc);
            proof {
                assert(line@ =~= wrapped_line(sv, pc, starts@, ln as int));
            }
            r.push(line);
            ln = ln + 1;
        }
        r
    }
}

pub proof fn lemma_max_char_width_nonneg(s: Seq<char>, k: int)
    ensures
        max_char_width(s, k) >= 0,
    decreases s.len() - k,
{
    if 0 <= k < s.len() {
        lemma_max_char_width_nonneg(s, k + 1);
    }
}

impl From<String> for TableCell {
    /// A cell of the given content with the default span, alignment and
    /// padding.
    fn from(data: String) -> (c: TableCell) {
        TableCell::owned(data)
    }
}

impl vstd::std_specs::convert::FromSpecImpl<String> for TableCell {
    open spec fn obeys_from_spec() -> bool {
        false
    }

    open spec fn from_spec(v: String) -> TableCell {
        vstd::pervasive::arbitrary()
    }
}

impl From<&str> for TableCell {
    /// A cell copying the given content, with the default span, alignment
    /// and padding.
    fn from(data: &str) -> (c: TableCell) {
        TableCell::borrowed(data)
    }
}

impl vstd::std_specs::convert::FromSpecImpl<&str> for TableCell {
    open spec fn obeys_from_spec() -> bool {
        false
    }

    open spec fn from_spec(v: &str) -> TableCell {
        vstd::pervasive::arbitrary()
    }
}

/// The display width of a string, not counting ANSI escape sequences.
pub fn string_width(string: &str) -> (r: usize)
    ensures
        r as int == clamp_usize(
            seg_w(cell_widths_of(string@), 0, string@.len() as int),
        ),
{
    let chars = to_chars(string);
    let owned = String::from_str(string);
    let (w, _brks) = content_metrics(&owned, &chars);
    let total = seg_width_exec(&w, 0, w.len());
    proof {
        crate::width::lemma_seg_w_nonneg(w@, 0, w@.len() as int);
    }
    if total > usize::MAX as u128 {
        usize::MAX
    } else {
        total as usize
    }
}

} // verus!
