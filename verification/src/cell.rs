//! A table cell: content, column span, alignment and padding.
//!
//! The content's layout is fully determined by two named facts about it: the
//! terminal width of each character and the list of Unicode line-break
//! opportunities.  Both are translated to character indices here, and the
//! verified segmenter does the rest.

use vstd::prelude::*;

use crate::segment::{brks_wf, line_starts, max_seg, omax, layout_lines, starts_wf};
use crate::text::{char_run, push_char, push_run};
use crate::width::{
    ansi_spans, ansi_spans_of, break_list_of, break_opportunities, byte_of, bytes_to_chars,
    char_ix, eff_w, effective_widths, lemma_byte_of_inj, lemma_byte_of_mono, lemma_char_ix,
    lemma_seg_w_bound, lemma_seg_w_concat, lemma_seg_w_step, seg_w, to_chars,
};

verus! {

/// Horizontal alignment of content within a cell.
#[derive(Clone, Copy, Debug, Eq, PartialEq, Structural)]
pub enum Alignment {
    Left,
    Right,
    Center,
}

/// A table cell holding text.
///
/// A cell may span multiple columns by setting `col_span`, and `pad_content`
/// puts one space on either side of the content.
#[derive(Debug, Clone)]
pub struct Cell {
    content: String,
    chars: Vec<char>,
    col_span: usize,
    alignment: Alignment,
    pad_content: bool,
}

/// The ANSI escape spans of `s`, as character index ranges.
pub open spec fn char_spans(s: Seq<char>) -> Seq<(usize, usize)> {
    ansi_spans_of(s).map_values(
        |p: (usize, usize)| (char_ix(s, p.0 as int) as usize, char_ix(s, p.1 as int) as usize),
    )
}

/// Effective display width of each character of `s` (zero inside an ANSI
/// escape).
pub open spec fn cell_widths_of(s: Seq<char>) -> Seq<usize> {
    Seq::new(s.len(), |i: int| eff_w(s, char_spans(s), i))
}

/// The break opportunities of `s`, as character indices.
pub open spec fn cell_brks_of(s: Seq<char>) -> Seq<(usize, bool)> {
    break_list_of(s).map_values(|e: (usize, bool)| (char_ix(s, e.0 as int) as usize, e.1))
}

/// The available content width inside a cell of the given full width.
pub open spec fn content_avail(pad: bool, width: Option<int>) -> Option<int> {
    match width {
        Option::Some(wd) => Option::Some(
            if pad {
                wd - 2
            } else {
                wd
            },
        ),
        Option::None => Option::None,
    }
}

/// The line starts of content `s` laid out in a cell of full width `width`
/// (`None`: unbounded).
pub open spec fn cell_line_starts(s: Seq<char>, pad: bool, width: Option<int>) -> Seq<usize> {
    line_starts(cell_widths_of(s), cell_brks_of(s), content_avail(pad, width), 0)
}

/// The character-indexed break list of `content`, with its well-formedness.
#[verifier::rlimit(60)]
#[verifier::spinoff_prover]
fn content_brks(content: &String, chars: &Vec<char>) -> (r: Vec<(usize, bool)>)
    requires
        chars@ == content@,
    ensures
        r@ == cell_brks_of(content@),
        brks_wf(r@, content@.len() as int),
{
    let s = content.as_str();
    let ghost sv = content@;
    let raw_brks = break_opportunities(s);

    let mut brk_pos: Vec<usize> = Vec::new();
    let mut k: usize = 0;
    while k < raw_brks.len()
        invariant
            k <= raw_brks@.len(),
            brk_pos@.len() == k,
            forall|t: int| 0 <= t < k ==> brk_pos@[t] == raw_brks@[t].0,
        decreases raw_brks@.len() - k,
    {
        brk_pos.push(raw_brks[k].0);
        k = k + 1;
    }
    proof {
        assert forall|t: int| 0 < t < brk_pos@.len() implies (#[trigger] brk_pos@[t])
            >= brk_pos@[t - 1] by {
            assert((raw_brks@[t]).0 > raw_brks@[t - 1].0);
        }
        assert forall|t: int| 0 <= t < brk_pos@.len() implies crate::width::is_boundary(
            chars@,
            brk_pos@[t] as int,
        ) by {
            assert(raw_brks@[t].0 <= crate::width::byte_len(sv) && crate::width::is_boundary(
                sv,
                raw_brks@[t].0 as int,
            ));
        }
    }
    let brk_chars = bytes_to_chars(chars, &brk_pos);
    proof {
        assert forall|t: int| 0 <= t < brk_chars@.len() implies brk_chars@[t] <= sv.len()
            && byte_of(sv, brk_chars@[t] as int) == raw_brks@[t].0 as int by {
            assert(brk_chars@[t] <= chars@.len() && byte_of(chars@, brk_chars@[t] as int)
                == brk_pos@[t] as int);
            assert(brk_pos@[t] == raw_brks@[t].0);
        }
    }
    let mut brks: Vec<(usize, bool)> = Vec::new();
    let mut k: usize = 0;
    while k < raw_brks.len()
        invariant
            chars@ == sv,
            k <= raw_brks@.len(),
            raw_brks@ == break_list_of(sv),
            brk_chars@.len() == raw_brks@.len(),
            forall|t: int|
                0 <= t < brk_chars@.len() ==> brk_chars@[t] <= sv.len() && byte_of(
                    sv,
                    brk_chars@[t] as int,
                ) == raw_brks@[t].0 as int,
            brks@.len() == k,
            forall|t: int| 0 <= t < k ==> brks@[t] == (cell_brks_of(sv)[t]),
            forall|t: int| 0 <= t < k ==> (#[trigger] brks@[t]).0 == brk_chars@[t],
        decreases raw_brks@.len() - k,
    {
        let (_, mand) = raw_brks[k];
        let ci = brk_chars[k];
        proof {
            lemma_char_ix(sv, ci as int);
        }
        brks.push((ci, mand));
        k = k + 1;
    }
    proof {
        assert(brks@ =~= cell_brks_of(sv));
        assert forall|t: int| 0 <= t < brks@.len() implies (#[trigger] brks@[t]).0
            <= sv.len() as int by {
            assert(brks@[t].0 == brk_chars@[t]);
        }
        assert forall|t: int| 0 < t < brks@.len() implies (#[trigger] brks@[t]).0 > brks@[t
            - 1].0 by {
            assert(raw_brks@[t].0 > raw_brks@[t - 1].0);
            assert(brks@[t].0 == brk_chars@[t] && brks@[t - 1].0 == brk_chars@[t - 1]);
            if brk_chars@[t] <= brk_chars@[t - 1] {
                lemma_byte_of_mono(sv, brk_chars@[t] as int, brk_chars@[t - 1] as int);
            }
        }
        if sv.len() > 0 {
            assert(raw_brks@.len() > 0 && raw_brks@[raw_brks@.len() - 1].0
                == crate::width::byte_len(sv));
            let last = brks@.len() - 1;
            assert(byte_of(sv, brk_chars@[last] as int) == crate::width::byte_len(sv));
            lemma_byte_of_inj(sv, brk_chars@[last] as int, sv.len() as int);
            assert(brks@[last].0 == brk_chars@[last]);
        }
        assert(brks_wf(brks@, sv.len() as int));
    }
    brks
}

/// The effective per-character display widths of `content`.
#[verifier::rlimit(60)]
#[verifier::spinoff_prover]
fn content_eff_widths(content: &String, chars: &Vec<char>) -> (r: Vec<usize>)
    requires
        chars@ == content@,
    ensures
        r@ == cell_widths_of(content@),
        r@.len() == content@.len(),
        forall|i: int| 0 <= i < r@.len() ==> r@[i] <= 3,
{
    let s = content.as_str();
    let ghost sv = content@;
    let raw_spans = ansi_spans(s);

    let mut span_starts: Vec<usize> = Vec::new();
    let mut span_ends: Vec<usize> = Vec::new();
    let mut k: usize = 0;
    while k < raw_spans.len()
        invariant
            k <= raw_spans@.len(),
            span_starts@.len() == k,
            span_ends@.len() == k,
            forall|t: int| 0 <= t < k ==> span_starts@[t] == raw_spans@[t].0,
            forall|t: int| 0 <= t < k ==> span_ends@[t] == raw_spans@[t].1,
        decreases raw_spans@.len() - k,
    {
        let (a, b) = raw_spans[k];
        span_starts.push(a);
        span_ends.push(b);
        k = k + 1;
    }
    proof {
        assert forall|t: int| 0 < t < span_starts@.len() implies (#[trigger] span_starts@[t])
            >= span_starts@[t - 1] by {
            assert((raw_spans@[t]).0 >= raw_spans@[t - 1].1);
            assert((raw_spans@[t - 1]).0 <= raw_spans@[t - 1].1);
        }
        assert forall|t: int| 0 < t < span_ends@.len() implies (#[trigger] span_ends@[t])
            >= span_ends@[t - 1] by {
            assert((raw_spans@[t]).0 >= raw_spans@[t - 1].1);
            assert((raw_spans@[t]).0 <= raw_spans@[t].1);
        }
        assert forall|t: int| 0 <= t < span_starts@.len() implies crate::width::is_boundary(
            chars@,
            span_starts@[t] as int,
        ) by {
            assert((raw_spans@[t]).0 <= raw_spans@[t].1 && crate::width::is_boundary(
                sv,
                raw_spans@[t].0 as int,
            ));
        }
        assert forall|t: int| 0 <= t < span_ends@.len() implies crate::width::is_boundary(
            chars@,
            span_ends@[t] as int,
        ) by {
            assert((raw_spans@[t]).0 <= raw_spans@[t].1 && crate::width::is_boundary(
                sv,
                raw_spans@[t].1 as int,
            ));
        }
    }
    let cs_starts = bytes_to_chars(chars, &span_starts);
    let cs_ends = bytes_to_chars(chars, &span_ends);
    proof {
        assert forall|t: int| 0 <= t < cs_starts@.len() implies cs_starts@[t] <= sv.len()
            && byte_of(sv, cs_starts@[t] as int) == raw_spans@[t].0 as int by {
            assert(cs_starts@[t] <= chars@.len() && byte_of(chars@, cs_starts@[t] as int)
                == span_starts@[t] as int);
            assert(span_starts@[t] == raw_spans@[t].0);
        }
        assert forall|t: int| 0 <= t < cs_ends@.len() implies cs_ends@[t] <= sv.len()
            && byte_of(sv, cs_ends@[t] as int) == raw_spans@[t].1 as int by {
            assert(cs_ends@[t] <= chars@.len() && byte_of(chars@, cs_ends@[t] as int)
                == span_ends@[t] as int);
            assert(span_ends@[t] == raw_spans@[t].1);
        }
    }
    let mut spans: Vec<(usize, usize)> = Vec::new();
    let mut k: usize = 0;
    while k < cs_starts.len()
        invariant
            chars@ == sv,
            k <= cs_starts@.len(),
            cs_starts@.len() == raw_spans@.len(),
            cs_ends@.len() == raw_spans@.len(),
            raw_spans@ == ansi_spans_of(sv),
            forall|t: int|
                0 <= t < cs_starts@.len() ==> cs_starts@[t] <= sv.len() && byte_of(
                    sv,
                    cs_starts@[t] as int,
                ) == raw_spans@[t].0 as int,
            forall|t: int|
                0 <= t < cs_ends@.len() ==> cs_ends@[t] <= sv.len() && byte_of(
                    sv,
                    cs_ends@[t] as int,
                ) == raw_spans@[t].1 as int,
            spans@.len() == k,
            forall|t: int| 0 <= t < k ==> spans@[t] == (char_spans(sv)[t]),
        decreases cs_starts@.len() - k,
    {
        let a = cs_starts[k];
        let b = cs_ends[k];
        proof {
            lemma_char_ix(sv, a as int);
            lemma_char_ix(sv, b as int);
        }
        spans.push((a, b));
        k = k + 1;
    }
    proof {
        assert(spans@ =~= char_spans(sv));
    }
    let widths = effective_widths(chars, &spans);
    proof {
        assert(widths@ =~= cell_widths_of(sv));
    }
    widths
}

/// Compute the per-character widths and the character-indexed break list of
/// `content`.
pub(crate) fn content_metrics(content: &String, chars: &Vec<char>) -> (r: (
    Vec<usize>,
    Vec<(usize, bool)>,
))
    requires
        chars@ == content@,
    ensures
        r.0@ == cell_widths_of(content@),
        r.1@ == cell_brks_of(content@),
        brks_wf(r.1@, content@.len() as int),
        r.0@.len() == content@.len(),
        forall|i: int| 0 <= i < r.0@.len() ==> r.0@[i] <= 3,
{
    let widths = content_eff_widths(content, chars);
    let brks = content_brks(content, chars);
    (widths, brks)
}

impl Cell {
    /// The cell's derived character vector mirrors its content, and a span is
    /// at least one column.
    pub closed spec fn wf(&self) -> bool {
        self.chars@ == self.content@ && self.col_span >= 1
    }

    pub closed spec fn spec_content(&self) -> Seq<char> {
        self.content@
    }

    pub closed spec fn spec_col_span(&self) -> usize {
        self.col_span
    }

    pub closed spec fn spec_alignment(&self) -> Alignment {
        self.alignment
    }

    pub closed spec fn spec_pad(&self) -> bool {
        self.pad_content
    }


    /// The number of columns this cell spans.
    pub fn col_span_value(&self) -> (r: usize)
        requires
            self.wf(),
        ensures
            r == self.spec_col_span(),
            r >= 1,
    {
        self.col_span
    }

    /// A well-formed cell spans at least one column.
    pub proof fn lemma_wf_span(&self)
        requires
            self.wf(),
        ensures
            self.spec_col_span() >= 1,
    {
    }

    /// Whether the cell pads its content with one space on each side.
    pub fn pad_value(&self) -> (r: bool)
        ensures
            r == self.spec_pad(),
    {
        self.pad_content
    }

    /// A cell that owns its content, with span 1, left alignment and
    /// padding.
    pub fn owned(content: String) -> (c: Cell)
        ensures
            c.wf(),
            c.spec_content() == content@,
            c.spec_col_span() == 1,
            c.spec_alignment() == Alignment::Left,
            c.spec_pad() == true,
    {
        let chars = to_chars(content.as_str());
        Cell { content, chars, col_span: 1, alignment: Alignment::Left, pad_content: true }
    }

    /// A cell copying the given content, with span 1, left alignment and
    /// padding.
    pub fn borrowed(content: &str) -> (c: Cell)
        ensures
            c.wf(),
            c.spec_content() == content@,
            c.spec_col_span() == 1,
            c.spec_alignment() == Alignment::Left,
            c.spec_pad() == true,
    {
        let chars = to_chars(content);
        let owned_content = String::from_str(content);
        Cell {
            content: owned_content,
            chars,
            col_span: 1,
            alignment: Alignment::Left,
            pad_content: true,
        }
    }

    pub fn with_content(self, content: &str) -> (c: Cell)
        requires
            self.wf(),
        ensures
            c.wf(),
            c.spec_content() == content@,
            c.spec_col_span() == self.spec_col_span(),
            c.spec_alignment() == self.spec_alignment(),
            c.spec_pad() == self.spec_pad(),
    {
        let mut this = self;
        this.set_content(content);
        this
    }

    pub fn set_content(&mut self, content: &str)
        requires
            old(self).wf(),
        ensures
            final(self).wf(),
            final(self).spec_content() == content@,
            final(self).spec_col_span() == old(self).spec_col_span(),
            final(self).spec_alignment() == old(self).spec_alignment(),
            final(self).spec_pad() == old(self).spec_pad(),
    {
        self.chars = to_chars(content);
        self.content = String::from_str(content);
    }

    /// Set the number of columns this cell spans; a span of zero is not a
    /// meaningful table.
    pub fn with_col_span(self, col_span: usize) -> (c: Cell)
        requires
            self.wf(),
            col_span >= 1,
        ensures
            c.wf(),
            c.spec_content() == self.spec_content(),
            c.spec_col_span() == col_span,
            c.spec_alignment() == self.spec_alignment(),
            c.spec_pad() == self.spec_pad(),
    {
        let mut this = self;
        this.set_col_span(col_span);
        this
    }

    pub fn set_col_span(&mut self, col_span: usize)
        requires
            old(self).wf(),
            col_span >= 1,
        ensures
            final(self).wf(),
            final(self).spec_content() == old(self).spec_content(),
            final(self).spec_col_span() == col_span,
            final(self).spec_alignment() == old(self).spec_alignment(),
            final(self).spec_pad() == old(self).spec_pad(),
    {
        self.col_span = col_span;
    }

    pub fn with_alignment(self, alignment: Alignment) -> (c: Cell)
        requires
            self.wf(),
        ensures
            c.wf(),
            c.spec_content() == self.spec_content(),
            c.spec_col_span() == self.spec_col_span(),
            c.spec_alignment() == alignment,
            c.spec_pad() == self.spec_pad(),
    {
        let mut this = self;
        this.set_alignment(alignment);
        this
    }

    pub fn set_alignment(&mut self, alignment: Alignment)
        requires
            old(self).wf(),
        ensures
            final(self).wf(),
            final(self).spec_content() == old(self).spec_content(),
            final(self).spec_col_span() == old(self).spec_col_span(),
            final(self).spec_alignment() == alignment,
            final(self).spec_pad() == old(self).spec_pad(),
    {
        self.alignment = alignment;
    }

    pub fn with_padding(self, padding: bool) -> (c: Cell)
        requires
            self.wf(),
        ensures
            c.wf(),
            c.spec_content() == self.spec_content(),
            c.spec_col_span() == self.spec_col_span(),
            c.spec_alignment() == self.spec_alignment(),
            c.spec_pad() == padding,
    {
        let mut this = self;
        this.set_padding(padding);
        this
    }

    pub fn set_padding(&mut self, padding: bool)
        requires
            old(self).wf(),
        ensures
            final(self).wf(),
            final(self).spec_content() == old(self).spec_content(),
            final(self).spec_col_span() == old(self).spec_col_span(),
            final(self).spec_alignment() == old(self).spec_alignment(),
            final(self).spec_pad() == padding,
    {
        self.pad_content = padding;
    }

    /// Lay the content out at the given full cell width (`None`: unbounded),
    /// returning the list of line-start character indices.
    pub(crate) fn layout(&self, width: Option<usize>) -> (r: Vec<usize>)
        requires
            self.wf(),
            match width {
                Option::Some(wd) => wd >= 1 && (self.spec_pad() ==> wd >= 3),
                Option::None => true,
            },
        ensures
            r@ == cell_line_starts(self.spec_content(), self.spec_pad(), spec_width_opt(width)),
            r@.len() >= 1,
            starts_wf(r@, self.spec_content().len() as int),
            r@[0] == 0,
    {
        let (w, brks) = content_metrics(&self.content, &self.chars);
        let avail: Option<usize> = match width {
            Option::Some(wd) => Option::Some(
                if self.pad_content {
                    wd - 2
                } else {
                    wd
                },
            ),
            Option::None => Option::None,
        };
        proof {
            assert(omax(avail) == content_avail(self.spec_pad(), spec_width_opt(width)));
            crate::segment::lemma_line_starts_wf(w@, brks@, omax(avail), 0);
        }
        layout_lines(&w, &brks, avail)
    }
}


/// A character that terminates a line at a mandatory break.
pub open spec fn is_line_break_char(c: char) -> bool {
    c == '\n' || c == '\r' || c == '\u{b}' || c == '\u{c}' || c == '\u{85}' || c == '\u{2028}'
        || c == '\u{2029}'
}

/// Drop the trailing line-break characters of the line `[start, end)`.
pub open spec fn trim_line_end(s: Seq<char>, start: int, end: int) -> int
    decreases end - start,
{
    if end <= start {
        end
    } else if is_line_break_char(s[end - 1]) {
        trim_line_end(s, start, end - 1)
    } else {
        end
    }
}

pub proof fn lemma_trim_line_end_range(s: Seq<char>, start: int, end: int)
    requires
        start <= end,
    ensures
        start <= trim_line_end(s, start, end) <= end,
    decreases end - start,
{
    if end > start && is_line_break_char(s[end - 1]) {
        lemma_trim_line_end_range(s, start, end - 1);
    }
}

/// The half-open character range of line `ln` given the line starts: past
/// the layout, the empty range at the end of the content.
pub open spec fn line_span(s: Seq<char>, starts: Seq<usize>, ln: int) -> (int, int) {
    if 0 <= ln < starts.len() {
        (
            starts[ln] as int,
            if ln + 1 < starts.len() {
                starts[ln + 1] as int
            } else {
                s.len() as int
            },
        )
    } else {
        (s.len() as int, s.len() as int)
    }
}

/// The display width of line `ln`, after trimming, fits in a cell of full
/// width `width`.
pub open spec fn line_fits(
    s: Seq<char>,
    pad: bool,
    starts: Seq<usize>,
    ln: int,
    width: int,
) -> bool {
    let (a, b) = line_span(s, starts, ln);
    let dend = trim_line_end(s, a, b);
    seg_w(cell_widths_of(s), a, dend) + (if pad {
        2int
    } else {
        0int
    }) <= width
}

/// One rendered line of a cell: optional padding space, alignment fill, the
/// trimmed line text, the remaining fill, optional padding space.
pub open spec fn rendered_line(
    s: Seq<char>,
    pad: bool,
    a: Alignment,
    width: int,
    start: int,
    end: int,
) -> Seq<char> {
    let dend = trim_line_end(s, start, end);
    let lw = seg_w(cell_widths_of(s), start, dend);
    let avail = if pad {
        width - 2
    } else {
        width
    };
    let gap = avail - lw;
    let front = match a {
        Alignment::Left => 0int,
        Alignment::Center => gap / 2,
        Alignment::Right => gap,
    };
    let back = gap - front;
    let edge = if pad {
        seq![' ']
    } else {
        Seq::<char>::empty()
    };
    edge + char_run(' ', front) + s.subrange(start, dend) + char_run(' ', back) + edge
}

/// Line `ln` of a cell under the given layout (a blank, fully padded line
/// when the cell has fewer lines than its row).
pub open spec fn rendered_cell_line(
    s: Seq<char>,
    pad: bool,
    a: Alignment,
    width: int,
    starts: Seq<usize>,
    ln: int,
) -> Seq<char> {
    let (start, end) = line_span(s, starts, ln);
    rendered_line(s, pad, a, width, start, end)
}

pub(crate) fn is_line_break_char_exec(c: char) -> (r: bool)
    ensures
        r == is_line_break_char(c),
{
    c == '\n' || c == '\r' || c == '\u{b}' || c == '\u{c}' || c == '\u{85}' || c == '\u{2028}'
        || c == '\u{2029}'
}

/// The clamp of an unbounded width to the machine's word.
pub open spec fn clamp_usize(x: int) -> int {
    if x > usize::MAX as int {
        usize::MAX as int
    } else {
        x
    }
}

/// Width of a cell spanning `span` columns: the spanned column widths plus
/// the swallowed interior borders.
pub open spec fn span_w(cws: Seq<usize>, idx: int, span: int, bw: int) -> int {
    seg_w(cws, idx, idx + span) + bw * (span - 1)
}

impl Cell {
    /// The minimum width at which the cell can be shown: its widest segment
    /// between retained break positions (only the mandatory ones if
    /// `only_mandatory`), plus two for padding.
    pub open spec fn spec_min_width(s: Seq<char>, pad: bool, only_mandatory: bool) -> int {
        max_seg(cell_widths_of(s), cell_brks_of(s), only_mandatory, 0, 0) + (if pad {
            2int
        } else {
            0int
        })
    }

    /// The minimum width required to display the cell without losing
    /// information (`only_mandatory`) or without soft wrapping (otherwise).
    pub fn min_width(&self, only_mandatory: bool) -> (r: usize)
        requires
            self.wf(),
        ensures
            r as int == clamp_usize(
                Cell::spec_min_width(self.spec_content(), self.spec_pad(), only_mandatory),
            ),
    {
        let (w, brks) = content_metrics(&self.content, &self.chars);
        let ghost sv = self.content@;
        let n = w.len();
        let mut best: u128 = 0;
        let mut prev: usize = 0;
        let mut acc: u128 = 0;
        let mut k: usize = 0;
        let ghost full = max_seg(w@, brks@, only_mandatory, 0, 0);
        proof {
            crate::segment::lemma_max_seg_nonneg(w@, brks@, only_mandatory, 0, 0);
        }
        while k < brks.len()
            invariant
                w@ == cell_widths_of(sv),
                brks@ == cell_brks_of(sv),
                brks_wf(brks@, sv.len() as int),
                n == w@.len(),
                n == sv.len(),
                forall|t: int| 0 <= t < w@.len() ==> w@[t] <= 3,
                k <= brks@.len(),
                prev <= n,
                full == (if best as int >= max_seg(w@, brks@, only_mandatory, prev as int, k as int) {
                    best as int
                } else {
                    max_seg(w@, brks@, only_mandatory, prev as int, k as int)
                }),
                best <= 3 * (n as u128),
            decreases brks@.len() - k,
        {
            let (p, mand) = brks[k];
            proof {
                assert((brks@[k as int]).0 <= sv.len());
            }
            if (only_mandatory && !mand) || p <= prev {
                k = k + 1;
            } else {
                let seg = crate::width::seg_width_exec(&w, prev, p);
                proof {
                    crate::width::lemma_seg_w_bound(w@, prev as int, p as int, 3);
                }
                proof {
                    crate::segment::lemma_max_seg_nonneg(w@, brks@, only_mandatory, p as int, k + 1);
                }
                if seg > best {
                    best = seg;
                }
                prev = p;
                k = k + 1;
            }
        }
        let tail = crate::width::seg_width_exec(&w, prev, n);
        proof {
            crate::width::lemma_seg_w_bound(w@, prev as int, n as int, 3);
        }
        if tail > best {
            best = tail;
        }
        let padc: u128 = if self.pad_content {
            2
        } else {
            0
        };
        let total = best + padc;
        if total > usize::MAX as u128 {
            usize::MAX
        } else {
            total as usize
        }
    }

    /// Total displayed width of this cell given the column widths, starting
    /// at column `idx`: the spanned columns plus the interior borders.
    /// `None` when the sum does not fit the machine word.
    pub(crate) fn width(&self, border_width: usize, cell_widths: &Vec<usize>, idx: usize) -> (r:
        Option<usize>)
        requires
            self.wf(),
            border_width <= 3,
            idx + self.spec_col_span() <= cell_widths@.len(),
        ensures
            match r {
                Option::Some(t) => t as int == span_w(
                    cell_widths@,
                    idx as int,
                    self.spec_col_span() as int,
                    border_width as int,
                ) && t as int <= usize::MAX as int,
                Option::None => span_w(
                    cell_widths@,
                    idx as int,
                    self.spec_col_span() as int,
                    border_width as int,
                ) > usize::MAX as int,
            },
    {
        let nlen = cell_widths.len();
        let end = idx + self.col_span;
        let ghost total = span_w(
            cell_widths@,
            idx as int,
            self.spec_col_span() as int,
            border_width as int,
        );
        let mut acc: u128 = 0;
        let mut c = idx;
        while c < end
            invariant
                idx <= c <= end <= cell_widths@.len(),
                end as int == idx + self.spec_col_span(),
                border_width <= 3,
                self.spec_col_span() >= 1,
                acc == seg_w(cell_widths@, idx as int, c as int),
                acc <= usize::MAX as u128,
            decreases end - c,
        {
            proof {
                lemma_seg_w_step(cell_widths@, idx as int, c as int);
            }
            acc = acc + cell_widths[c] as u128;
            if acc > usize::MAX as u128 {
                proof {
                    lemma_seg_w_concat(cell_widths@, idx as int, c + 1, idx + self.spec_col_span());
                    crate::width::lemma_seg_w_nonneg(
                        cell_widths@,
                        c + 1,
                        idx + self.spec_col_span(),
                    );
                    assert(border_width * (self.spec_col_span() - 1) >= 0) by (nonlinear_arith)
                        requires
                            border_width >= 0,
                            self.spec_col_span() >= 1,
                    ;
                }
                return Option::None;
            }
            c = c + 1;
        }
        let mut t: usize = 1;
        while t < self.col_span
            invariant
                1 <= t <= self.spec_col_span(),
                border_width <= 3,
                acc == seg_w(cell_widths@, idx as int, idx + self.spec_col_span())
                    + border_width * (t - 1),
                acc <= usize::MAX as u128,
            decreases self.spec_col_span() - t,
        {
            proof {
                assert(border_width * (t as int) == border_width * (t as int - 1)
                    + border_width) by (nonlinear_arith);
            }
            acc = acc + border_width as u128;
            if acc > usize::MAX as u128 {
                proof {
                    assert(border_width * (self.spec_col_span() - 1) >= border_width * (t as int))
                        by (nonlinear_arith)
                        requires
                            border_width >= 0,
                            t as int <= self.spec_col_span() - 1,
                    ;
                    crate::width::lemma_seg_w_nonneg(
                        cell_widths@,
                        idx as int,
                        idx + self.spec_col_span(),
                    );
                }
                return Option::None;
            }
            t = t + 1;
        }
        Option::Some(acc as usize)
    }


    /// Whether line `ln` of the cell, under the given layout, fits a cell of
    /// full width `width`.
    pub(crate) fn line_fit(&self, starts: &Vec<usize>, ln: usize, width: usize) -> (r: bool)
        requires
            self.wf(),
            starts_wf(starts@, self.spec_content().len() as int),
        ensures
            r == line_fits(
                self.spec_content(),
                self.spec_pad(),
                starts@,
                ln as int,
                width as int,
            ),
    {
        let (w, _brks) = content_metrics(&self.content, &self.chars);
        let ghost sv = self.content@;
        let n = self.chars.len();
        let (a, b): (usize, usize) = if ln < starts.len() {
            let a0 = starts[ln];
            let b0 = if ln + 1 < starts.len() {
                starts[ln + 1]
            } else {
                n
            };
            (a0, b0)
        } else {
            (n, n)
        };
        proof {
            assert((a as int, b as int) == line_span(sv, starts@, ln as int));
            assert(a <= b);
        }
        let mut dend = b;
        let mut done = false;
        while !done
            invariant
                a <= dend <= b <= n,
                n == sv.len(),
                self.chars@ == sv,
                trim_line_end(sv, a as int, b as int) == trim_line_end(sv, a as int, dend as int),
                done ==> trim_line_end(sv, a as int, dend as int) == dend as int,
            decreases dend - a + (if done {
                0int
            } else {
                1int
            }),
        {
            if dend == a {
                done = true;
            } else {
                let c = self.chars[dend - 1];
                if is_line_break_char_exec(c) {
                    dend = dend - 1;
                } else {
                    done = true;
                }
            }
        }
        let lw = crate::width::seg_width_exec(&w, a, dend);
        proof {
            crate::width::lemma_seg_w_bound(w@, a as int, dend as int, 3);
        }
        let padc: u128 = if self.pad_content {
            2
        } else {
            0
        };
        lw + padc <= width as u128
    }

    /// Render one line of the cell at the given full width, using the line
    /// starts of a previous layout.
    pub(crate) fn render_line(
        &self,
        starts: &Vec<usize>,
        line_idx: usize,
        width: usize,
    ) -> (r: String)
        requires
            self.wf(),
            starts_wf(starts@, self.spec_content().len() as int),
            line_fits(self.spec_content(), self.spec_pad(), starts@, line_idx as int, width as int),
        ensures
            r@ == rendered_cell_line(
                self.spec_content(),
                self.spec_pad(),
                self.spec_alignment(),
                width as int,
                starts@,
                line_idx as int,
            ),
    {
        let (w, _brks) = content_metrics(&self.content, &self.chars);
        let ghost sv = self.content@;
        let n = self.chars.len();
        let (a, b): (usize, usize) = if line_idx < starts.len() {
            let a0 = starts[line_idx];
            let b0 = if line_idx + 1 < starts.len() {
                starts[line_idx + 1]
            } else {
                n
            };
            (a0, b0)
        } else {
            (n, n)
        };
        proof {
            assert((a as int, b as int) == line_span(sv, starts@, line_idx as int));
            assert(a <= b);
        }
        let mut dend = b;
        let mut done = false;
        while !done
            invariant
                a <= dend <= b <= n,
                n == sv.len(),
                self.chars@ == sv,
                trim_line_end(sv, a as int, b as int) == trim_line_end(sv, a as int, dend as int),
                done ==> trim_line_end(sv, a as int, dend as int) == dend as int,
            decreases dend - a + (if done {
                0int
            } else {
                1int
            }),
        {
            if dend == a {
                done = true;
            } else {
                let c = self.chars[dend - 1];
                if is_line_break_char_exec(c) {
                    dend = dend - 1;
                } else {
                    done = true;
                }
            }
        }
        let lw128 = crate::width::seg_width_exec(&w, a, dend);
        proof {
            crate::width::lemma_seg_w_nonneg(w@, a as int, dend as int);
        }
        let lw = lw128 as usize;
        let avail = if self.pad_content {
            width - 2
        } else {
            width
        };
        let gap = avail - lw;
        let front: usize = match self.alignment {
            Alignment::Left => 0,
            Alignment::Center => gap / 2,
            Alignment::Right => gap,
        };
        let back = gap - front;
        let mut out = String::new();
        if self.pad_content {
            push_char(&mut out, ' ');
        }
        push_run(&mut out, ' ', front);
        let piece = self.content.as_str().substring_char(a, dend);
        out.append(piece);
        push_run(&mut out, ' ', back);
        if self.pad_content {
            push_char(&mut out, ' ');
        }
        proof {
            assert(out@ =~= rendered_cell_line(
                self.spec_content(),
                self.spec_pad(),
                self.spec_alignment(),
                width as int,
                starts@,
                line_idx as int,
            ));
        }
        out
    }
}



/// A cell laid out with unbounded width never needs more lines than the
/// same cell laid out at any finite width.
pub proof fn lemma_cell_unbounded_fewest_lines(s: Seq<char>, pad: bool, width: int)
    ensures
        brks_wf(cell_brks_of(s), s.len() as int) ==> cell_line_starts(s, pad, Option::None).len()
            <= cell_line_starts(s, pad, Option::Some(width)).len(),
{
    if brks_wf(cell_brks_of(s), s.len() as int) {
        let avail = if pad {
            width - 2
        } else {
            width
        };
        crate::segment::lemma_unbounded_fewest_lines(
            cell_widths_of(s),
            cell_brks_of(s),
            avail,
            0,
            0,
        );
    }
}

/// Every mandatory break inside a cell's content starts a line of its
/// layout, whatever width the cell is given.
pub proof fn lemma_cell_mandatory_honored(s: Seq<char>, pad: bool, width: Option<int>, j: int)
    ensures
        (brks_wf(cell_brks_of(s), s.len() as int) && 0 <= j < cell_brks_of(s).len()
            && cell_brks_of(s)[j].1 && 0 < cell_brks_of(s)[j].0 < s.len()) ==> cell_line_starts(
            s,
            pad,
            width,
        ).contains(cell_brks_of(s)[j].0),
{
    if brks_wf(cell_brks_of(s), s.len() as int) && 0 <= j < cell_brks_of(s).len()
        && cell_brks_of(s)[j].1 && 0 < cell_brks_of(s)[j].0 < s.len() {
        crate::segment::lemma_mandatory_honored(
            cell_widths_of(s),
            cell_brks_of(s),
            content_avail(pad, width),
            0,
            j,
        );
    }
}


/// A cell's line count is monotonically non-increasing as its width grows,
/// once the width reaches the cell's minimum width (its widest segment
/// between any two break opportunities).
pub proof fn lemma_cell_line_count_monotone(s: Seq<char>, pad: bool, w1: int, w2: int)
    ensures
        (brks_wf(cell_brks_of(s), s.len() as int) && w2 <= w1 && Cell::spec_min_width(
            s,
            pad,
            false,
        ) <= w2) ==> cell_line_starts(s, pad, Option::Some(w1)).len() <= cell_line_starts(
            s,
            pad,
            Option::Some(w2),
        ).len(),
{
    if brks_wf(cell_brks_of(s), s.len() as int) && w2 <= w1 && Cell::spec_min_width(s, pad, false)
        <= w2 {
        let a1 = if pad {
            w1 - 2
        } else {
            w1
        };
        let a2 = if pad {
            w2 - 2
        } else {
            w2
        };
        crate::segment::lemma_line_count_monotone(cell_widths_of(s), cell_brks_of(s), a1, a2);
    }
}

impl From<String> for Cell {
    /// A cell of the given content with the default span, alignment and
    /// padding.
    fn from(content: String) -> (c: Cell) {
        Cell::owned(content)
    }
}

impl vstd::std_specs::convert::FromSpecImpl<String> for Cell {
    open spec fn obeys_from_spec() -> bool {
        false
    }

    open spec fn from_spec(v: String) -> Cell {
        vstd::pervasive::arbitrary()
    }
}

impl From<&str> for Cell {
    /// A cell copying the given content, with the default span, alignment
    /// and padding.
    fn from(content: &str) -> (c: Cell) {
        Cell::borrowed(content)
    }
}

impl vstd::std_specs::convert::FromSpecImpl<&str> for Cell {
    open spec fn obeys_from_spec() -> bool {
        false
    }

    open spec fn from_spec(v: &str) -> Cell {
        vstd::pervasive::arbitrary()
    }
}

/// Spec view of an optional executable width.
pub open spec fn spec_width_opt(width: Option<usize>) -> Option<int> {
    match width {
        Option::Some(wd) => Option::Some(wd as int),
        Option::None => Option::None,
    }
}

} // verus!
