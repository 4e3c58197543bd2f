//! Display-width accounting for cell content.
//!
//! Terminal display width is taken from the `unicode_width` crate and is
//! opaque to the verifier: `char_width_of` names the width of a character and
//! everything else is defined on top of that name.  Embedded ANSI escape
//! sequences are located with the `regex` crate; the characters inside a
//! match count zero columns but stay in the text.

use vstd::prelude::*;

verus! {

/// The terminal display width of one character, as `unicode_width` reports
/// it: `None` for a control character.
pub uninterp spec fn char_width_opt(c: char) -> Option<usize>;

/// The display width a character occupies in a rendered line: control
/// characters occupy no columns.
pub open spec fn char_width_of(c: char) -> usize {
    match char_width_opt(c) {
        Option::Some(cw) => cw,
        Option::None => 0,
    }
}

/// Relies on `unicode_width::UnicodeWidthChar::width`: the displayed width of
/// a character in terminal columns, `None` for a control character.  The
/// width tables of the crate only hold the values 0 through 3.
#[verifier::external_body]
pub(crate) fn char_width_lookup(c: char) -> (r: Option<usize>)
    ensures
        r == char_width_opt(c),
        match r {
            Option::Some(cw) => cw <= 3,
            Option::None => true,
        },
{
    unicode_width::UnicodeWidthChar::width(c)
}

/// The display width of one character in a rendered line.
pub(crate) fn char_display_width(c: char) -> (r: usize)
    ensures
        r == char_width_of(c),
        r <= 3,
{
    match char_width_lookup(c) {
        Option::Some(cw) => cw,
        Option::None => 0,
    }
}

/// Number of bytes of the UTF-8 encoding of `c`.
pub open spec fn utf8_len(c: char) -> int {
    if (c as u32) < 0x80 {
        1
    } else if (c as u32) < 0x800 {
        2
    } else if (c as u32) < 0x10000 {
        3
    } else {
        4
    }
}

/// Byte offset of the character at index `i` in the UTF-8 encoding of `s`.
pub open spec fn byte_of(s: Seq<char>, i: int) -> int
    decreases i,
{
    if i <= 0 {
        0
    } else {
        byte_of(s, i - 1) + utf8_len(s[i - 1])
    }
}

/// Total byte length of the UTF-8 encoding of `s`.
pub open spec fn byte_len(s: Seq<char>) -> int {
    byte_of(s, s.len() as int)
}

/// `b` is the byte offset of some character boundary of `s`.
pub open spec fn is_boundary(s: Seq<char>, b: int) -> bool {
    exists|i: int| 0 <= i <= s.len() && byte_of(s, i) == b
}

pub proof fn lemma_byte_of_mono(s: Seq<char>, i: int, j: int)
    requires
        0 <= i <= j,
    ensures
        byte_of(s, i) + (j - i) <= byte_of(s, j),
    decreases j - i,
{
    if i < j {
        lemma_byte_of_mono(s, i, j - 1);
    }
}

pub proof fn lemma_byte_of_inj(s: Seq<char>, i: int, j: int)
    requires
        0 <= i,
        0 <= j,
        byte_of(s, i) == byte_of(s, j),
    ensures
        i == j,
{
    if i < j {
        lemma_byte_of_mono(s, i, j);
    } else if j < i {
        lemma_byte_of_mono(s, j, i);
    }
}

/// The character index whose byte offset in `s` is `b` (meaningful only when
/// `b` is a boundary).
pub open spec fn char_ix(s: Seq<char>, b: int) -> int {
    choose|i: int| 0 <= i <= s.len() && byte_of(s, i) == b
}

pub proof fn lemma_char_ix(s: Seq<char>, i: int)
    requires
        0 <= i <= s.len(),
    ensures
        char_ix(s, byte_of(s, i)) == i,
{
    let b = byte_of(s, i);
    assert(0 <= i <= s.len() && byte_of(s, i) == b);
    let j = char_ix(s, b);
    lemma_byte_of_inj(s, i, j);
}

pub(crate) fn utf8_len_exec(c: char) -> (r: usize)
    ensures
        r as int == utf8_len(c),
{
    let u = c as u32;
    if u < 0x80 {
        1
    } else if u < 0x800 {
        2
    } else if u < 0x10000 {
        3
    } else {
        4
    }
}

/// The byte spans of the recognized ANSI escape sequences of `s`, in text
/// order.
pub uninterp spec fn ansi_spans_of(s: Seq<char>) -> Seq<(usize, usize)>;

/// Relies on `regex::Regex::find_iter` over the ANSI escape pattern: matches
/// come in text order and do not overlap, and their byte offsets lie on
/// character boundaries.  The pattern only matches text that starts with
/// U+001B or U+009B, so text without those characters has no match.
#[verifier::external_body]
pub(crate) fn ansi_spans(s: &str) -> (r: Vec<(usize, usize)>)
    ensures
        r@ == ansi_spans_of(s@),
        forall|k: int|
            0 <= k < r@.len() ==> r@[k].0 <= r@[k].1 && r@[k].1 <= byte_len(s@) && is_boundary(
                s@,
                r@[k].0 as int,
            ) && is_boundary(s@, r@[k].1 as int),
        forall|k: int| 0 < k < r@.len() ==> (#[trigger] r@[k]).0 >= r@[k - 1].1,
        (forall|i: int| 0 <= i < s@.len() ==> s@[i] != '\u{1b}' && s@[i] != '\u{9b}')
            ==> r@.len() == 0,
{
    let re = regex::Regex::new(
        r"[\x1b\x9b][\[()#;?]*(?:[0-9]{1,4}(?:;[0-9]{0,4})*)?[0-9A-PRZcf-nqry=><]",
    ).unwrap();
    let mut v: Vec<(usize, usize)> = Vec::new();
    for m in re.find_iter(s) {
        v.push((m.start(), m.end()));
    }
    v
}

/// The line-break opportunities of `s`: byte index of the character after the
/// break, and whether the break is mandatory.
pub uninterp spec fn break_list_of(s: Seq<char>) -> Seq<(usize, bool)>;

/// Relies on `unicode_linebreak::linebreaks`: break opportunities are given
/// as byte indices of the character succeeding the break, in strictly
/// ascending order; the indices come from `char_indices` chained with the
/// total byte length, so each lies on a character boundary, and the end of
/// nonempty text is always reported as its last opportunity.
#[verifier::external_body]
pub(crate) fn break_opportunities(s: &str) -> (r: Vec<(usize, bool)>)
    ensures
        r@ == break_list_of(s@),
        forall|k: int|
            0 <= k < r@.len() ==> r@[k].0 <= byte_len(s@) && is_boundary(s@, r@[k].0 as int),
        forall|k: int| 0 < k < r@.len() ==> (#[trigger] r@[k]).0 > r@[k - 1].0,
        s@.len() > 0 ==> r@.len() > 0 && r@[r@.len() - 1].0 == byte_len(s@),
{
    let mut v: Vec<(usize, bool)> = Vec::new();
    for (i, b) in unicode_linebreak::linebreaks(s) {
        v.push((i, matches!(b, unicode_linebreak::BreakOpportunity::Mandatory)));
    }
    v
}

/// A boundary strictly above the offset of character `i` leaves room for one
/// more character.
proof fn lemma_boundary_above(s: Seq<char>, i: int, t: int)
    requires
        0 <= i <= s.len(),
        is_boundary(s, t),
        byte_of(s, i) < t,
    ensures
        i < s.len(),
        byte_of(s, i) + utf8_len(s[i]) <= t,
{
    let j = choose|j: int| 0 <= j <= s.len() && byte_of(s, j) == t;
    if j <= i {
        lemma_byte_of_mono(s, j, i);
        assert(false);
    }
    lemma_byte_of_mono(s, i + 1, j);
}

/// Translate sorted byte offsets that lie on character boundaries of `chars`
/// into character indices.
#[verifier::rlimit(30)]
pub(crate) fn bytes_to_chars(chars: &Vec<char>, positions: &Vec<usize>) -> (r: Vec<usize>)
    requires
        forall|k: int| 0 <= k < positions@.len() ==> is_boundary(chars@, positions@[k] as int),
        forall|k: int| 0 < k < positions@.len() ==> (#[trigger] positions@[k]) >= positions@[k - 1],
    ensures
        r@.len() == positions@.len(),
        forall|k: int|
            0 <= k < r@.len() ==> (#[trigger] r@[k]) <= chars@.len() && byte_of(
                chars@,
                r@[k] as int,
            ) == positions@[k] as int,
{
    let mut r: Vec<usize> = Vec::new();
    let mut i: usize = 0;
    let mut b: usize = 0;
    let n = chars.len();
    let mut k: usize = 0;
    while k < positions.len()
        invariant
            forall|t: int| 0 <= t < positions@.len() ==> is_boundary(chars@, positions@[t] as int),
            forall|t: int|
                0 < t < positions@.len() ==> (#[trigger] positions@[t]) >= positions@[t - 1],
            k <= positions@.len(),
            n == chars@.len(),
            i <= n,
            b as int == byte_of(chars@, i as int),
            k > 0 ==> b == positions@[k - 1],
            k == 0 ==> b == 0,
            r@.len() == k,
            forall|t: int|
                0 <= t < k ==> (#[trigger] r@[t]) <= chars@.len() && byte_of(
                    chars@,
                    r@[t] as int,
                ) == positions@[t] as int,
        decreases positions@.len() - k,
    {
        let target = positions[k];
        proof {
            if k > 0 {
                assert(positions@[k as int] >= positions@[k as int - 1]);
            }
        }
        while b < target
            invariant
                is_boundary(chars@, target as int),
                n == chars@.len(),
                i <= n,
                b <= target,
                b as int == byte_of(chars@, i as int),
            decreases target - b,
        {
            proof {
                lemma_boundary_above(chars@, i as int, target as int);
            }
            let step = utf8_len_exec(chars[i]);
            b = b + step;
            i = i + 1;
        }
        proof {
            let j = choose|j: int|
                0 <= j <= chars@.len() && byte_of(chars@, j) == target as int;
            lemma_byte_of_inj(chars@, i as int, j);
            assert(byte_of(chars@, i as int) == target as int);
        }
        let ghost prev_r = r@;
        r.push(i);
        k = k + 1;
        proof {
            assert forall|t: int|
                0 <= t < k implies (#[trigger] r@[t]) <= chars@.len() && byte_of(
                chars@,
                r@[t] as int,
            ) == positions@[t] as int by {
                assert(forall|t2: int| 0 <= t2 < prev_r.len() ==> r@[t2] == prev_r[t2]);
            }
        }
    }
    r
}

/// Collect the characters of a string slice.
pub(crate) fn to_chars(s: &str) -> (r: Vec<char>)
    ensures
        r@ == s@,
{
    let n = s.unicode_len();
    let mut r: Vec<char> = Vec::new();
    let mut i: usize = 0;
    while i < n
        invariant
            n == s@.len(),
            i <= n,
            r@ == s@.subrange(0, i as int),
        decreases n - i,
    {
        let c = s.get_char(i);
        r.push(c);
        proof {
            assert(r@ =~= s@.subrange(0, i + 1));
        }
        i = i + 1;
    }
    proof {
        assert(r@ =~= s@);
    }
    r
}

/// Sum of the widths `w[i..j]`.
pub open spec fn seg_w(w: Seq<usize>, i: int, j: int) -> int
    decreases j - i,
{
    if i >= j {
        0
    } else {
        w[i] + seg_w(w, i + 1, j)
    }
}

pub proof fn lemma_seg_w_nonneg(w: Seq<usize>, i: int, j: int)
    ensures
        seg_w(w, i, j) >= 0,
    decreases j - i,
{
    if i < j {
        lemma_seg_w_nonneg(w, i + 1, j);
    }
}

pub proof fn lemma_seg_w_concat(w: Seq<usize>, i: int, k: int, j: int)
    requires
        i <= k <= j,
    ensures
        seg_w(w, i, j) == seg_w(w, i, k) + seg_w(w, k, j),
    decreases k - i,
{
    if i < k {
        lemma_seg_w_concat(w, i + 1, k, j);
    }
}

pub proof fn lemma_seg_w_step(w: Seq<usize>, i: int, j: int)
    requires
        i <= j,
    ensures
        seg_w(w, i, j + 1) == seg_w(w, i, j) + w[j],
    decreases j - i,
{
    if i < j {
        lemma_seg_w_step(w, i + 1, j);
    } else {
        assert(seg_w(w, j + 1, j + 1) == 0);
        assert(seg_w(w, j, j + 1) == w[j] + seg_w(w, j + 1, j + 1));
    }
}

pub proof fn lemma_seg_w_bound(w: Seq<usize>, i: int, j: int, m: int)
    requires
        0 <= i,
        j <= w.len(),
        forall|t: int| 0 <= t < w.len() ==> w[t] <= m,
        0 <= m,
    ensures
        seg_w(w, i, j) <= m * (if j - i >= 0 { j - i } else { 0 }),
    decreases j - i,
{
    if i < j {
        lemma_seg_w_bound(w, i + 1, j, m);
        assert(m * (j - i) == m + m * (j - i - 1)) by (nonlinear_arith);
    }
}

/// Character `i` lies inside one of the (character-indexed) spans.
pub open spec fn covered(spans: Seq<(usize, usize)>, i: int) -> bool {
    exists|k: int| 0 <= k < spans.len() && (#[trigger] spans[k]).0 <= i < spans[k].1
}

/// The effective display width of character `i`: zero inside an ANSI escape
/// sequence, its terminal width otherwise.
pub open spec fn eff_w(s: Seq<char>, spans: Seq<(usize, usize)>, i: int) -> usize {
    if covered(spans, i) {
        0
    } else {
        char_width_of(s[i])
    }
}

/// Per-character effective widths of `chars` with the given character-indexed
/// ANSI spans zeroed out.
pub(crate) fn effective_widths(chars: &Vec<char>, spans: &Vec<(usize, usize)>) -> (r: Vec<usize>)
    ensures
        r@.len() == chars@.len(),
        forall|i: int| 0 <= i < r@.len() ==> r@[i] == eff_w(chars@, spans@, i),
        forall|i: int| 0 <= i < r@.len() ==> r@[i] <= 3,
{
    let mut r: Vec<usize> = Vec::new();
    let n = chars.len();
    let mut i: usize = 0;
    while i < n
        invariant
            n == chars@.len(),
            i <= n,
            r@.len() == i,
            forall|t: int| 0 <= t < i ==> r@[t] == eff_w(chars@, spans@, t),
            forall|t: int| 0 <= t < i ==> r@[t] <= 3,
        decreases n - i,
    {
        let mut inside = false;
        let mut k: usize = 0;
        while k < spans.len()
            invariant
                i < n,
                k <= spans@.len(),
                inside == exists|t: int| 0 <= t < k && (#[trigger] spans@[t]).0 <= i < spans@[t].1,
            decreases spans@.len() - k,
        {
            let (a, b) = spans[k];
            if a <= i && i < b {
                inside = true;
            }
            k = k + 1;
        }
        if inside {
            r.push(0);
        } else {
            let cw = char_display_width(chars[i]);
            r.push(cw);
        }
        i = i + 1;
    }
    r
}


/// Sum a range of small per-character widths exactly.
pub(crate) fn seg_width_exec(w: &Vec<usize>, i: usize, j: usize) -> (r: u128)
    requires
        i <= j <= w@.len(),
        forall|t: int| 0 <= t < w@.len() ==> w@[t] <= 3,
    ensures
        r == seg_w(w@, i as int, j as int),
{
    let mut acc: u128 = 0;
    let mut c = i;
    while c < j
        invariant
            i <= c <= j <= w@.len(),
            forall|t: int| 0 <= t < w@.len() ==> w@[t] <= 3,
            acc == seg_w(w@, i as int, c as int),
        decreases j - c,
    {
        proof {
            lemma_seg_w_bound(w@, i as int, c as int, 3);
            lemma_seg_w_step(w@, i as int, c as int);
        }
        acc = acc + w[c] as u128;
        c = c + 1;
    }
    acc
}
} // verus!
