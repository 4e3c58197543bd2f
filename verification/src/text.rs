//! Small verified helpers for building output text.

use vstd::prelude::*;

verus! {

/// `k` copies of the character `c` (empty for negative `k`).
pub open spec fn char_run(c: char, k: int) -> Seq<char> {
    Seq::new(
        (if k >= 0 {
            k
        } else {
            0
        }) as nat,
        |i: int| c,
    )
}

/// Relies on `String::push`: appends the given character to the end of the
/// string.
#[verifier::external_body]
pub(crate) fn push_char(s: &mut String, c: char)
    ensures
        final(s)@ == old(s)@.push(c),
{
    s.push(c);
}

/// Append `k` copies of `c`.
pub(crate) fn push_run(s: &mut String, c: char, k: usize)
    ensures
        final(s)@ == old(s)@ + char_run(c, k as int),
{
    let mut i: usize = 0;
    while i < k
        invariant
            i <= k,
            s@ == old(s)@ + char_run(c, i as int),
        decreases k - i,
    {
        push_char(s, c);
        proof {
            assert(old(s)@ + char_run(c, i as int + 1) =~= (old(s)@ + char_run(c, i as int)).push(
                c,
            ));
        }
        i = i + 1;
    }
    proof {
        assert(s@ =~= old(s)@ + char_run(c, k as int));
    }
}


pub proof fn lemma_char_run_concat(c: char, a: int, b: int)
    requires
        a >= 0,
        b >= 0,
    ensures
        char_run(c, a) + char_run(c, b) == char_run(c, a + b),
{
    assert(char_run(c, a) + char_run(c, b) =~= char_run(c, a + b));
}
} // verus!
