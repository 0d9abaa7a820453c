//! Building text: lines of characters joined by newlines.
use vstd::prelude::*;

verus! {

/// Calls std's `String::push`, which appends the character to the string.
#[verifier::external_body]
pub(crate) fn push_char(s: &mut String, c: char)
    ensures
        final(s)@ == old(s)@.push(c),
{
    s.push(c)
}

/// Lines joined by single newlines (no newline after the last one).
pub open spec fn join_lines(rows: Seq<Seq<char>>) -> Seq<char>
    decreases rows.len(),
{
    if rows.len() == 0 {
        Seq::empty()
    } else if rows.len() == 1 {
        rows[0]
    } else {
        join_lines(rows.drop_last()) + seq!['\n'] + rows.last()
    }
}

/// Appending one more line to joined lines.
pub proof fn lemma_join_lines_step(rows: Seq<Seq<char>>, n: int)
    requires
        0 <= n < rows.len(),
    ensures
        join_lines(rows.take(n + 1)) == if n == 0 {
            rows[0]
        } else {
            join_lines(rows.take(n)) + seq!['\n'] + rows[n]
        },
{
    assert(rows.take(n + 1).drop_last() =~= rows.take(n));
    assert(rows.take(n + 1).last() == rows[n]);
    if n == 0 {
        assert(rows.take(1)[0] == rows[0]);
    }
}

} // verus!
