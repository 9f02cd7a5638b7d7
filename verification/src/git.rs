//! Reading the output of `git log --oneline`.

use vstd::prelude::*;
use crate::text::chars_of;

verus! {

/// The number of newline characters in `s`.
pub open spec fn newlines(s: Seq<char>) -> nat
    decreases s.len(),
{
    if s.len() == 0 {
        0
    } else {
        newlines(s.drop_last()) + if s.last() == '\n' { 1nat } else { 0nat }
    }
}

/// The number of lines of `s` (`str::lines`): one per newline, plus one for
/// text after the last newline.
pub open spec fn line_count(s: Seq<char>) -> nat {
    newlines(s) + if s.len() > 0 && s.last() != '\n' { 1nat } else { 0nat }
}

proof fn lemma_newlines_bound(s: Seq<char>)
    ensures
        newlines(s) <= s.len(),
    decreases s.len(),
{
    if s.len() > 0 {
        lemma_newlines_bound(s.drop_last());
    }
}

/// The commit count reported by a `git log --follow --oneline` run: its number
/// of output lines (kept to 32 bits) when git succeeded, otherwise 0.
pub fn commit_count(success: bool, stdout: &str) -> (r: u32)
    ensures
        r == (if success { #[verifier::truncate] (line_count(stdout@) as u32) } else { 0 }),
{
    if !success {
        return 0;
    }
    let cs = chars_of(stdout);
    let mut n: usize = 0;
    let mut i: usize = 0;
    assert(cs@.take(0) =~= Seq::<char>::empty());
    while i < cs.len()
        invariant
            cs@ == stdout@,
            i <= cs@.len(),
            n <= i,
            n == newlines(cs@.take(i as int)),
        decreases cs@.len() - i,
    {
        assert(cs@.take(i + 1).drop_last() =~= cs@.take(i as int));
        if cs[i] == '\n' {
            n = n + 1;
        }
        i = i + 1;
    }
    assert(cs@.take(cs@.len() as int) =~= stdout@);
    proof {
        if cs@.len() > 0 {
            lemma_newlines_bound(cs@.drop_last());
        }
    }
    let total: usize = if cs.len() > 0 && cs[cs.len() - 1] != '\n' { n + 1 } else { n };
    #[verifier::truncate] (total as u32)
}

} // verus!
