//! Extraction of import targets from source text.

use vstd::prelude::*;
use crate::matching::{
    compile_pattern, group1_captures, optional_strings_view, regex_compiles, regex_group1_captures,
};
use crate::text::strings_view;

verus! {

/// The captured texts of a capture list, skipping the matches without one.
pub open spec fn present_captures(caps: Seq<Option<Seq<char>>>) -> Seq<Seq<char>>
    decreases caps.len(),
{
    if caps.len() == 0 {
        Seq::<Seq<char>>::empty()
    } else {
        let earlier = present_captures(caps.drop_last());
        match caps.last() {
            Some(s) => earlier.push(s),
            None => earlier,
        }
    }
}

/// The imports found in `content`: the first capture group of every match of
/// `pattern`, in order; none when the pattern does not compile.
pub open spec fn imports_in(content: Seq<char>, pattern: Seq<char>) -> Seq<Seq<char>> {
    if regex_compiles(pattern) {
        present_captures(regex_group1_captures(pattern, content))
    } else {
        Seq::<Seq<char>>::empty()
    }
}

/// The import targets in `file_content`: the first capture group of each match
/// of `pattern`; empty when `pattern` is not a valid regular expression.
pub fn parse_imports(file_content: &str, pattern: &str) -> (r: Vec<String>)
    ensures
        strings_view(r@) == imports_in(file_content@, pattern@),
{
    let re = match compile_pattern(pattern) {
        Ok(re) => re,
        Err(_) => {
            let none: Vec<String> = Vec::new();
            assert(strings_view(none@) =~= Seq::<Seq<char>>::empty());
            return none;
        },
    };
    let caps = group1_captures(&re, file_content);
    collect_imports(&caps)
}

/// The captured texts of a capture list, in order, skipping the matches
/// without one.
pub fn collect_imports(caps: &Vec<Option<String>>) -> (r: Vec<String>)
    ensures
        strings_view(r@) == present_captures(optional_strings_view(caps@)),
{
    let ghost cv = optional_strings_view(caps@);
    let mut imports: Vec<String> = Vec::new();
    let mut i: usize = 0;
    while i < caps.len()
        invariant
            i <= caps@.len(),
            cv == optional_strings_view(caps@),
            strings_view(imports@) == present_captures(cv.take(i as int)),
        decreases caps@.len() - i,
    {
        assert(cv.take(i + 1).drop_last() =~= cv.take(i as int));
        match &caps[i] {
            Some(s) => {
                imports.push(s.clone());
                assert(strings_view(imports@) =~= present_captures(cv.take(i + 1)));
            },
            None => {
                assert(strings_view(imports@) =~= present_captures(cv.take(i + 1)));
            },
        }
        i = i + 1;
    }
    assert(cv.take(caps@.len() as int) =~= cv);
    imports
}

/// The captures of two runs of matches, one after the other, are the
/// captures of the first followed by those of the second: nothing is dropped,
/// merged or reordered, so a text captured by two matches is listed twice.
pub proof fn captures_concatenate(a: Seq<Option<Seq<char>>>, b: Seq<Option<Seq<char>>>)
    ensures
        present_captures(a + b) == present_captures(a) + present_captures(b),
    decreases b.len(),
{
    if b.len() == 0 {
        assert(a + b =~= a);
        assert(present_captures(a) + present_captures(b) =~= present_captures(a));
    } else {
        captures_concatenate(a, b.drop_last());
        assert((a + b).drop_last() =~= a + b.drop_last());
        assert((a + b).last() == b.last());
        match b.last() {
            Some(s) => {
                assert(present_captures(a + b) =~= present_captures(a) + present_captures(b));
            },
            None => {},
        }
    }
}

/// A match whose first group took part contributes its capture; one whose
/// first group did not contributes nothing.
pub proof fn single_match_captures(s: Seq<char>)
    ensures
        present_captures(seq![Some(s)]) == seq![s],
        present_captures(seq![Option::<Seq<char>>::None]).len() == 0,
{
    reveal_with_fuel(present_captures, 2);
    let one = seq![Some(s)];
    let none = seq![Option::<Seq<char>>::None];
    assert(one.drop_last() =~= Seq::<Option<Seq<char>>>::empty());
    assert(one.last() == Some(s));
    assert(none.drop_last() =~= Seq::<Option<Seq<char>>>::empty());
    assert(none.last() is None);
    assert(Seq::<Seq<char>>::empty().push(s) =~= seq![s]);
}

/// The captures are exactly the present entries of the capture list, in
/// order; there are as many as there are matches whose first group took part.
pub proof fn captures_are_present_entries(caps: Seq<Option<Seq<char>>>)
    ensures
        present_captures(caps) == caps.filter_map(|c: Option<Seq<char>>| c),
        present_captures(caps).len() == caps.filter(|c: Option<Seq<char>>| c is Some).len(),
    decreases caps.len(),
{
    reveal(Seq::filter);
    if caps.len() > 0 {
        captures_are_present_entries(caps.drop_last());
        match caps.last() {
            Some(s) => {
                assert(present_captures(caps) =~= caps.filter_map(|c: Option<Seq<char>>| c));
            },
            None => {},
        }
    }
}

/// The imports of a text hold one entry per match whose first group took
/// part, repeats included, when the pattern compiles.
pub proof fn imports_one_per_capturing_match(content: Seq<char>, pattern: Seq<char>)
    requires
        regex_compiles(pattern),
    ensures
        imports_in(content, pattern).len() == regex_group1_captures(pattern, content).filter(
            |c: Option<Seq<char>>| c is Some,
        ).len(),
        imports_in(content, pattern) == regex_group1_captures(pattern, content).filter_map(
            |c: Option<Seq<char>>| c,
        ),
{
    captures_are_present_entries(regex_group1_captures(pattern, content));
}

} // verus!
