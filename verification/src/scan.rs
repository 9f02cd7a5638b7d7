//! The decisions of a scan: which files are indexed, which are excluded, and
//! how often each file is referred to by the imports of the others.

use vstd::prelude::*;
use crate::matching::{compile_pattern, pattern_is_match, regex_compiles, regex_is_match, CompiledPattern};
use crate::config::{Config, matched_extension};
use crate::paths::{split_on, components, PathComponent, comps_view, path_components};
use crate::text::{
    chars_of, push_char, push_decimal, decimal, split_text, strings_view, string_from_chars,
    starts_with, has_prefix, contains, contains_text,
};

verus! {

/// Characters that have a meaning in a regular expression and are escaped
/// when they occur in a glob pattern.
pub open spec fn is_regex_special(c: char) -> bool {
    c == '.' || c == '+' || c == '(' || c == ')' || c == '[' || c == ']' || c == '^' || c == '$'
        || c == '{' || c == '}' || c == '\\' || c == '|'
}

/// The regular-expression text of one glob character: `*` matches any run,
/// `?` any one character, special characters stand for themselves.
pub open spec fn glob_char_regex(c: char) -> Seq<char> {
    if c == '*' {
        seq!['.', '*']
    } else if c == '?' {
        seq!['.']
    } else if is_regex_special(c) {
        seq!['\\', c]
    } else {
        seq![c]
    }
}

pub open spec fn glob_body(p: Seq<char>) -> Seq<char>
    decreases p.len(),
{
    if p.len() == 0 {
        Seq::<char>::empty()
    } else {
        glob_body(p.drop_last()) + glob_char_regex(p.last())
    }
}

/// The anchored regular expression of a glob pattern.
pub open spec fn glob_regex(p: Seq<char>) -> Seq<char> {
    seq!['^'] + glob_body(p) + seq!['$']
}

/// The anchored regular expression of a glob pattern, as text.
pub fn glob_to_regex(pattern: &str) -> (r: String)
    ensures
        r@ == glob_regex(pattern@),
{
    let cs = chars_of(pattern);
    let mut r = String::new();
    push_char(&mut r, '^');
    let mut i: usize = 0;
    while i < cs.len()
        invariant
            cs@ == pattern@,
            i <= cs@.len(),
            r@ == seq!['^'] + glob_body(cs@.take(i as int)),
        decreases cs@.len() - i,
    {
        let c = cs[i];
        assert(cs@.take(i + 1).drop_last() =~= cs@.take(i as int));
        let ghost before = r@;
        if c == '*' {
            push_char(&mut r, '.');
            push_char(&mut r, '*');
        } else if c == '?' {
            push_char(&mut r, '.');
        } else if c == '.' || c == '+' || c == '(' || c == ')' || c == '[' || c == ']' || c == '^'
            || c == '$' || c == '{' || c == '}' || c == '\\' || c == '|' {
            push_char(&mut r, '\\');
            push_char(&mut r, c);
        } else {
            push_char(&mut r, c);
        }
        assert(r@ =~= before + glob_char_regex(c));
        i = i + 1;
        assert(r@ =~= seq!['^'] + glob_body(cs@.take(i as int)));
    }
    assert(cs@.take(cs@.len() as int) =~= pattern@);
    push_char(&mut r, '$');
    assert(r@ =~= glob_regex(pattern@));
    r
}

/// A glob pattern whose regular expression could not be compiled.
#[derive(Debug)]
pub struct PatternError {
    pub pattern: String,
}

/// Matches project-relative paths against the exclusion patterns.
pub struct ExcludeMatcher {
    regexes: Vec<CompiledPattern>,
}

pub open spec fn patterns_view(v: Seq<CompiledPattern>) -> Seq<Seq<char>> {
    v.map_values(|p: CompiledPattern| p@)
}

impl View for ExcludeMatcher {
    type V = Seq<Seq<char>>;

    /// The regular expressions, one per exclusion pattern.
    closed spec fn view(&self) -> Seq<Seq<char>> {
        patterns_view(self.regexes@)
    }
}

/// Whether the expression `re` matches a `/`-separated piece of `path`, or the
/// whole of `path`.
pub open spec fn regex_hits(re: Seq<char>, path: Seq<char>) -> bool {
    (exists|k: int|
        0 <= k < split_on(path, '/').len() && regex_is_match(re, #[trigger] split_on(path, '/')[k]))
        || regex_is_match(re, path)
}

/// Whether one of the expressions hits `path`.
pub open spec fn excluded_by(regexes: Seq<Seq<char>>, path: Seq<char>) -> bool {
    exists|i: int| 0 <= i < regexes.len() && #[trigger] regex_hits(regexes[i], path)
}

impl ExcludeMatcher {
    /// Compiles the exclusion patterns. Fails, naming the first offending
    /// pattern, when a pattern's expression does not compile.
    pub fn new(patterns: &[String]) -> (r: Result<ExcludeMatcher, PatternError>)
        ensures
            r is Ok <==> forall|i: int|
                0 <= i < patterns@.len() ==> regex_compiles(glob_regex(#[trigger] patterns@[i]@)),
            r matches Ok(m) ==> m@ == strings_view(patterns@).map_values(|p: Seq<char>| glob_regex(p)),
            r matches Err(e) ==> exists|i: int|
                0 <= i < patterns@.len() && e.pattern@ == patterns@[i]@ && !regex_compiles(
                    glob_regex(#[trigger] patterns@[i]@),
                ) && forall|j: int| 0 <= j < i ==> regex_compiles(glob_regex(#[trigger] patterns@[j]@)),
    {
        let mut regexes: Vec<CompiledPattern> = Vec::new();
        let mut i: usize = 0;
        while i < patterns.len()
            invariant
                i <= patterns@.len(),
                regexes@.len() == i,
                forall|j: int| 0 <= j < i ==> regex_compiles(glob_regex(#[trigger] patterns@[j]@)),
                forall|j: int| 0 <= j < i ==> (#[trigger] regexes@[j])@ == glob_regex(patterns@[j]@),
            decreases patterns@.len() - i,
        {
            let regex_text = glob_to_regex(patterns[i].as_str());
            match compile_pattern(regex_text.as_str()) {
                Ok(re) => {
                    regexes.push(re);
                },
                Err(_) => {
                    return Err(PatternError { pattern: patterns[i].clone() });
                },
            }
            i = i + 1;
        }
        let m = ExcludeMatcher { regexes };
        assert(m@ =~= strings_view(patterns@).map_values(|p: Seq<char>| glob_regex(p)));
        Ok(m)
    }

    /// Whether a project-relative path is excluded: some pattern matches one of
    /// its `/`-separated pieces, or the whole path.
    pub fn is_excluded(&self, relative_path: &str) -> (b: bool)
        ensures
            b == excluded_by(self@, relative_path@),
    {
        let pieces = split_text(relative_path, '/');
        let ghost rs = self@;
        assert(rs.len() == self.regexes@.len());
        let mut i: usize = 0;
        while i < self.regexes.len()
            invariant
                i <= self.regexes@.len(),
                rs == self@,
                rs.len() == self.regexes@.len(),
                strings_view(pieces@) == split_on(relative_path@, '/'),
                forall|j: int| 0 <= j < i ==> !#[trigger] regex_hits(rs[j], relative_path@),
            decreases self.regexes@.len() - i,
        {
            let re = &self.regexes[i];
            assert(re@ == rs[i as int]);
            let ghost outer_i = i;
            let mut k: usize = 0;
            while k < pieces.len()
                invariant
                    i < self.regexes@.len(),
                    rs == self@,
                    rs.len() == self.regexes@.len(),
                    k <= pieces@.len(),
                    re@ == rs[i as int],
                    strings_view(pieces@) == split_on(relative_path@, '/'),
                    forall|m: int| 0 <= m < k ==> !regex_is_match(rs[i as int], #[trigger] split_on(relative_path@, '/')[m]),
                decreases pieces@.len() - k,
            {
                if pattern_is_match(re, pieces[k].as_str()) {
                    assert(split_on(relative_path@, '/')[k as int] == pieces@[k as int]@);
                    assert(regex_is_match(rs[i as int], split_on(relative_path@, '/')[k as int]));
                    assert(split_on(relative_path@, '/').len() == pieces@.len());
                    assert(regex_hits(rs[i as int], relative_path@));
                    assert(excluded_by(rs, relative_path@));
                    return true;
                }
                assert(split_on(relative_path@, '/')[k as int] == pieces@[k as int]@);
                k = k + 1;
            }
            if pattern_is_match(re, relative_path) {
                assert(regex_hits(rs[i as int], relative_path@));
                assert(excluded_by(rs, relative_path@));
                return true;
            }
            assert(!regex_hits(rs[i as int], relative_path@));
            i = i + 1;
        }
        false
    }
}

/// A path is excluded when some pattern's expression matches the whole
/// project-relative path, even where it matches none of its pieces.
pub proof fn whole_path_match_excludes(regexes: Seq<Seq<char>>, path: Seq<char>, i: int)
    requires
        0 <= i < regexes.len(),
        regex_is_match(regexes[i], path),
    ensures
        excluded_by(regexes, path),
{
    assert(regex_hits(regexes[i], path));
}

/// A path is excluded when some pattern's expression matches one of its
/// `/`-separated pieces.
pub proof fn piece_match_excludes(regexes: Seq<Seq<char>>, path: Seq<char>, i: int, k: int)
    requires
        0 <= i < regexes.len(),
        0 <= k < split_on(path, '/').len(),
        regex_is_match(regexes[i], split_on(path, '/')[k]),
    ensures
        excluded_by(regexes, path),
{
    assert(regex_hits(regexes[i], path));
}

/// A path that no expression matches, neither whole nor in any piece, is not
/// excluded.
pub proof fn unmatched_path_kept(regexes: Seq<Seq<char>>, path: Seq<char>)
    requires
        forall|i: int| 0 <= i < regexes.len() ==> !regex_is_match(#[trigger] regexes[i], path),
        forall|i: int, k: int|
            0 <= i < regexes.len() && 0 <= k < split_on(path, '/').len() ==> !regex_is_match(
                #[trigger] regexes[i],
                #[trigger] split_on(path, '/')[k],
            ),
    ensures
        !excluded_by(regexes, path),
{
    assert forall|i: int| 0 <= i < regexes.len() implies !#[trigger] regex_hits(regexes[i], path) by {
        assert(!regex_is_match(regexes[i], path));
        assert forall|k: int| 0 <= k < split_on(path, '/').len() implies !regex_is_match(
            regexes[i],
            #[trigger] split_on(path, '/')[k],
        ) by {
            assert(!regex_is_match(regexes[i], split_on(path, '/')[k]));
        }
    }
}

} // verus!

verus! {

/// The position of the last `.` in `name`, or -1.
pub open spec fn last_dot(name: Seq<char>) -> int
    decreases name.len(),
{
    if name.len() == 0 {
        -1
    } else if name.last() == '.' {
        name.len() - 1
    } else {
        last_dot(name.drop_last())
    }
}

/// The stem of a file name: the name without its last extension; a name whose
/// only dot is its first character is its own stem.
pub open spec fn stem_of(name: Seq<char>) -> Seq<char> {
    let d = last_dot(name);
    if d <= 0 {
        name
    } else {
        name.take(d)
    }
}

/// The stem of the last component of a path, when that component is a name
/// (`Path::file_stem`).
pub open spec fn file_stem_text(path: Seq<char>) -> Option<Seq<char>> {
    let cs = components(path);
    if cs.len() > 0 && cs.last() is Normal {
        Some(stem_of(cs.last()->Normal_0))
    } else {
        None
    }
}

proof fn lemma_last_dot_bounds(name: Seq<char>)
    ensures
        -1 <= last_dot(name) < name.len(),
        last_dot(name) >= 0 ==> name[last_dot(name)] == '.',
        forall|k: int| last_dot(name) < k < name.len() ==> name[k] != '.',
    decreases name.len(),
{
    if name.len() > 0 {
        lemma_last_dot_bounds(name.drop_last());
        assert forall|k: int| 0 <= k < name.len() - 1 implies name.drop_last()[k] == name[k] by {}
    }
}

/// The stem of the file a path names.
pub fn file_stem(path: &str) -> (r: Option<String>)
    ensures
        match r {
            Some(s) => file_stem_text(path@) == Some(s@),
            None => file_stem_text(path@) is None,
        },
{
    let cs = path_components(path);
    if cs.len() == 0 {
        return None;
    }
    assert(comps_view(cs@).last() == cs@[cs@.len() - 1]@);
    match &cs[cs.len() - 1] {
        PathComponent::Normal(name) => {
            proof { lemma_last_dot_bounds(name@); }
            let mut d: usize = name.len();
            while d > 0 && name[d - 1] != '.'
                invariant
                    d <= name@.len(),
                    forall|k: int| d <= k < name@.len() ==> name@[k] != '.',
                decreases d,
            {
                d = d - 1;
            }
            // `d - 1` is the position of the last dot, when `d > 0`.
            assert(d == last_dot(name@) + 1) by {
                lemma_last_dot_bounds(name@);
                if last_dot(name@) >= d {
                    assert(name@[last_dot(name@)] == '.');
                }
            }
            if d <= 1 {
                Some(string_from_chars(name.as_slice()))
            } else {
                let mut stem: Vec<char> = Vec::new();
                let mut k: usize = 0;
                while k < d - 1
                    invariant
                        1 < d <= name@.len(),
                        k <= d - 1,
                        stem@ == name@.take(k as int),
                    decreases d - 1 - k,
                {
                    stem.push(name[k]);
                    k = k + 1;
                    assert(stem@ =~= name@.take(k as int));
                }
                Some(string_from_chars(stem.as_slice()))
            }
        },
        _ => None,
    }
}

/// A file of the scan with the imports found in it.
pub struct FileImports {
    pub path: String,
    pub imports: Vec<String>,
}

impl View for FileImports {
    type V = (Seq<char>, Seq<Seq<char>>);

    open spec fn view(&self) -> (Seq<char>, Seq<Seq<char>>) {
        (self.path@, strings_view(self.imports@))
    }
}

pub open spec fn files_view(v: Seq<FileImports>) -> Seq<(Seq<char>, Seq<Seq<char>>)> {
    v.map_values(|f: FileImports| f@)
}

/// How many of `imports` contain `stem`.
pub open spec fn stem_hits(imports: Seq<Seq<char>>, stem: Seq<char>) -> nat
    decreases imports.len(),
{
    if imports.len() == 0 {
        0
    } else {
        stem_hits(imports.drop_last(), stem) + if contains_text(imports.last(), stem) { 1nat } else { 0nat }
    }
}

/// How many imports of the files other than `path` contain `stem`.
pub open spec fn refs_from(files: Seq<(Seq<char>, Seq<Seq<char>>)>, path: Seq<char>, stem: Seq<char>) -> nat
    decreases files.len(),
{
    if files.len() == 0 {
        0
    } else {
        refs_from(files.drop_last(), path, stem) + if files.last().0 != path {
            stem_hits(files.last().1, stem)
        } else {
            0nat
        }
    }
}

/// The number of imports in other files that mention the stem of `path`;
/// zero for a path without a (non-empty) stem.
pub open spec fn reference_count(files: Seq<(Seq<char>, Seq<Seq<char>>)>, path: Seq<char>) -> nat {
    match file_stem_text(path) {
        Some(stem) => if stem.len() > 0 { refs_from(files, path, stem) } else { 0 },
        None => 0,
    }
}


fn count_stem_hits(imports: &Vec<String>, stem: &str) -> (r: u64)
    ensures
        r == stem_hits(strings_view(imports@), stem@),
{
    let ghost v = strings_view(imports@);
    let mut n: u64 = 0;
    let mut k: usize = 0;
    while k < imports.len()
        invariant
            k <= imports@.len(),
            v == strings_view(imports@),
            n == stem_hits(v.take(k as int), stem@),
            n <= k,
        decreases imports@.len() - k,
    {
        assert(v.take(k + 1).drop_last() =~= v.take(k as int));
        assert(v.take(k + 1).last() == imports@[k as int]@);
        if contains(imports[k].as_str(), stem) {
            n = n + 1;
        }
        k = k + 1;
    }
    assert(v.take(imports@.len() as int) =~= v);
    n
}

proof fn lemma_refs_prefix(files: Seq<(Seq<char>, Seq<Seq<char>>)>, path: Seq<char>, stem: Seq<char>, k: int)
    requires
        0 <= k <= files.len(),
    ensures
        refs_from(files.take(k), path, stem) <= refs_from(files, path, stem),
    decreases files.len() - k,
{
    if k < files.len() {
        lemma_refs_prefix(files, path, stem, k + 1);
        assert(files.take(k + 1).drop_last() =~= files.take(k));
    } else {
        assert(files.take(k) =~= files);
    }
}

/// For each file, the number of imports in the other files that mention the
/// stem of its name (its reference count); `None` when some count does not
/// fit in a `u32`.
pub fn reference_counts(files: &Vec<FileImports>) -> (r: Option<Vec<u32>>)
    ensures
        r is None <==> exists|i: int|
            0 <= i < files@.len() && reference_count(files_view(files@), #[trigger] files@[i].path@) > u32::MAX,
        r matches Some(v) ==> {
            &&& v@.len() == files@.len()
            &&& forall|i: int|
                0 <= i < files@.len() ==> #[trigger] v@[i] == reference_count(files_view(files@), files@[i].path@)
        },
{
    let ghost fv = files_view(files@);
    let mut counts: Vec<u32> = Vec::new();
    let mut i: usize = 0;
    while i < files.len()
        invariant
            i <= files@.len(),
            fv == files_view(files@),
            counts@.len() == i,
            forall|m: int| 0 <= m < i ==> #[trigger] counts@[m] == reference_count(fv, files@[m].path@),
        decreases files@.len() - i,
    {
        let path = &files[i].path;
        let mut count: u64 = 0;
        match file_stem(path.as_str()) {
            Some(stem) => {
                if stem.as_str().unicode_len() > 0 {
                    let mut j: usize = 0;
                    while j < files.len()
                        invariant
                            i < files@.len(),
                            path@ == files@[i as int].path@,
                            file_stem_text(path@) == Some(stem@),
                            stem@.len() > 0,
                            j <= files@.len(),
                            fv == files_view(files@),
                            count == refs_from(fv.take(j as int), path@, stem@),
                            count <= u32::MAX,
                        decreases files@.len() - j,
                    {
                        assert(fv.take(j + 1).drop_last() =~= fv.take(j as int));
                        assert(fv.take(j + 1).last() == files@[j as int]@);
                        if !crate::text::str_eq(files[j].path.as_str(), path.as_str()) {
                            let hits = count_stem_hits(&files[j].imports, stem.as_str());
                            if hits > 4294967295u64 - count {
                                proof {
                                    lemma_refs_prefix(fv, path@, stem@, j + 1);
                                    assert(refs_from(fv.take(j + 1), path@, stem@) == count + hits);
                                    assert(reference_count(fv, files@[i as int].path@) > u32::MAX);
                                }
                                return None;
                            }
                            count = count + hits;
                        }
                        j = j + 1;
                    }
                    assert(fv.take(files@.len() as int) =~= fv);
                }
            },
            None => {},
        }
        counts.push(count as u32);
        i = i + 1;
    }
    assert forall|k: int| 0 <= k < files@.len() implies reference_count(fv, #[trigger] files@[k].path@) <= u32::MAX by {
        assert(counts@[k] == reference_count(fv, files@[k].path@));
    }
    Some(counts)
}

/// The hits of a stem are the imports that contain it as a substring,
/// wherever in the import it stands; each such import counts once.
pub proof fn stem_hits_are_containing_imports(imports: Seq<Seq<char>>, stem: Seq<char>)
    ensures
        stem_hits(imports, stem) == imports.filter(|s: Seq<char>| contains_text(s, stem)).len(),
    decreases imports.len(),
{
    reveal(Seq::filter);
    if imports.len() > 0 {
        stem_hits_are_containing_imports(imports.drop_last(), stem);
    }
}

proof fn lemma_refs_add_import(
    files: Seq<(Seq<char>, Seq<Seq<char>>)>,
    path: Seq<char>,
    stem: Seq<char>,
    j: int,
    x: Seq<char>,
)
    requires
        0 <= j < files.len(),
        files[j].0 != path,
    ensures
        refs_from(files.update(j, (files[j].0, files[j].1.push(x))), path, stem) == refs_from(files, path, stem)
            + if contains_text(x, stem) { 1nat } else { 0nat },
    decreases files.len(),
{
    let g = files.update(j, (files[j].0, files[j].1.push(x)));
    assert(files[j].1.push(x).drop_last() =~= files[j].1);
    if j == files.len() - 1 {
        assert(g.drop_last() =~= files.drop_last());
    } else {
        lemma_refs_add_import(files.drop_last(), path, stem, j, x);
        assert(g.drop_last() =~= files.drop_last().update(j, (files[j].0, files[j].1.push(x))));
    }
}

/// Adding an import to another file raises a file's reference count by one
/// when the import contains the file's stem (whatever its first character),
/// and leaves it unchanged otherwise.
pub proof fn added_import_counts_once(
    files: Seq<(Seq<char>, Seq<Seq<char>>)>,
    path: Seq<char>,
    stem: Seq<char>,
    j: int,
    x: Seq<char>,
)
    requires
        0 <= j < files.len(),
        files[j].0 != path,
        file_stem_text(path) == Some(stem),
        stem.len() > 0,
    ensures
        reference_count(files.update(j, (files[j].0, files[j].1.push(x))), path) == reference_count(files, path)
            + if contains_text(x, stem) { 1nat } else { 0nat },
{
    lemma_refs_add_import(files, path, stem, j, x);
}

proof fn lemma_refs_at_least(files: Seq<(Seq<char>, Seq<Seq<char>>)>, path: Seq<char>, stem: Seq<char>, j: int)
    requires
        0 <= j < files.len(),
        files[j].0 != path,
    ensures
        refs_from(files, path, stem) >= stem_hits(files[j].1, stem),
    decreases files.len(),
{
    if j < files.len() - 1 {
        lemma_refs_at_least(files.drop_last(), path, stem, j);
    }
}

/// An import of another file that contains a file's stem makes that file's
/// reference count at least one.
pub proof fn containing_import_is_counted(
    files: Seq<(Seq<char>, Seq<Seq<char>>)>,
    path: Seq<char>,
    stem: Seq<char>,
    j: int,
    k: int,
)
    requires
        0 <= j < files.len(),
        files[j].0 != path,
        file_stem_text(path) == Some(stem),
        stem.len() > 0,
        0 <= k < files[j].1.len(),
        contains_text(files[j].1[k], stem),
    ensures
        reference_count(files, path) >= 1,
{
    let imps = files[j].1;
    let pred = |s: Seq<char>| contains_text(s, stem);
    stem_hits_are_containing_imports(imps, stem);
    imps.lemma_filter_contains(pred, k);
    lemma_refs_at_least(files, path, stem, j);
}

/// Whether a project-relative path is indexed: it is not inside `.codewatch`,
/// it ends with a configured extension, and it is not excluded.
pub open spec fn indexable(config: crate::config::ConfigSpec, matcher: Seq<Seq<char>>, path: Seq<char>) -> bool {
    !has_prefix(path, ".codewatch"@) && matched_extension(config, path) is Some && !excluded_by(matcher, path)
}

/// Whether a file found by the scan is indexed.
pub fn is_indexable(config: &Config, matcher: &ExcludeMatcher, relative_path: &str) -> (b: bool)
    ensures
        b == indexable(config@, matcher@, relative_path@),
{
    if starts_with(relative_path, ".codewatch") {
        return false;
    }
    config.find_matched_extension(relative_path).is_some() && !matcher.is_excluded(relative_path)
}

} // verus!

verus! {

/// `n` copies of `c`.
pub open spec fn repeat_char(c: char, n: nat) -> Seq<char> {
    Seq::new(n, |i: int| c)
}

/// The number of `=` in a progress bar of width 20.
pub open spec fn progress_units(current: nat, total: nat) -> nat {
    if total > 0 { current * 20 / total } else { 20 }
}

/// The progress line of a scan: `\r[` then a bar of 20 cells, filled in
/// proportion to `current / total` (full when `total` is 0), then
/// `] current/total`.
pub open spec fn progress_text(current: nat, total: nat) -> Seq<char> {
    let p = progress_units(current, total);
    seq!['\r', '['] + repeat_char('=', p) + repeat_char(' ', (20 - p) as nat) + seq![']', ' ']
        + decimal(current) + seq!['/'] + decimal(total)
}

fn push_repeat(s: &mut String, c: char, n: usize)
    ensures
        final(s)@ == old(s)@ + repeat_char(c, n as nat),
{
    let mut k: usize = 0;
    while k < n
        invariant
            k <= n,
            s@ == old(s)@ + repeat_char(c, k as nat),
        decreases n - k,
    {
        push_char(s, c);
        k = k + 1;
        assert(s@ =~= old(s)@ + repeat_char(c, k as nat));
    }
}

/// The progress line printed while scanning. The bar cannot overflow, so
/// `current` is at most `total` (when `total` is not 0), and `current * 20`
/// fits in a `usize`.
pub fn progress_line(current: usize, total: usize) -> (s: String)
    requires
        current * 20 <= usize::MAX,
        total == 0 || (current * 20) as int / (total as int) <= 20,
    ensures
        s@ == progress_text(current as nat, total as nat),
{
    let width: usize = 20;
    let progress = if total > 0 { (current * width) / total } else { width };
    let mut s = String::new();
    push_char(&mut s, '\r');
    push_char(&mut s, '[');
    push_repeat(&mut s, '=', progress);
    push_repeat(&mut s, ' ', width - progress);
    push_char(&mut s, ']');
    push_char(&mut s, ' ');
    push_decimal(&mut s, current as u64);
    push_char(&mut s, '/');
    push_decimal(&mut s, total as u64);
    assert(s@ =~= progress_text(current as nat, total as nat));
    s
}

} // verus!
