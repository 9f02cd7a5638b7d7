//! The project configuration: which file extensions belong to which language,
//! the import pattern of each language, and the exclusion patterns.

use vstd::prelude::*;
use crate::text::{str_eq, ends_with, strings_view, has_suffix};
use crate::paths::join_text;

verus! {

/// The language settings of one language.
#[derive(Clone, Debug, PartialEq, Eq)]
pub struct LanguageConfig {
    pub extensions: Vec<String>,
    pub import_pattern: String,
}

/// The settings of a language, as values.
#[verifier::ext_equal]
pub struct LanguageSpec {
    pub extensions: Seq<Seq<char>>,
    pub import_pattern: Seq<char>,
}

impl View for LanguageConfig {
    type V = LanguageSpec;

    open spec fn view(&self) -> LanguageSpec {
        LanguageSpec { extensions: strings_view(self.extensions@), import_pattern: self.import_pattern@ }
    }
}

/// The project configuration. `languages` pairs each language name with its
/// settings; names do not repeat (see `well_formed`). `target_extensions` is
/// the older flat list of extensions, all read with the import pattern of
/// TypeScript and JavaScript.
#[derive(Clone, Debug)]
pub struct Config {
    pub version: u32,
    pub languages: Vec<(String, LanguageConfig)>,
    pub target_extensions: Vec<String>,
    pub exclude_patterns: Vec<String>,
}

/// The configuration as values.
#[verifier::ext_equal]
pub struct ConfigSpec {
    pub version: u32,
    pub languages: Seq<(Seq<char>, LanguageSpec)>,
    pub target_extensions: Seq<Seq<char>>,
    pub exclude_patterns: Seq<Seq<char>>,
}

pub open spec fn languages_view(v: Seq<(String, LanguageConfig)>) -> Seq<(Seq<char>, LanguageSpec)> {
    v.map_values(|p: (String, LanguageConfig)| (p.0@, p.1@))
}

impl View for Config {
    type V = ConfigSpec;

    open spec fn view(&self) -> ConfigSpec {
        ConfigSpec {
            version: self.version,
            languages: languages_view(self.languages@),
            target_extensions: strings_view(self.target_extensions@),
            exclude_patterns: strings_view(self.exclude_patterns@),
        }
    }
}

/// The import pattern of TypeScript and JavaScript, also used for the
/// extensions of the older flat format.
pub open spec fn script_import_pattern() -> Seq<char> {
    "from\\s+['\"]([^'\"]+)['\"]"@
}

/// The import pattern of Rust.
pub open spec fn rust_import_pattern() -> Seq<char> {
    "use\\s+([\\w:]+)"@
}

/// The import pattern of Python.
pub open spec fn python_import_pattern() -> Seq<char> {
    "^(?:from|import)\\s+([\\w\\.]+)"@
}

/// No language name occurs twice.
pub open spec fn names_distinct(langs: Seq<(Seq<char>, LanguageSpec)>) -> bool {
    forall|i: int, j: int| 0 <= i < j < langs.len() ==> langs[i].0 != langs[j].0
}

impl ConfigSpec {
    pub open spec fn well_formed(self) -> bool {
        names_distinct(self.languages)
    }
}

/// The import pattern of the first language (in order) whose extensions
/// include `ext`.
pub open spec fn language_pattern(langs: Seq<(Seq<char>, LanguageSpec)>, ext: Seq<char>) -> Option<
    Seq<char>,
>
    decreases langs.len(),
{
    if langs.len() == 0 {
        None
    } else {
        let earlier = language_pattern(langs.drop_last(), ext);
        if earlier is Some {
            earlier
        } else if langs.last().1.extensions.contains(ext) {
            Some(langs.last().1.import_pattern)
        } else {
            None
        }
    }
}

/// The import pattern for files with extension `ext`: that of a language
/// listing `ext`, else the script pattern when the flat list has `ext`.
pub open spec fn import_pattern_for(c: ConfigSpec, ext: Seq<char>) -> Option<Seq<char>> {
    let p = language_pattern(c.languages, ext);
    if p is Some {
        p
    } else if c.target_extensions.contains(ext) {
        Some(script_import_pattern())
    } else {
        None
    }
}

/// The first extension in `exts` that `path` ends with.
pub open spec fn first_suffix(exts: Seq<Seq<char>>, path: Seq<char>) -> Option<Seq<char>>
    decreases exts.len(),
{
    if exts.len() == 0 {
        None
    } else {
        let earlier = first_suffix(exts.drop_last(), path);
        if earlier is Some {
            earlier
        } else if has_suffix(path, exts.last()) {
            Some(exts.last())
        } else {
            None
        }
    }
}

/// The first extension, over the languages in order, that `path` ends with.
pub open spec fn language_suffix(langs: Seq<(Seq<char>, LanguageSpec)>, path: Seq<char>) -> Option<
    Seq<char>,
>
    decreases langs.len(),
{
    if langs.len() == 0 {
        None
    } else {
        let earlier = language_suffix(langs.drop_last(), path);
        if earlier is Some {
            earlier
        } else {
            first_suffix(langs.last().1.extensions, path)
        }
    }
}

/// The configured extension that `path` ends with: languages first, then the
/// flat list.
pub open spec fn matched_extension(c: ConfigSpec, path: Seq<char>) -> Option<Seq<char>> {
    let l = language_suffix(c.languages, path);
    if l is Some {
        l
    } else {
        first_suffix(c.target_extensions, path)
    }
}

fn list_contains(list: &Vec<String>, item: &str) -> (r: bool)
    ensures
        r == strings_view(list@).contains(item@),
{
    let mut i: usize = 0;
    while i < list.len()
        invariant
            i <= list@.len(),
            forall|j: int| 0 <= j < i ==> list@[j]@ != item@,
        decreases list@.len() - i,
    {
        if str_eq(list[i].as_str(), item) {
            assert(strings_view(list@)[i as int] == item@);
            return true;
        }
        i = i + 1;
    }
    assert forall|j: int| 0 <= j < strings_view(list@).len() implies strings_view(list@)[j] != item@ by {
        assert(strings_view(list@)[j] == list@[j]@);
    }
    false
}

fn list_first_suffix(list: &Vec<String>, path: &str) -> (r: Option<String>)
    ensures
        match r {
            Some(e) => first_suffix(strings_view(list@), path@) == Some(e@),
            None => first_suffix(strings_view(list@), path@) is None,
        },
{
    let ghost v = strings_view(list@);
    let mut i: usize = 0;
    while i < list.len()
        invariant
            i <= list@.len(),
            v == strings_view(list@),
            first_suffix(v.take(i as int), path@) is None,
        decreases list@.len() - i,
    {
        assert(v.take(i + 1).drop_last() =~= v.take(i as int));
        if ends_with(path, list[i].as_str()) {
            let e = list[i].clone();
            proof { lemma_first_suffix_prefix(v, path@, i + 1); }
            return Some(e);
        }
        i = i + 1;
    }
    assert(v.take(list@.len() as int) =~= v);
    None
}

proof fn lemma_first_suffix_prefix(v: Seq<Seq<char>>, path: Seq<char>, k: int)
    requires
        0 <= k <= v.len(),
        first_suffix(v.take(k), path) is Some,
    ensures
        first_suffix(v, path) == first_suffix(v.take(k), path),
    decreases v.len() - k,
{
    if k < v.len() {
        assert(v.take(k + 1).drop_last() =~= v.take(k));
        lemma_first_suffix_prefix(v, path, k + 1);
    } else {
        assert(v.take(k) =~= v);
    }
}

proof fn lemma_language_pattern_prefix(v: Seq<(Seq<char>, LanguageSpec)>, ext: Seq<char>, k: int)
    requires
        0 <= k <= v.len(),
        language_pattern(v.take(k), ext) is Some,
    ensures
        language_pattern(v, ext) == language_pattern(v.take(k), ext),
    decreases v.len() - k,
{
    if k < v.len() {
        assert(v.take(k + 1).drop_last() =~= v.take(k));
        lemma_language_pattern_prefix(v, ext, k + 1);
    } else {
        assert(v.take(k) =~= v);
    }
}

proof fn lemma_language_suffix_prefix(v: Seq<(Seq<char>, LanguageSpec)>, path: Seq<char>, k: int)
    requires
        0 <= k <= v.len(),
        language_suffix(v.take(k), path) is Some,
    ensures
        language_suffix(v, path) == language_suffix(v.take(k), path),
    decreases v.len() - k,
{
    if k < v.len() {
        assert(v.take(k + 1).drop_last() =~= v.take(k));
        lemma_language_suffix_prefix(v, path, k + 1);
    } else {
        assert(v.take(k) =~= v);
    }
}

impl Config {
    /// The import pattern for files with extension `ext`: that of the first
    /// language listing `ext`, else the TypeScript/JavaScript pattern when the
    /// older flat list has `ext`, else none.
    pub fn get_import_pattern(&self, ext: &str) -> (r: Option<&str>)
        ensures
            match r {
                Some(p) => import_pattern_for(self@, ext@) == Some(p@),
                None => import_pattern_for(self@, ext@) is None,
            },
    {
        let ghost langs = self@.languages;
        let mut i: usize = 0;
        while i < self.languages.len()
            invariant
                i <= self.languages@.len(),
                langs == languages_view(self.languages@),
                language_pattern(langs.take(i as int), ext@) is None,
            decreases self.languages@.len() - i,
        {
            assert(langs.take(i + 1).drop_last() =~= langs.take(i as int));
            assert(langs.take(i + 1).last() == (self.languages@[i as int].0@, self.languages@[i as int].1@));
            if list_contains(&self.languages[i].1.extensions, ext) {
                proof { lemma_language_pattern_prefix(langs, ext@, i + 1); }
                return Some(self.languages[i].1.import_pattern.as_str());
            }
            i = i + 1;
        }
        assert(langs.take(self.languages@.len() as int) =~= langs);
        if list_contains(&self.target_extensions, ext) {
            return Some("from\\s+['\"]([^'\"]+)['\"]");
        }
        None
    }

    /// The configured extension that `rel_path` ends with: the first match over
    /// the languages in order, then over the older flat list.
    pub fn find_matched_extension(&self, rel_path: &str) -> (r: Option<String>)
        ensures
            match r {
                Some(e) => matched_extension(self@, rel_path@) == Some(e@),
                None => matched_extension(self@, rel_path@) is None,
            },
    {
        let ghost langs = self@.languages;
        let mut i: usize = 0;
        while i < self.languages.len()
            invariant
                i <= self.languages@.len(),
                langs == languages_view(self.languages@),
                language_suffix(langs.take(i as int), rel_path@) is None,
            decreases self.languages@.len() - i,
        {
            assert(langs.take(i + 1).drop_last() =~= langs.take(i as int));
            assert(langs.take(i + 1).last() == (self.languages@[i as int].0@, self.languages@[i as int].1@));
            let found = list_first_suffix(&self.languages[i].1.extensions, rel_path);
            if found.is_some() {
                proof { lemma_language_suffix_prefix(langs, rel_path@, i + 1); }
                return found;
            }
            i = i + 1;
        }
        assert(langs.take(self.languages@.len() as int) =~= langs);
        list_first_suffix(&self.target_extensions, rel_path)
    }
}

} // verus!

verus! {

/// Whether an extension of the flat list belongs to TypeScript.
pub open spec fn is_ts_ext(e: Seq<char>) -> bool {
    e == ".ts"@ || e == ".tsx"@
}

/// The TypeScript extensions of a flat list, in order.
pub open spec fn ts_exts(exts: Seq<Seq<char>>) -> Seq<Seq<char>>
    decreases exts.len(),
{
    if exts.len() == 0 {
        Seq::<Seq<char>>::empty()
    } else if is_ts_ext(exts.last()) {
        ts_exts(exts.drop_last()).push(exts.last())
    } else {
        ts_exts(exts.drop_last())
    }
}

/// The other extensions of a flat list, in order; they go to JavaScript.
pub open spec fn js_exts(exts: Seq<Seq<char>>) -> Seq<Seq<char>>
    decreases exts.len(),
{
    if exts.len() == 0 {
        Seq::<Seq<char>>::empty()
    } else if !is_ts_ext(exts.last()) {
        js_exts(exts.drop_last()).push(exts.last())
    } else {
        js_exts(exts.drop_last())
    }
}

/// The position of the first language called `name`, or the length of the
/// list when there is none.
pub open spec fn name_position(langs: Seq<(Seq<char>, LanguageSpec)>, name: Seq<char>) -> int
    decreases langs.len(),
{
    if langs.len() == 0 {
        0
    } else {
        let p = name_position(langs.drop_last(), name);
        if p < langs.len() - 1 {
            p
        } else if langs.last().0 == name {
            langs.len() - 1
        } else {
            langs.len() as int
        }
    }
}

/// `langs` with the settings of `name` set to `lang`: replaced in place when the
/// name is present, added at the end otherwise.
pub open spec fn set_language(
    langs: Seq<(Seq<char>, LanguageSpec)>,
    name: Seq<char>,
    lang: LanguageSpec,
) -> Seq<(Seq<char>, LanguageSpec)> {
    let i = name_position(langs, name);
    if i < langs.len() {
        langs.update(i, (name, lang))
    } else {
        langs.push((name, lang))
    }
}

/// The configuration converted from the older flat list of extensions: the
/// TypeScript extensions (`.ts`, `.tsx`) become the `typescript` language and
/// all others the `javascript` language (each only when it gets some), both
/// with the script import pattern, and the flat list is emptied. A
/// configuration without a flat list is left as it is.
pub open spec fn upgraded(c: ConfigSpec) -> ConfigSpec {
    if c.target_extensions.len() == 0 {
        c
    } else {
        let ts = ts_exts(c.target_extensions);
        let js = js_exts(c.target_extensions);
        let l1 = if ts.len() > 0 {
            set_language(
                c.languages,
                "typescript"@,
                LanguageSpec { extensions: ts, import_pattern: script_import_pattern() },
            )
        } else {
            c.languages
        };
        let l2 = if js.len() > 0 {
            set_language(
                l1,
                "javascript"@,
                LanguageSpec { extensions: js, import_pattern: script_import_pattern() },
            )
        } else {
            l1
        };
        ConfigSpec {
            version: c.version,
            languages: l2,
            target_extensions: Seq::<Seq<char>>::empty(),
            exclude_patterns: c.exclude_patterns,
        }
    }
}

proof fn lemma_name_position_bounds(langs: Seq<(Seq<char>, LanguageSpec)>, name: Seq<char>)
    ensures
        0 <= name_position(langs, name) <= langs.len(),
        name_position(langs, name) < langs.len() ==> langs[name_position(langs, name)].0 == name,
        forall|j: int| 0 <= j < name_position(langs, name) ==> langs[j].0 != name,
    decreases langs.len(),
{
    if langs.len() > 0 {
        lemma_name_position_bounds(langs.drop_last(), name);
        assert forall|j: int| 0 <= j < langs.len() - 1 implies langs.drop_last()[j] == langs[j] by {}
    }
}

impl Config {
    fn put_language(&mut self, name: String, lang: LanguageConfig)
        ensures
            final(self)@ == (ConfigSpec {
                languages: set_language(old(self)@.languages, name@, lang@),
                ..old(self)@
            }),
    {
        let ghost langs = self@.languages;
        proof { lemma_name_position_bounds(langs, name@); }
        let mut i: usize = 0;
        while i < self.languages.len()
            invariant
                i <= self.languages@.len(),
                langs == languages_view(self.languages@),
                self.languages@ == old(self).languages@,
                self.target_extensions@ == old(self).target_extensions@,
                self.exclude_patterns@ == old(self).exclude_patterns@,
                self.version == old(self).version,
                forall|j: int| 0 <= j < i ==> langs[j].0 != name@,
            decreases self.languages@.len() - i,
        {
            if str_eq(self.languages[i].0.as_str(), name.as_str()) {
                assert(name_position(langs, name@) == i) by {
                    lemma_name_position_bounds(langs, name@);
                    if name_position(langs, name@) < i {
                        assert(langs[name_position(langs, name@)].0 == name@);
                    }
                    assert(langs[i as int].0 == name@);
                }
                self.languages[i] = (name, lang);
                assert(languages_view(self.languages@) =~= langs.update(i as int, (name@, lang@)));
                return;
            }
            i = i + 1;
        }
        assert(name_position(langs, name@) == langs.len()) by {
            lemma_name_position_bounds(langs, name@);
            if name_position(langs, name@) < langs.len() {
                assert(langs[name_position(langs, name@)].0 == name@);
            }
        }
        self.languages.push((name, lang));
        assert(languages_view(self.languages@) =~= langs.push((name@, lang@)));
    }

    /// Converts the older flat list of extensions into language entries (see
    /// `upgraded`).
    pub fn upgrade(&mut self)
        ensures
            final(self)@ == upgraded(old(self)@),
    {
        if self.target_extensions.len() == 0 {
            return;
        }
        let ghost targets = self@.target_extensions;
        let mut ts: Vec<String> = Vec::new();
        let mut js: Vec<String> = Vec::new();
        let mut i: usize = 0;
        while i < self.target_extensions.len()
            invariant
                i <= self.target_extensions@.len(),
                targets == strings_view(self.target_extensions@),
                strings_view(ts@) == ts_exts(targets.take(i as int)),
                strings_view(js@) == js_exts(targets.take(i as int)),
            decreases self.target_extensions@.len() - i,
        {
            let ghost t = targets.take(i + 1);
            assert(t.drop_last() =~= targets.take(i as int));
            assert(t.last() == self.target_extensions@[i as int]@);
            let ext = &self.target_extensions[i];
            let is_ts = str_eq(ext.as_str(), ".ts") || str_eq(ext.as_str(), ".tsx");
            if is_ts {
                ts.push(ext.clone());
                assert(strings_view(ts@) =~= ts_exts(t));
            } else {
                js.push(ext.clone());
                assert(strings_view(js@) =~= js_exts(t));
            }
            i = i + 1;
        }
        assert(targets.take(targets.len() as int) =~= targets);
        if ts.len() > 0 {
            let lang = LanguageConfig {
                extensions: ts,
                import_pattern: "from\\s+['\"]([^'\"]+)['\"]".to_owned(),
            };
            self.put_language("typescript".to_owned(), lang);
        }
        if js.len() > 0 {
            let lang = LanguageConfig {
                extensions: js,
                import_pattern: "from\\s+['\"]([^'\"]+)['\"]".to_owned(),
            };
            self.put_language("javascript".to_owned(), lang);
        }
        self.target_extensions.clear();
        assert(strings_view(self.target_extensions@) =~= Seq::<Seq<char>>::empty());
    }
}

} // verus!

verus! {

pub open spec fn script_language(exts: Seq<Seq<char>>) -> LanguageSpec {
    LanguageSpec { extensions: exts, import_pattern: script_import_pattern() }
}

/// The configuration written by `init`.
pub open spec fn default_config() -> ConfigSpec {
    ConfigSpec {
        version: 1,
        languages: seq![
            ("typescript"@, script_language(seq![".ts"@, ".tsx"@])),
            ("javascript"@, script_language(seq![".js"@, ".jsx"@])),
            ("rust"@, LanguageSpec { extensions: seq![".rs"@], import_pattern: rust_import_pattern() }),
            ("python"@, LanguageSpec { extensions: seq![".py"@], import_pattern: python_import_pattern() }),
        ],
        target_extensions: Seq::<Seq<char>>::empty(),
        exclude_patterns: seq!["node_modules"@, "dist"@, "build"@],
    }
}

fn language(exts: Vec<String>, pattern: &str) -> (r: LanguageConfig)
    ensures
        r@ == (LanguageSpec { extensions: strings_view(exts@), import_pattern: pattern@ }),
{
    LanguageConfig { extensions: exts, import_pattern: pattern.to_owned() }
}

impl Default for Config {
    /// The configuration written by `init`: TypeScript, JavaScript, Rust and
    /// Python, and the exclusions `node_modules`, `dist` and `build`.
    fn default() -> (r: Self)
        ensures
            r@ == default_config(),
    {
        let script = "from\\s+['\"]([^'\"]+)['\"]";
        let ts = language(vec![".ts".to_owned(), ".tsx".to_owned()], script);
        let js = language(vec![".js".to_owned(), ".jsx".to_owned()], script);
        let rs = language(vec![".rs".to_owned()], "use\\s+([\\w:]+)");
        let py = language(vec![".py".to_owned()], "^(?:from|import)\\s+([\\w\\.]+)");
        assert(ts@ == script_language(seq![".ts"@, ".tsx"@]));
        assert(js@ == script_language(seq![".js"@, ".jsx"@]));
        assert(rs@ == LanguageSpec { extensions: seq![".rs"@], import_pattern: rust_import_pattern() });
        assert(py@ == LanguageSpec { extensions: seq![".py"@], import_pattern: python_import_pattern() });
        let languages = vec![
            ("typescript".to_owned(), ts),
            ("javascript".to_owned(), js),
            ("rust".to_owned(), rs),
            ("python".to_owned(), py),
        ];
        let exclude_patterns = vec!["node_modules".to_owned(), "dist".to_owned(), "build".to_owned()];
        let r = Config { version: 1, languages, target_extensions: Vec::new(), exclude_patterns };
        assert(r@.languages =~= default_config().languages);
        assert(r@.exclude_patterns =~= default_config().exclude_patterns);
        assert(r@.target_extensions =~= default_config().target_extensions);
        r
    }
}

proof fn lemma_language_pattern_push(
    langs: Seq<(Seq<char>, LanguageSpec)>,
    x: (Seq<char>, LanguageSpec),
    ext: Seq<char>,
)
    ensures
        language_pattern(langs.push(x), ext) == (if language_pattern(langs, ext) is Some {
            language_pattern(langs, ext)
        } else if x.1.extensions.contains(ext) {
            Some(x.1.import_pattern)
        } else {
            None
        }),
{
    assert(langs.push(x).drop_last() =~= langs);
}

proof fn lemma_partition_contains(exts: Seq<Seq<char>>, e: Seq<char>)
    ensures
        exts.contains(e) <==> (ts_exts(exts).contains(e) || js_exts(exts).contains(e)),
    decreases exts.len(),
{
    if exts.len() > 0 {
        let d = exts.drop_last();
        lemma_partition_contains(d, e);
        assert(exts =~= d.push(exts.last()));
        if exts.contains(e) {
            let k = choose|k: int| 0 <= k < exts.len() && exts[k] == e;
            if k < d.len() {
                assert(d[k] == e);
                if ts_exts(d).contains(e) {
                    let m = choose|m: int| 0 <= m < ts_exts(d).len() && ts_exts(d)[m] == e;
                    assert(ts_exts(exts)[m] == e);
                } else {
                    let m = choose|m: int| 0 <= m < js_exts(d).len() && js_exts(d)[m] == e;
                    assert(js_exts(exts)[m] == e);
                }
            } else if is_ts_ext(e) {
                assert(ts_exts(exts)[ts_exts(exts).len() - 1] == e);
            } else {
                assert(js_exts(exts)[js_exts(exts).len() - 1] == e);
            }
        }
        if ts_exts(exts).contains(e) {
            let m = choose|m: int| 0 <= m < ts_exts(exts).len() && ts_exts(exts)[m] == e;
            if m < ts_exts(d).len() {
                assert(ts_exts(d)[m] == e);
            } else {
                assert(exts[exts.len() - 1] == e);
            }
        }
        if js_exts(exts).contains(e) {
            let m = choose|m: int| 0 <= m < js_exts(exts).len() && js_exts(exts)[m] == e;
            if m < js_exts(d).len() {
                assert(js_exts(d)[m] == e);
            } else {
                assert(exts[exts.len() - 1] == e);
            }
        }
    }
}

/// Upgrading the older flat list changes no extension's import pattern:
/// every extension of the flat list still gets the script pattern, now through
/// its new language entry, and every other extension keeps the pattern of the
/// language that listed it. This holds when the configuration has no
/// `typescript` or `javascript` language yet (an existing one would be
/// replaced).
pub proof fn upgrade_keeps_import_patterns(c: ConfigSpec, ext: Seq<char>)
    requires
        name_position(c.languages, "typescript"@) == c.languages.len(),
        name_position(c.languages, "javascript"@) == c.languages.len(),
    ensures
        import_pattern_for(upgraded(c), ext) == import_pattern_for(c, ext),
{
    if c.target_extensions.len() > 0 {
        let ts = ts_exts(c.target_extensions);
        let js = js_exts(c.target_extensions);
        let l0 = c.languages;
        let l1 = if ts.len() > 0 { l0.push(("typescript"@, script_language(ts))) } else { l0 };
        reveal_strlit("typescript");
        reveal_strlit("javascript");
        assert("typescript"@ != "javascript"@) by {
            assert("typescript"@[0] != "javascript"@[0]);
        }
        if ts.len() > 0 {
            assert(l1.drop_last() =~= l0);
        }
        assert(name_position(l1, "javascript"@) == l1.len());
        let l2 = if js.len() > 0 { l1.push(("javascript"@, script_language(js))) } else { l1 };
        assert(upgraded(c).languages == l2);
        lemma_partition_contains(c.target_extensions, ext);
        if ts.len() > 0 {
            lemma_language_pattern_push(l0, ("typescript"@, script_language(ts)), ext);
        }
        if js.len() > 0 {
            lemma_language_pattern_push(l1, ("javascript"@, script_language(js)), ext);
        }
    }
}

/// Upgrading twice is upgrading once, and an upgraded configuration has no
/// flat list left.
pub proof fn upgrade_idempotent(c: ConfigSpec)
    ensures
        upgraded(c).target_extensions.len() == 0,
        upgraded(upgraded(c)) == upgraded(c),
{
}

} // verus!

verus! {

/// The configuration file of a project: `<root>/.codewatch/config.yml`.
pub fn get_config_path(project_root: &str) -> (r: String)
    ensures
        r@ == join_text(join_text(project_root@, ".codewatch"@), "config.yml"@),
{
    let dir = crate::paths::join_path(project_root, ".codewatch");
    crate::paths::join_path(dir.as_str(), "config.yml")
}

impl Config {
    /// The settings of the language called `name`, if there is one.
    pub fn language(&self, name: &str) -> (r: Option<&LanguageConfig>)
        ensures
            match r {
                Some(l) => {
                    let i = name_position(self@.languages, name@);
                    i < self@.languages.len() && l@ == self@.languages[i].1
                },
                None => name_position(self@.languages, name@) == self@.languages.len(),
            },
    {
        let ghost langs = self@.languages;
        proof { lemma_name_position_bounds(langs, name@); }
        let mut i: usize = 0;
        while i < self.languages.len()
            invariant
                i <= self.languages@.len(),
                langs == languages_view(self.languages@),
                forall|j: int| 0 <= j < i ==> langs[j].0 != name@,
            decreases self.languages@.len() - i,
        {
            if str_eq(self.languages[i].0.as_str(), name) {
                assert(name_position(langs, name@) == i) by {
                    lemma_name_position_bounds(langs, name@);
                    if name_position(langs, name@) < i {
                        assert(langs[name_position(langs, name@)].0 == name@);
                    }
                    assert(langs[i as int].0 == name@);
                }
                return Some(&self.languages[i].1);
            }
            i = i + 1;
        }
        assert(name_position(langs, name@) == langs.len()) by {
            lemma_name_position_bounds(langs, name@);
            if name_position(langs, name@) < langs.len() {
                assert(langs[name_position(langs, name@)].0 == name@);
            }
        }
        None
    }
}

} // verus!

verus! {

proof fn lemma_set_language_distinct(
    langs: Seq<(Seq<char>, LanguageSpec)>,
    name: Seq<char>,
    lang: LanguageSpec,
)
    requires
        names_distinct(langs),
    ensures
        names_distinct(set_language(langs, name, lang)),
        forall|k: int| 0 <= k < langs.len() ==> (#[trigger] set_language(langs, name, lang)[k]).0 == langs[k].0,
        set_language(langs, name, lang).len() >= langs.len(),
        forall|k: int|
            langs.len() <= k < set_language(langs, name, lang).len() ==> (#[trigger] set_language(langs, name, lang)[k]).0
                == name,
{
    lemma_name_position_bounds(langs, name);
    let i = name_position(langs, name);
    let r = set_language(langs, name, lang);
    if i < langs.len() {
        assert forall|a: int, b: int| 0 <= a < b < r.len() implies r[a].0 != r[b].0 by {
            assert(r[a].0 == langs[a].0);
            assert(r[b].0 == langs[b].0);
        }
    } else {
        assert forall|a: int, b: int| 0 <= a < b < r.len() implies r[a].0 != r[b].0 by {
            if b == langs.len() {
                assert(langs[a].0 != name);
            }
        }
    }
}

/// Upgrading keeps language names unique.
pub proof fn upgrade_keeps_names_distinct(c: ConfigSpec)
    requires
        c.well_formed(),
    ensures
        upgraded(c).well_formed(),
{
    if c.target_extensions.len() > 0 {
        let ts = ts_exts(c.target_extensions);
        let js = js_exts(c.target_extensions);
        lemma_set_language_distinct(c.languages, "typescript"@, script_language(ts));
        let l1 = if ts.len() > 0 {
            set_language(c.languages, "typescript"@, script_language(ts))
        } else {
            c.languages
        };
        lemma_set_language_distinct(l1, "javascript"@, script_language(js));
    }
}

/// The configuration written by `init` names each language once.
pub proof fn default_config_well_formed()
    ensures
        default_config().well_formed(),
{
    reveal_strlit("typescript");
    reveal_strlit("javascript");
    reveal_strlit("rust");
    reveal_strlit("python");
    let l = default_config().languages;
    assert(l[0].0[0] == 't' && l[1].0[0] == 'j' && l[2].0[0] == 'r' && l[3].0[0] == 'p');
}

} // verus!

verus! {

/// The settings of the language called `name`: those of its first entry.
pub open spec fn language_of(langs: Seq<(Seq<char>, LanguageSpec)>, name: Seq<char>) -> Option<LanguageSpec> {
    let i = name_position(langs, name);
    if i < langs.len() {
        Some(langs[i].1)
    } else {
        None
    }
}

/// Two configurations hold the same settings: the same version, flat list and
/// exclusions, and the same settings for every language name, whatever the
/// order in which the languages are listed.
pub open spec fn same_settings(a: ConfigSpec, b: ConfigSpec) -> bool {
    &&& a.version == b.version
    &&& a.target_extensions == b.target_extensions
    &&& a.exclude_patterns == b.exclude_patterns
    &&& forall|name: Seq<char>| #[trigger] language_of(a.languages, name) == language_of(b.languages, name)
}

fn strings_eq(a: &Vec<String>, b: &Vec<String>) -> (r: bool)
    ensures
        r == (strings_view(a@) == strings_view(b@)),
{
    if a.len() != b.len() {
        assert(strings_view(a@).len() != strings_view(b@).len());
        return false;
    }
    let mut i: usize = 0;
    while i < a.len()
        invariant
            a@.len() == b@.len(),
            i <= a@.len(),
            forall|j: int| 0 <= j < i ==> a@[j]@ == b@[j]@,
        decreases a@.len() - i,
    {
        if !str_eq(a[i].as_str(), b[i].as_str()) {
            assert(strings_view(a@)[i as int] != strings_view(b@)[i as int]);
            return false;
        }
        i = i + 1;
    }
    assert(strings_view(a@) =~= strings_view(b@));
    true
}

fn language_settings_eq(x: &LanguageConfig, y: &LanguageConfig) -> (r: bool)
    ensures
        r == (x@ == y@),
{
    let e = strings_eq(&x.extensions, &y.extensions);
    let p = str_eq(x.import_pattern.as_str(), y.import_pattern.as_str());
    if e && p {
        assert(x@ =~= y@);
    }
    e && p
}

impl Config {
    fn agree_on(&self, other: &Config, name: &str) -> (r: bool)
        ensures
            r == (language_of(self@.languages, name@) == language_of(other@.languages, name@)),
    {
        match (self.language(name), other.language(name)) {
            (Some(x), Some(y)) => language_settings_eq(x, y),
            (None, None) => true,
            _ => false,
        }
    }

    /// Whether two configurations hold the same settings (see `same_settings`):
    /// languages are compared by name, not by their position in the list.
    pub fn same_settings(&self, other: &Config) -> (r: bool)
        ensures
            r == same_settings(self@, other@),
    {
        if self.version != other.version {
            return false;
        }
        if !strings_eq(&self.target_extensions, &other.target_extensions) {
            return false;
        }
        if !strings_eq(&self.exclude_patterns, &other.exclude_patterns) {
            return false;
        }
        let ghost a = self@.languages;
        let ghost b = other@.languages;
        let mut i: usize = 0;
        while i < self.languages.len()
            invariant
                i <= self.languages@.len(),
                a == languages_view(self.languages@),
                b == languages_view(other.languages@),
                forall|k: int| 0 <= k < i ==> language_of(a, #[trigger] a[k].0) == language_of(b, a[k].0),
            decreases self.languages@.len() - i,
        {
            assert(a[i as int].0 == self.languages@[i as int].0@);
            if !self.agree_on(other, self.languages[i].0.as_str()) {
                return false;
            }
            i = i + 1;
        }
        let mut j: usize = 0;
        while j < other.languages.len()
            invariant
                j <= other.languages@.len(),
                a == languages_view(self.languages@),
                b == languages_view(other.languages@),
                forall|k: int| 0 <= k < a.len() ==> language_of(a, #[trigger] a[k].0) == language_of(b, a[k].0),
                forall|k: int| 0 <= k < j ==> language_of(a, #[trigger] b[k].0) == language_of(b, b[k].0),
            decreases other.languages@.len() - j,
        {
            assert(b[j as int].0 == other.languages@[j as int].0@);
            if !self.agree_on(other, other.languages[j].0.as_str()) {
                return false;
            }
            j = j + 1;
        }
        assert forall|name: Seq<char>| #[trigger] language_of(a, name) == language_of(b, name) by {
            lemma_name_position_bounds(a, name);
            lemma_name_position_bounds(b, name);
            let pa = name_position(a, name);
            let pb = name_position(b, name);
            if pa < a.len() {
                assert(a[pa].0 == name);
                assert(language_of(a, a[pa].0) == language_of(b, a[pa].0));
            } else if pb < b.len() {
                assert(b[pb].0 == name);
                assert(language_of(a, b[pb].0) == language_of(b, b[pb].0));
            }
        }
        true
    }
}

impl PartialEq for Config {
    /// Configurations are equal when they hold the same settings; the order of
    /// the language list does not matter.
    fn eq(&self, other: &Self) -> (r: bool) {
        self.same_settings(other)
    }
}

impl Eq for Config {
}

impl vstd::std_specs::cmp::PartialEqSpecImpl for Config {
    open spec fn obeys_eq_spec() -> bool {
        true
    }

    open spec fn eq_spec(&self, other: &Self) -> bool {
        same_settings(self@, other@)
    }
}

} // verus!
