use codewatch::config::Config;
use codewatch::scan::{file_stem, glob_to_regex, is_indexable, progress_line, reference_counts, ExcludeMatcher, FileImports};

#[test]
fn test_exclude_matcher() {
    let patterns = vec!["node_modules".to_string(), "dist".to_string(), "*.test.ts".to_string()];
    let matcher = ExcludeMatcher::new(&patterns).unwrap();

    // Exact component match
    assert!(matcher.is_excluded("node_modules/abc/def.ts"));
    assert!(matcher.is_excluded("src/dist/def.ts"));

    // Wildcard match
    assert!(matcher.is_excluded("src/components/button.test.ts"));

    // Non-excluded
    assert!(!matcher.is_excluded("src/components/button.ts"));
    assert!(!matcher.is_excluded("src/main.rs"));
}

#[test]
fn glob_to_regex_cases() {
    assert_eq!(glob_to_regex("*.test.ts"), r"^.*\.test\.ts$");
    assert_eq!(glob_to_regex("a?b"), "^a.b$");
    assert_eq!(glob_to_regex("(x)[y]{z}|$^+\\"), r"^\(x\)\[y\]\{z\}\|\$\^\+\\$");
    assert_eq!(glob_to_regex(""), "^$");
}

#[test]
fn exclude_matcher_question_mark_and_empty() {
    let matcher = ExcludeMatcher::new(&["b?ild".to_string()]).unwrap();
    assert!(matcher.is_excluded("x/build/y.rs"));
    assert!(!matcher.is_excluded("x/buuild/y.rs"));
    let none = ExcludeMatcher::new(&[]).unwrap();
    assert!(!none.is_excluded("anything"));
}

#[test]
fn file_stems() {
    assert_eq!(file_stem("src/main.rs").as_deref(), Some("main"));
    assert_eq!(file_stem("a/archive.tar.gz").as_deref(), Some("archive.tar"));
    assert_eq!(file_stem(".bashrc").as_deref(), Some(".bashrc"));
    assert_eq!(file_stem("Makefile").as_deref(), Some("Makefile"));
    assert_eq!(file_stem("x."), Some("x".to_string()));
    assert_eq!(file_stem("a/.."), None);
    assert_eq!(file_stem("/"), None);
    assert_eq!(file_stem(""), None);
}

fn file(path: &str, imports: &[&str]) -> FileImports {
    FileImports { path: path.to_string(), imports: imports.iter().map(|s| s.to_string()).collect() }
}

#[test]
fn reference_counting() {
    let files = vec![
        file("src/utils.ts", &["./main", "lodash"]),
        file("src/main.ts", &["./utils", "./utils/extra", "react"]),
        file("src/app.ts", &["./main", "./utils"]),
    ];
    let counts = reference_counts(&files).unwrap();
    assert_eq!(counts, vec![3, 2, 0]);
}

#[test]
fn reference_counting_ignores_own_imports() {
    let files = vec![file("a/self.ts", &["./self", "./self"])];
    assert_eq!(reference_counts(&files), Some(vec![0]));
}

#[test]
fn indexable_files() {
    let config = Config::default();
    let matcher = ExcludeMatcher::new(&config.exclude_patterns).unwrap();
    assert!(is_indexable(&config, &matcher, "src/app.ts"));
    assert!(!is_indexable(&config, &matcher, ".codewatch/x.ts"));
    assert!(!is_indexable(&config, &matcher, "node_modules/x.ts"));
    assert!(!is_indexable(&config, &matcher, "README.md"));
}

#[test]
fn progress_lines() {
    assert_eq!(progress_line(0, 4), "\r[                    ] 0/4");
    assert_eq!(progress_line(2, 4), "\r[==========          ] 2/4");
    assert_eq!(progress_line(4, 4), "\r[====================] 4/4");
    assert_eq!(progress_line(0, 0), "\r[====================] 0/0");
}
