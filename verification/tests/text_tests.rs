use codewatch::git::commit_count;
use codewatch::note::{editor_command, get_note_path, note_command_template, note_template};
use codewatch::parser::{collect_imports, parse_imports};
use codewatch::text::{contains, u64_to_decimal};

#[test]
fn test_parse_imports() {
    let content = r#"
            import { foo } from 'bar';
            import baz from "./baz";
            const x = require('lib');
        "#;
    let pattern = r#"from\s+['"]([^'"]+)['"]"#;
    let imports = parse_imports(content, pattern);
    assert_eq!(imports, vec!["bar".to_string(), "./baz".to_string()]);
}

#[test]
fn test_parse_imports_empty() {
    let content = "const x = 10;";
    let pattern = r#"from\s+['"]([^'"]+)['"]"#;
    let imports = parse_imports(content, pattern);
    assert!(imports.is_empty());
}

#[test]
fn parse_imports_invalid_pattern_and_optional_group() {
    assert!(parse_imports("use a;", "use (").is_empty());
    assert_eq!(parse_imports("x1 y z2", r"[a-z](\d)?"), vec!["1".to_string(), "2".to_string()]);
}

#[test]
fn commit_counts() {
    assert_eq!(commit_count(true, ""), 0);
    assert_eq!(commit_count(true, "abc first\n"), 1);
    assert_eq!(commit_count(true, "abc first\ndef second"), 2);
    assert_eq!(commit_count(true, "a\n\nb\n"), 3);
    assert_eq!(commit_count(false, "a\nb\n"), 0);
}

#[test]
fn note_paths_and_templates() {
    assert_eq!(get_note_path("/w", "0123456789abcdef"), "/w/.codewatch/notes/0123456789abcdef.md");
    assert_eq!(
        note_template("src/main.rs", "2024-01-02"),
        "# src/main.rs\n\n理解度: 0/5\n最終確認: 2024-01-02\n\n<!-- ここにメモを書く -->\n"
    );
    assert_eq!(
        note_command_template("a.rs", "2024-01-02"),
        "# a.rs\n\n理解度: 0/5\n最終確認: 2024-01-02\n\n<!-- ここにメモを書く -->\n# 役割\n# 構造\n# 疑問・気になった点\n"
    );
}

#[test]
fn editor_commands() {
    let (prog, args) = editor_command("  code --wait\t-n ").unwrap();
    assert_eq!(prog, "code");
    assert_eq!(args, vec!["--wait".to_string(), "-n".to_string()]);
    assert_eq!(editor_command("vi").unwrap().1.len(), 0);
    assert!(editor_command(" \u{3000}\n").is_none());
}

#[test]
fn text_helpers() {
    assert_eq!(u64_to_decimal(0), "0");
    assert_eq!(u64_to_decimal(18446744073709551615), "18446744073709551615");
    assert!(contains("./utils/extra", "utils"));
    assert!(contains("abc", ""));
    assert!(!contains("ab", "abc"));
}

#[test]
fn collect_imports_skips_missing_groups() {
    let caps = vec![Some("a".to_string()), None, Some("b".to_string()), None];
    assert_eq!(collect_imports(&caps), vec!["a".to_string(), "b".to_string()]);
    assert!(collect_imports(&Vec::new()).is_empty());
}
