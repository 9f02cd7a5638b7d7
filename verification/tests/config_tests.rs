use codewatch::config::{get_config_path, Config, LanguageConfig};

fn strings(v: &[&str]) -> Vec<String> {
    v.iter().map(|s| s.to_string()).collect()
}

const SCRIPT: &str = r#"from\s+['"]([^'"]+)['"]"#;

#[test]
fn test_config_parsing_new_format() {
    let config = Config {
        version: 1,
        languages: vec![
            (
                "typescript".to_string(),
                LanguageConfig { extensions: strings(&[".ts", ".tsx"]), import_pattern: SCRIPT.to_string() },
            ),
            (
                "rust".to_string(),
                LanguageConfig { extensions: strings(&[".rs"]), import_pattern: r#"use\s+([\w:]+)"#.to_string() },
            ),
        ],
        target_extensions: Vec::new(),
        exclude_patterns: strings(&["node_modules"]),
    };
    assert_eq!(config.version, 1);
    assert!(config.language("typescript").is_some());
    assert!(config.language("rust").is_some());
    assert_eq!(config.get_import_pattern(".ts"), Some(SCRIPT));
    assert_eq!(config.get_import_pattern(".rs"), Some(r#"use\s+([\w:]+)"#));
    assert_eq!(config.get_import_pattern(".py"), None);
}

#[test]
fn test_config_parsing_old_format() {
    let config = Config {
        version: 1,
        languages: Vec::new(),
        target_extensions: strings(&[".ts", ".tsx"]),
        exclude_patterns: strings(&["node_modules"]),
    };
    assert_eq!(config.version, 1);
    assert!(config.languages.is_empty());
    assert_eq!(config.target_extensions, vec![".ts".to_string(), ".tsx".to_string()]);
    assert_eq!(config.get_import_pattern(".ts"), Some(SCRIPT));
    assert_eq!(config.get_import_pattern(".rs"), None);
}

#[test]
fn test_config_upgrade() {
    let mut config = Config {
        version: 1,
        languages: Vec::new(),
        target_extensions: strings(&[".ts", ".tsx", ".js", ".jsx", ".custom"]),
        exclude_patterns: strings(&["node_modules"]),
    };

    config.upgrade();

    assert!(config.target_extensions.is_empty());
    assert_eq!(config.languages.len(), 2);

    let ts_config = config.language("typescript").unwrap();
    assert_eq!(ts_config.extensions, vec![".ts".to_string(), ".tsx".to_string()]);
    assert_eq!(ts_config.import_pattern, SCRIPT);

    let js_config = config.language("javascript").unwrap();
    assert_eq!(js_config.extensions, vec![".js".to_string(), ".jsx".to_string(), ".custom".to_string()]);
    assert_eq!(js_config.import_pattern, SCRIPT);
}

#[test]
fn upgrade_keeps_patterns_and_is_idempotent() {
    let mut config = Config {
        version: 1,
        languages: vec![(
            "rust".to_string(),
            LanguageConfig { extensions: strings(&[".rs"]), import_pattern: "use".to_string() },
        )],
        target_extensions: strings(&[".vue", ".tsx"]),
        exclude_patterns: Vec::new(),
    };
    let before: Vec<Option<String>> =
        [".rs", ".vue", ".tsx", ".py"].iter().map(|e| config.get_import_pattern(e).map(|s| s.to_string())).collect();
    config.upgrade();
    let after: Vec<Option<String>> =
        [".rs", ".vue", ".tsx", ".py"].iter().map(|e| config.get_import_pattern(e).map(|s| s.to_string())).collect();
    assert_eq!(before, after);
    assert_eq!(config.languages.len(), 3);
    let names: Vec<&str> = config.languages.iter().map(|(n, _)| n.as_str()).collect();
    assert_eq!(names, vec!["rust", "typescript", "javascript"]);
    config.upgrade();
    assert_eq!(config.languages.len(), 3);
}

#[test]
fn upgrade_replaces_existing_language() {
    let mut config = Config {
        version: 1,
        languages: vec![(
            "typescript".to_string(),
            LanguageConfig { extensions: strings(&[".mts"]), import_pattern: "x".to_string() },
        )],
        target_extensions: strings(&[".ts"]),
        exclude_patterns: Vec::new(),
    };
    config.upgrade();
    assert_eq!(config.languages.len(), 1);
    assert_eq!(config.language("typescript").unwrap().extensions, strings(&[".ts"]));
    assert_eq!(config.get_import_pattern(".mts"), None);
}

#[test]
fn default_config_contents() {
    let config = Config::default();
    assert_eq!(config.version, 1);
    assert_eq!(config.languages.len(), 4);
    assert_eq!(config.get_import_pattern(".tsx"), Some(SCRIPT));
    assert_eq!(config.get_import_pattern(".jsx"), Some(SCRIPT));
    assert_eq!(config.get_import_pattern(".rs"), Some(r#"use\s+([\w:]+)"#));
    assert_eq!(config.get_import_pattern(".py"), Some(r#"^(?:from|import)\s+([\w\.]+)"#));
    assert_eq!(config.exclude_patterns, strings(&["node_modules", "dist", "build"]));
    assert!(config.target_extensions.is_empty());
}

#[test]
fn find_matched_extension_order() {
    let config = Config {
        version: 1,
        languages: vec![(
            "a".to_string(),
            LanguageConfig { extensions: strings(&[".ts", ".d.ts"]), import_pattern: "p".to_string() },
        )],
        target_extensions: strings(&[".md"]),
        exclude_patterns: Vec::new(),
    };
    assert_eq!(config.find_matched_extension("x/y.d.ts").as_deref(), Some(".ts"));
    assert_eq!(config.find_matched_extension("README.md").as_deref(), Some(".md"));
    assert_eq!(config.find_matched_extension("main.rs"), None);
}

#[test]
fn config_path() {
    assert_eq!(get_config_path("/w"), "/w/.codewatch/config.yml");
}

fn lang(exts: &[&str], pattern: &str) -> LanguageConfig {
    LanguageConfig { extensions: strings(exts), import_pattern: pattern.to_string() }
}

#[test]
fn config_equality_ignores_language_order() {
    let a = Config {
        version: 1,
        languages: vec![("rust".to_string(), lang(&[".rs"], "r")), ("python".to_string(), lang(&[".py"], "p"))],
        target_extensions: Vec::new(),
        exclude_patterns: strings(&["dist"]),
    };
    let mut b = a.clone();
    b.languages.reverse();
    assert!(a == b);
    assert!(a.same_settings(&b));
    let mut c = a.clone();
    c.languages[0].1.extensions.push(".rlib".to_string());
    assert!(a != c);
    let mut d = a.clone();
    d.exclude_patterns.clear();
    assert!(a != d);
    assert!(Config::default() == Config::default());
}
