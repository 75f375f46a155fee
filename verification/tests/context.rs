use openclaw::context::{CodebaseContext, CodebaseScanner, ExistingTaskSummary, KeyFileInfo, ProjectType};

fn key_file(path: &str, kind: &str, snippet: Option<&str>) -> KeyFileInfo {
    KeyFileInfo {
        path: path.into(),
        file_kind: kind.into(),
        snippet: snippet.map(String::from),
    }
}

#[test]
fn context_test_detect_rust() {
    let files = vec![KeyFileInfo {
        path: "Cargo.toml".into(),
        file_kind: "Manifest".into(),
        snippet: None,
    }];
    assert_eq!(
        CodebaseScanner::detect_project_type(&files),
        ProjectType::Rust
    );
}

#[test]
fn test_detect_mixed() {
    let files = vec![
        KeyFileInfo {
            path: "Cargo.toml".into(),
            file_kind: "Manifest".into(),
            snippet: None,
        },
        KeyFileInfo {
            path: "package.json".into(),
            file_kind: "Manifest".into(),
            snippet: None,
        },
    ];
    let pt = CodebaseScanner::detect_project_type(&files);
    assert!(matches!(pt, ProjectType::Mixed(_)));
}

#[test]
fn test_build_summary_no_tasks() {
    let summary = CodebaseScanner::build_summary(
        &ProjectType::Rust,
        &[KeyFileInfo {
            path: "Cargo.toml".into(),
            file_kind: "Manifest".into(),
            snippet: Some("[package]\nname = \"test\"".into()),
        }],
        &[],
    );
    assert!(summary.contains("Rust"));
    assert!(summary.contains("Cargo.toml"));
    assert!(summary.contains("Henüz görev yok"));
}

#[test]
fn test_build_summary_with_tasks() {
    let tasks = vec![
        ExistingTaskSummary {
            title: "Login ekle".into(),
            status: "todo".into(),
        },
        ExistingTaskSummary {
            title: "API yazılacak".into(),
            status: "inprogress".into(),
        },
    ];
    let summary = CodebaseScanner::build_summary(&ProjectType::TypeScript, &[], &tasks);
    assert!(summary.contains("Login ekle"));
    assert!(summary.contains("inprogress"));
}

#[test]
fn summary_exact_text() {
    let files = vec![
        key_file("Cargo.toml", "Manifest", Some("  [package]  \nname = \"x\"")),
        key_file("src", "SourceDir", None),
        key_file("README.md", "Readme", Some("\n")),
    ];
    let tasks = vec![ExistingTaskSummary { title: "Login".into(), status: "todo".into() }];
    let summary = CodebaseScanner::build_summary(&ProjectType::Rust, &files, &tasks);
    let expected = "## Proje Tipi\nRust\n\n## Anahtar Dosyalar\n- `Cargo.toml` → [package]\n- `README.md`\n\n### Cargo.toml\n```\n  [package]  \nname = \"x\"\n```\n\n\n## Mevcut Görevler (Yeni görev oluştururken duplikasyondan kaçın)\n- [todo] Login\n";
    assert_eq!(summary, expected);
}

#[test]
fn summary_without_listed_files_has_two_sections() {
    let files = vec![key_file("src", "SourceDir", None)];
    let summary = CodebaseScanner::build_summary(&ProjectType::Unknown, &files, &[]);
    assert_eq!(summary, "## Proje Tipi\nUnknown\n\n## Mevcut Görevler\nHenüz görev yok.");
}

#[test]
fn only_first_three_manifest_snippets_are_shown() {
    let files = vec![
        key_file("Cargo.toml", "Manifest", Some("a")),
        key_file("package.json", "Manifest", None),
        key_file("go.mod", "Manifest", Some("c")),
        key_file("Gemfile", "Manifest", Some("d")),
    ];
    let summary = CodebaseScanner::build_summary(&ProjectType::Unknown, &files, &[]);
    assert!(summary.contains("### Cargo.toml"));
    assert!(summary.contains("### go.mod"));
    assert!(!summary.contains("### Gemfile"));
    assert!(!summary.contains("### package.json"));
    assert!(summary.contains("- `Gemfile` → d"));
}

#[test]
fn mixed_languages_are_listed_once_in_order() {
    let files = vec![
        key_file("package.json", "Manifest", None),
        key_file("Cargo.toml", "Manifest", None),
        key_file("pyproject.toml", "Manifest", None),
        key_file("requirements.txt", "Manifest", None),
        key_file("README.md", "Readme", None),
    ];
    let pt = CodebaseScanner::detect_project_type(&files);
    assert_eq!(
        pt,
        ProjectType::Mixed(vec![
            "TypeScript/JavaScript".to_string(),
            "Rust".to_string(),
            "Python".to_string()
        ])
    );
    assert_eq!(pt.label(), "TypeScript/JavaScript + Rust + Python");
}

#[test]
fn one_language_from_two_files() {
    let files = vec![key_file("pom.xml", "Manifest", None), key_file("build.gradle", "Manifest", None)];
    assert_eq!(CodebaseScanner::detect_project_type(&files), ProjectType::Java);
    let none: Vec<KeyFileInfo> = vec![key_file("Dockerfile", "Config", None)];
    assert_eq!(CodebaseScanner::detect_project_type(&none), ProjectType::Unknown);
}

#[test]
fn labels() {
    assert_eq!(ProjectType::Php.label(), "PHP");
    assert_eq!(ProjectType::Go.label(), "Go");
    assert_eq!(ProjectType::Mixed(vec![]).label(), "");
    assert_eq!(ProjectType::Mixed(vec!["Go".into()]).label(), "Go");
}

#[test]
fn snippet_keeps_first_lines() {
    assert_eq!(CodebaseScanner::snippet_of("a\nb\r\nc\n", 2), Some("a\nb".to_string()));
    assert_eq!(CodebaseScanner::snippet_of("a\nb\n", 25), Some("a\nb".to_string()));
    assert_eq!(CodebaseScanner::snippet_of("", 25), None);
    assert_eq!(CodebaseScanner::snippet_of("x", 0), None);
}

#[test]
fn key_files_of_repo_follow_the_tables() {
    let table = CodebaseScanner::manifest_files();
    assert_eq!(table.len(), 14);
    assert_eq!(table[0], ("Cargo.toml", "Manifest"));
    assert_eq!(CodebaseScanner::source_dirs(), vec!["src", "lib", "app", "pkg", "cmd"]);

    let mut found: Vec<Option<Option<String>>> = vec![None; table.len()];
    found[0] = Some(Some("[package]\nname = \"x\"".to_string()));
    found[9] = Some(None);
    let dirs = vec![true, false, false, false, true];
    let files = CodebaseScanner::key_files_of_repo(&found, &dirs);
    let seen: Vec<(String, String, Option<String>)> = files
        .iter()
        .map(|f| (f.path.clone(), f.file_kind.clone(), f.snippet.clone()))
        .collect();
    assert_eq!(
        seen,
        vec![
            ("Cargo.toml".to_string(), "Manifest".to_string(), Some("[package]\nname = \"x\"".to_string())),
            ("README.md".to_string(), "Readme".to_string(), None),
            ("src".to_string(), "SourceDir".to_string(), None),
            ("cmd".to_string(), "SourceDir".to_string(), None),
        ]
    );
}

#[test]
fn context_and_brief() {
    let files = vec![key_file("go.mod", "Manifest", Some("module x"))];
    let tasks = vec![ExistingTaskSummary { title: "T".into(), status: "todo".into() }];
    let ctx: CodebaseContext = CodebaseScanner::context_of(files, tasks);
    assert_eq!(ctx.project_type, ProjectType::Go);
    let brief = ctx.brief();
    assert_eq!(brief.project_type, "Go");
    assert_eq!(brief.key_file_count, 1);
    assert_eq!(brief.existing_task_count, 1);
    assert_eq!(brief.summary, ctx.summary);
    assert!(ctx.summary.starts_with("## Proje Tipi\nGo\n\n"));
    assert!(ctx.summary.ends_with("- [todo] T\n"));
}
