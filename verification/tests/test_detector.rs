use openclaw::test_detector::{package_json_declares_test, ProjectFiles, TestDetector};

fn empty() -> ProjectFiles {
    ProjectFiles {
        cargo_toml: false,
        package_json: None,
        pnpm_lock: false,
        yarn_lock: false,
        pyproject_toml: false,
        setup_py: false,
        pytest_ini: false,
        go_mod: false,
        gemfile: false,
        composer_json: false,
        pom_xml: false,
        build_gradle: false,
        build_gradle_kts: false,
    }
}

#[test]
fn test_detector_test_detect_rust() {
    let files = ProjectFiles { cargo_toml: true, ..empty() };
    assert_eq!(TestDetector::detect_from(&files), Some("cargo test --workspace".to_string()));
}

#[test]
fn test_detect_node_pnpm() {
    let files = ProjectFiles {
        package_json: Some(r#"{"scripts": {"test": "vitest"}}"#.to_string()),
        pnpm_lock: true,
        ..empty()
    };
    assert_eq!(TestDetector::detect_from(&files), Some("pnpm run test".to_string()));
}

#[test]
fn test_detect_go() {
    let files = ProjectFiles { go_mod: true, ..empty() };
    assert_eq!(TestDetector::detect_from(&files), Some("go test ./...".to_string()));
}

#[test]
fn test_detect_unknown() {
    assert_eq!(TestDetector::detect_from(&empty()), None);
}

#[test]
fn node_without_test_script_falls_through() {
    let files = ProjectFiles {
        package_json: Some(r#"{"scripts": {"build": "tsc"}}"#.to_string()),
        gemfile: true,
        ..empty()
    };
    assert_eq!(TestDetector::detect_from(&files), Some("bundle exec rspec".to_string()));
    let npm = ProjectFiles { package_json: Some(r#"{"scripts": {"test": "jest"}}"#.to_string()), ..empty() };
    assert_eq!(TestDetector::detect_from(&npm), Some("npm test".to_string()));
    let yarn = ProjectFiles { yarn_lock: true, ..npm.clone() };
    assert_eq!(TestDetector::detect_from(&yarn), Some("yarn test".to_string()));
}

#[test]
fn python_and_jvm_rules() {
    let py = ProjectFiles { setup_py: true, ..empty() };
    assert_eq!(TestDetector::detect_from(&py), Some("python -m pytest".to_string()));
    let py2 = ProjectFiles { setup_py: true, pytest_ini: true, ..empty() };
    assert_eq!(TestDetector::detect_from(&py2), Some("pytest".to_string()));
    let pp = ProjectFiles { pyproject_toml: true, ..empty() };
    assert_eq!(TestDetector::detect_from(&pp), Some("pytest".to_string()));
    let mvn = ProjectFiles { pom_xml: true, build_gradle: true, ..empty() };
    assert_eq!(TestDetector::detect_from(&mvn), Some("mvn test".to_string()));
    let gradle = ProjectFiles { build_gradle_kts: true, ..empty() };
    assert_eq!(TestDetector::detect_from(&gradle), Some("./gradlew test".to_string()));
    let php = ProjectFiles { composer_json: true, ..empty() };
    assert_eq!(TestDetector::detect_from(&php), Some("./vendor/bin/phpunit".to_string()));
}

#[test]
fn package_json_reading() {
    assert!(package_json_declares_test(r#"{"scripts": {"test": "vitest"}}"#));
    assert!(!package_json_declares_test(r#"{"scripts": {"test": 1}}"#));
    assert!(!package_json_declares_test("not json"));
    assert!(!package_json_declares_test(r#"{"name": "x"}"#));
}
