//! Finding the test command of a workspace from the files at its root.

use vstd::prelude::*;

verus! {

/// Whether `serde_json` reads `s` as JSON in which `scripts.test` is a string.
pub uninterp spec fn json_declares_test_script(s: Seq<char>) -> bool;

/// Parses a `package.json` text with `serde_json::from_str` into a `serde_json::Value` and
/// tells whether its `scripts.test` entry is a string; text that is not JSON declares
/// nothing. The contract only names the result `json_declares_test_script`, a function of
/// the text alone (JSON's grammar is not written out).
#[verifier::external_body]
pub fn package_json_declares_test(content: &str) -> (r: bool)
    ensures
        r == json_declares_test_script(content@),
{
    match serde_json::from_str::<serde_json::Value>(content) {
        Ok(json) => json["scripts"]["test"].is_string(),
        Err(_) => false,
    }
}

/// The files at the root of a workspace that decide its test command.
#[derive(Debug, Clone)]
pub struct ProjectFiles {
    pub cargo_toml: bool,
    /// The text of `package.json`, when it exists and could be read.
    pub package_json: Option<String>,
    pub pnpm_lock: bool,
    pub yarn_lock: bool,
    pub pyproject_toml: bool,
    pub setup_py: bool,
    pub pytest_ini: bool,
    pub go_mod: bool,
    pub gemfile: bool,
    pub composer_json: bool,
    pub pom_xml: bool,
    pub build_gradle: bool,
    pub build_gradle_kts: bool,
}

/// The test command for a workspace with these files, by the first rule that applies:
/// Rust, then Node (when `package.json` declares a test script: pnpm, yarn, else npm),
/// Python, Go, Ruby, PHP, Maven, Gradle; `None` when none applies.
pub open spec fn test_command_for(f: ProjectFiles) -> Option<Seq<char>> {
    if f.cargo_toml {
        Some("cargo test --workspace"@)
    } else if f.package_json matches Some(c) && json_declares_test_script(c@) {
        if f.pnpm_lock {
            Some("pnpm run test"@)
        } else if f.yarn_lock {
            Some("yarn test"@)
        } else {
            Some("npm test"@)
        }
    } else if f.pyproject_toml || f.setup_py {
        if f.pytest_ini || f.pyproject_toml {
            Some("pytest"@)
        } else {
            Some("python -m pytest"@)
        }
    } else if f.go_mod {
        Some("go test ./..."@)
    } else if f.gemfile {
        Some("bundle exec rspec"@)
    } else if f.composer_json {
        Some("./vendor/bin/phpunit"@)
    } else if f.pom_xml {
        Some("mvn test"@)
    } else if f.build_gradle || f.build_gradle_kts {
        Some("./gradlew test"@)
    } else {
        None
    }
}

/// Detects test commands.
pub struct TestDetector;

impl TestDetector {
    /// The test command for a workspace with the given root files.
    pub fn detect_from(files: &ProjectFiles) -> (r: Option<String>)
        ensures
            match r {
                Some(c) => test_command_for(*files) == Some(c@),
                None => test_command_for(*files) is None,
            },
    {
        if files.cargo_toml {
            return Some(String::from_str("cargo test --workspace"));
        }
        let node = match &files.package_json {
            Some(c) => package_json_declares_test(c.as_str()),
            None => false,
        };
        if node {
            if files.pnpm_lock {
                return Some(String::from_str("pnpm run test"));
            } else if files.yarn_lock {
                return Some(String::from_str("yarn test"));
            } else {
                return Some(String::from_str("npm test"));
            }
        }
        if files.pyproject_toml || files.setup_py {
            if files.pytest_ini || files.pyproject_toml {
                return Some(String::from_str("pytest"));
            }
            return Some(String::from_str("python -m pytest"));
        }
        if files.go_mod {
            return Some(String::from_str("go test ./..."));
        }
        if files.gemfile {
            return Some(String::from_str("bundle exec rspec"));
        }
        if files.composer_json {
            return Some(String::from_str("./vendor/bin/phpunit"));
        }
        if files.pom_xml {
            return Some(String::from_str("mvn test"));
        }
        if files.build_gradle || files.build_gradle_kts {
            return Some(String::from_str("./gradlew test"));
        }
        None
    }
}

/// Whether the files hold a `package.json` that declares a test script.
pub open spec fn node_test_script(f: ProjectFiles) -> bool {
    f.package_json matches Some(c) && json_declares_test_script(c@)
}

/// Whether the files include one that some rule reads: a Rust, Node (with a test script),
/// Python, Go, Ruby, PHP, Maven or Gradle build file.
pub open spec fn has_build_file(f: ProjectFiles) -> bool {
    f.cargo_toml || node_test_script(f) || f.pyproject_toml
        || f.setup_py || f.go_mod || f.gemfile || f.composer_json || f.pom_xml || f.build_gradle
        || f.build_gradle_kts
}

/// A workspace gets a test command exactly when it has a build file that some rule reads,
/// and each command is given only where the file it runs on is there.
pub proof fn lemma_command_needs_build_file(f: ProjectFiles)
    ensures
        test_command_for(f) is Some <==> has_build_file(f),
        test_command_for(f) == Some("cargo test --workspace"@) ==> f.cargo_toml,
        test_command_for(f) == Some("pnpm run test"@) ==> f.pnpm_lock && f.package_json is Some,
        test_command_for(f) == Some("yarn test"@) ==> f.yarn_lock && f.package_json is Some,
        test_command_for(f) == Some("npm test"@) ==> f.package_json is Some,
        test_command_for(f) == Some("pytest"@) ==> f.pyproject_toml || (f.setup_py && f.pytest_ini),
        test_command_for(f) == Some("python -m pytest"@) ==> f.setup_py,
        test_command_for(f) == Some("go test ./..."@) ==> f.go_mod,
        test_command_for(f) == Some("bundle exec rspec"@) ==> f.gemfile,
        test_command_for(f) == Some("./vendor/bin/phpunit"@) ==> f.composer_json,
        test_command_for(f) == Some("mvn test"@) ==> f.pom_xml,
        test_command_for(f) == Some("./gradlew test"@) ==> f.build_gradle || f.build_gradle_kts,
{
    reveal_strlit("cargo test --workspace");
    assert("cargo test --workspace"@.len() == 22);
    reveal_strlit("pnpm run test");
    assert("pnpm run test"@.len() == 13);
    reveal_strlit("yarn test");
    assert("yarn test"@.len() == 9);
    reveal_strlit("npm test");
    assert("npm test"@.len() == 8);
    reveal_strlit("pytest");
    assert("pytest"@.len() == 6);
    reveal_strlit("python -m pytest");
    assert("python -m pytest"@.len() == 16);
    reveal_strlit("go test ./...");
    assert("go test ./..."@.len() == 13);
    reveal_strlit("bundle exec rspec");
    assert("bundle exec rspec"@.len() == 17);
    reveal_strlit("./vendor/bin/phpunit");
    assert("./vendor/bin/phpunit"@.len() == 20);
    reveal_strlit("mvn test");
    assert("mvn test"@.len() == 8);
    reveal_strlit("./gradlew test");
    assert("./gradlew test"@.len() == 14);
    assert("go test ./..."@[0] != "pnpm run test"@[0]);
    assert("mvn test"@[0] != "npm test"@[0]);
}

/// The first kind of build file in the order Rust, Node (with a test script), Python, Go,
/// Ruby, PHP, Maven, Gradle decides the command, whatever else is at the root: cargo for
/// Rust; for Node pnpm when its lock file is there, else yarn when its lock file is, else
/// npm; pytest for a `pyproject.toml`, or for a `setup.py` beside a `pytest.ini`, and
/// `python -m pytest` for a lone `setup.py`.
pub proof fn lemma_first_build_file_decides(f: ProjectFiles)
    ensures
        f.cargo_toml ==> test_command_for(f) == Some("cargo test --workspace"@),
        !f.cargo_toml && node_test_script(f) && f.pnpm_lock ==> test_command_for(f) == Some("pnpm run test"@),
        !f.cargo_toml && node_test_script(f) && !f.pnpm_lock && f.yarn_lock ==> test_command_for(f) == Some(
            "yarn test"@,
        ),
        !f.cargo_toml && node_test_script(f) && !f.pnpm_lock && !f.yarn_lock ==> test_command_for(f) == Some(
            "npm test"@,
        ),
        !f.cargo_toml && !node_test_script(f) && f.pyproject_toml ==> test_command_for(f) == Some("pytest"@),
        !f.cargo_toml && !node_test_script(f) && !f.pyproject_toml && f.setup_py && f.pytest_ini
            ==> test_command_for(f) == Some("pytest"@),
        !f.cargo_toml && !node_test_script(f) && !f.pyproject_toml && f.setup_py && !f.pytest_ini
            ==> test_command_for(f) == Some("python -m pytest"@),
        !f.cargo_toml && !node_test_script(f) && !f.pyproject_toml && !f.setup_py && f.go_mod
            ==> test_command_for(f) == Some("go test ./..."@),
        !f.cargo_toml && !node_test_script(f) && !f.pyproject_toml && !f.setup_py && !f.go_mod && f.gemfile
            ==> test_command_for(f) == Some("bundle exec rspec"@),
        !f.cargo_toml && !node_test_script(f) && !f.pyproject_toml && !f.setup_py && !f.go_mod && !f.gemfile
            && f.composer_json ==> test_command_for(f) == Some("./vendor/bin/phpunit"@),
        !f.cargo_toml && !node_test_script(f) && !f.pyproject_toml && !f.setup_py && !f.go_mod && !f.gemfile
            && !f.composer_json && f.pom_xml ==> test_command_for(f) == Some("mvn test"@),
{
}

/// A Java workspace built with Gradle, by `build.gradle` or by `build.gradle.kts`, and with
/// no build file of an earlier rule, is tested with `./gradlew test`; the two Gradle files
/// count alike.
pub proof fn lemma_gradle_either_file(f: ProjectFiles)
    requires
        f.build_gradle || f.build_gradle_kts,
        !f.cargo_toml,
        !node_test_script(f),
        !f.pyproject_toml,
        !f.setup_py,
        !f.go_mod,
        !f.gemfile,
        !f.composer_json,
        !f.pom_xml,
    ensures
        test_command_for(f) == Some("./gradlew test"@),
{
}

/// Which of the two Gradle files is there makes no difference to the command.
pub proof fn lemma_gradle_files_alike(f: ProjectFiles, g: ProjectFiles)
    requires
        f.cargo_toml == g.cargo_toml,
        f.package_json == g.package_json,
        f.pnpm_lock == g.pnpm_lock,
        f.yarn_lock == g.yarn_lock,
        f.pyproject_toml == g.pyproject_toml,
        f.setup_py == g.setup_py,
        f.pytest_ini == g.pytest_ini,
        f.go_mod == g.go_mod,
        f.gemfile == g.gemfile,
        f.composer_json == g.composer_json,
        f.pom_xml == g.pom_xml,
        f.build_gradle || f.build_gradle_kts,
        g.build_gradle || g.build_gradle_kts,
    ensures
        test_command_for(f) == test_command_for(g),
{
}

} // verus!
